use leandown::parse::{meta_text, module_of, page_file, parse, parse_blocks, Block, Meta, Page};

const SMOKE_SOURCE: &str = r#"-- leandown
-- [meta]
-- title = "Smoke Test"
-- group  = "Tests"
-- [content]

-- # {{theorem}}: One equals one
--
-- The simplest possible proof, included to verify the build pipeline.
theorem one_eq_one : 1 = 1 := by
  -- `rfl` closes the goal because both sides are definitionally equal
  rfl
"#;

fn prose(b: &Block) -> &str {
    match b {
        Block::Prose(t) => t.as_str(),
        other => panic!("expected prose, got {:?}", other),
    }
}

fn code(b: &Block) -> &str {
    match b {
        Block::Code(t) => t.as_str(),
        other => panic!("expected code, got {:?}", other),
    }
}

fn smoke_meta() -> Meta {
    Meta { title: Some("Smoke Test".to_string()), group: Some("Tests".to_string()) }
}

#[test]
fn module_of_joins_path_components() {
    assert_eq!(module_of("/proj/Onewayf/Foo.lean", "/proj"), "Onewayf.Foo");
    assert_eq!(module_of("/proj/Main.lean", "/proj"), "Main");
    assert_eq!(module_of("/proj/A.lean.lean", "/proj"), "A");
}

#[test]
fn module_of_outside_the_root_keeps_the_whole_path() {
    assert_eq!(module_of("/other/X.lean", "/proj"), ".other.X");
}

#[test]
fn page_file_uses_the_last_segment() {
    assert_eq!(page_file("Onewayf.Foo"), "Foo.html");
    assert_eq!(page_file("Foo"), "Foo.html");
    assert_eq!(page_file("A.B.C"), "C.html");
    assert_eq!(page_file(""), ".html");
}

#[test]
fn meta_text_collects_the_meta_section() {
    assert_eq!(
        meta_text(SMOKE_SOURCE),
        Some("title = \"Smoke Test\"\ngroup  = \"Tests\"".to_string())
    );
    assert_eq!(meta_text("-- leandown\n-- [content]\n-- hi\n"), None);
    assert_eq!(meta_text("theorem x : True := trivial\n"), None);
}

#[test]
fn parse_smoke_source() {
    let page = parse("/p/SmokeTest.lean", "/p", SMOKE_SOURCE.to_string(), smoke_meta())
        .expect("annotated source");
    assert_eq!(page.path, "/p/SmokeTest.lean");
    assert_eq!(page.module, "SmokeTest");
    assert_eq!(page.title, "Smoke Test");
    assert_eq!(page.group, "Tests");
    assert!(page.imports.is_empty());
    assert_eq!(page.raw, SMOKE_SOURCE);
    assert_eq!(page.blocks.len(), 4);
    assert_eq!(
        prose(&page.blocks[0]),
        "# {{theorem}}: One equals one\n\nThe simplest possible proof, included to verify the build pipeline."
    );
    assert_eq!(code(&page.blocks[1]), "theorem one_eq_one : 1 = 1 := by");
    assert_eq!(
        prose(&page.blocks[2]),
        "`rfl` closes the goal because both sides are definitionally equal"
    );
    assert_eq!(code(&page.blocks[3]), "  rfl");
}

#[test]
fn parse_without_meta_uses_module_defaults() {
    let src = "import Mathlib.Data.Nat\nimport   Foo.Bar  -- note\n-- leandown\n-- [content]\n-- Hello\n";
    let page: Page = parse("/p/Dir/Page.lean", "/p", src.to_string(), Meta::default()).unwrap();
    assert_eq!(page.module, "Dir.Page");
    assert_eq!(page.title, "Page");
    assert_eq!(page.group, "Other");
    assert_eq!(page.imports, vec!["Mathlib.Data.Nat".to_string(), "Foo.Bar".to_string()]);
    assert_eq!(page.blocks.len(), 1);
    assert_eq!(prose(&page.blocks[0]), "Hello");
}

#[test]
fn parse_ignores_meta_fields_without_a_meta_section() {
    let src = "-- leandown\n-- [content]\nx\n";
    let page = parse("/p/A.lean", "/p", src.to_string(), smoke_meta()).unwrap();
    assert_eq!(page.title, "A");
    assert_eq!(page.group, "Other");
}

#[test]
fn parse_rejects_unannotated_sources() {
    assert!(parse("/p/A.lean", "/p", "theorem t : True := trivial\n".to_string(), Meta::default())
        .is_none());
    assert!(parse("/p/A.lean", "/p", "-- leandown\n-- [meta]\n-- title = \"x\"\n".to_string(), Meta::default())
        .is_none());
    assert!(parse("/p/A.lean", "/p", "-- [content]\n-- leandown\n".to_string(), Meta::default())
        .is_none());
}

#[test]
fn parse_blocks_splits_prose_code_and_hidden_sections() {
    let lines: Vec<String> = [
        "",
        "-- Intro line",
        "--",
        "",
        "def f := 1",
        "",
        "",
        "-- [hidden: Proof details]",
        "theorem t : f = 1 := rfl",
        "-- [/hidden]",
        "-- [hidden]",
        "-- inside",
        "   -- [/hidden]   ",
        "-- [hidden:   ]",
    ]
    .iter()
    .map(|s| s.to_string())
    .collect();
    let blocks = parse_blocks(&lines);
    assert_eq!(blocks.len(), 9, "{:?}", blocks);
    assert_eq!(prose(&blocks[0]), "Intro line");
    assert_eq!(code(&blocks[1]), "def f := 1");
    assert!(matches!(&blocks[2], Block::HiddenOpen(l) if l == "Proof details"));
    assert_eq!(code(&blocks[3]), "theorem t : f = 1 := rfl");
    assert!(matches!(&blocks[4], Block::HiddenClose));
    assert!(matches!(&blocks[5], Block::HiddenOpen(l) if l == "Details"));
    assert_eq!(prose(&blocks[6]), "inside");
    assert!(matches!(&blocks[7], Block::HiddenClose));
    assert!(matches!(&blocks[8], Block::HiddenOpen(l) if l.is_empty()));
}

#[test]
fn parse_blocks_keeps_blank_lines_inside_code() {
    let lines: Vec<String> = ["def a := 1", "", "def b := 2", "", "-- after"]
        .iter()
        .map(|s| s.to_string())
        .collect();
    let blocks = parse_blocks(&lines);
    assert_eq!(blocks.len(), 2);
    assert_eq!(code(&blocks[0]), "def a := 1\n\ndef b := 2");
    assert_eq!(prose(&blocks[1]), "after");
}

#[test]
fn parse_blocks_of_nothing_is_empty() {
    assert!(parse_blocks(&Vec::new()).is_empty());
}
