use leandown::graph::{grouped, topo_sort};
use leandown::maps::{AnchorMap, StrMap};
use leandown::parse::{Block, Page};
use leandown::xref::{
    anchor_id, capitalize, compute_backlinks, extract_decl_name, process_tags_and_xref, tags_fit,
};

fn page(module: &str, title: &str, group: &str, imports: &[&str], blocks: Vec<Block>) -> Page {
    Page {
        path: format!("/p/{}.lean", module.replace('.', "/")),
        module: module.to_string(),
        title: title.to_string(),
        group: group.to_string(),
        imports: imports.iter().map(|s| s.to_string()).collect(),
        blocks,
        raw: String::new(),
    }
}

fn prose(t: &str) -> Block {
    Block::Prose(t.to_string())
}

fn code(t: &str) -> Block {
    Block::Code(t.to_string())
}

fn prose_text(b: &Block) -> &str {
    match b {
        Block::Prose(t) => t.as_str(),
        other => panic!("expected prose, got {:?}", other),
    }
}

#[test]
fn extract_decl_name_finds_the_first_declaration() {
    assert_eq!(extract_decl_name("theorem one_eq_one : 1 = 1 := by"), Some("one_eq_one".to_string()));
    assert_eq!(extract_decl_name("theorem foo: 1 = 1"), Some("foo".to_string()));
    assert_eq!(
        extract_decl_name("  private noncomputable def bar (x : Nat) := x"),
        Some("bar".to_string())
    );
    assert_eq!(extract_decl_name("noncomputable lemma baz:: x"), Some("baz".to_string()));
    assert_eq!(
        extract_decl_name("-- a comment\n  lemma second : True := trivial\ndef third := 3"),
        Some("second".to_string())
    );
}

#[test]
fn extract_decl_name_needs_a_keyword_at_line_start() {
    assert_eq!(extract_decl_name("example : 1 = 1 := rfl"), None);
    assert_eq!(extract_decl_name("theorems x"), None);
    assert_eq!(extract_decl_name("x theorem y"), None);
    assert_eq!(extract_decl_name("theorem"), None);
    assert_eq!(extract_decl_name("theorem ::"), Some(String::new()));
    assert_eq!(extract_decl_name("privatetheorem x"), None);
    assert_eq!(extract_decl_name("x\n\n  def\u{a0}y := 1"), Some("y".to_string()));
    assert_eq!(extract_decl_name(""), None);
}

#[test]
fn anchor_id_lowercases_and_dashes() {
    assert_eq!(anchor_id("Theorem 1"), "theorem-1");
    assert_eq!(anchor_id("Main Lemma 12"), "main-lemma-12");
    assert_eq!(anchor_id(""), "");
}

#[test]
fn capitalize_uppercases_the_first_character() {
    assert_eq!(capitalize("theorem"), "Theorem");
    assert_eq!(capitalize("Lemma"), "Lemma");
    assert_eq!(capitalize(""), "");
    assert_eq!(capitalize("ßx"), "SSx");
}

#[test]
fn process_tags_numbers_per_page_and_kind() {
    let mut pages = vec![
        page(
            "Algebra.Groups",
            "Groups",
            "Algebra",
            &[],
            vec![
                prose("{{theorem}}: first. See {{Lemma}}."),
                code("theorem first_thm : True := trivial"),
                prose("{{theorem}} again"),
                code("-- nothing here"),
                code("lemma late : True := trivial"),
            ],
        ),
        page("Other", "Other page", "Misc", &[], vec![prose("{{theorem}} and {{a-b}} and {{}}")]),
    ];
    let data = process_tags_and_xref(&mut pages);

    assert_eq!(prose_text(&pages[0].blocks[0]), "Theorem 1: first. See Lemma 1.");
    assert_eq!(prose_text(&pages[0].blocks[2]), "Theorem 2 again");
    assert_eq!(prose_text(&pages[1].blocks[0]), "Theorem 1 and {{a-b}} and {{}}");

    let e = data.xref.get(&"first_thm".to_string()).expect("registered");
    assert_eq!(e.href, "Groups.html#lemma-1");
    assert_eq!(e.page_title, "Groups");
    assert_eq!(e.label, "Lemma 1");
    assert!(data.xref.get(&"late".to_string()).is_none());

    assert_eq!(
        data.label_xref.get(&"Theorem 1".to_string()).map(|s| s.as_str()),
        Some("Other.html#theorem-1")
    );
    assert_eq!(
        data.label_xref.get(&"Theorem 2".to_string()).map(|s| s.as_str()),
        Some("Groups.html#theorem-2")
    );
    assert_eq!(
        data.label_xref.get(&"Lemma 1".to_string()).map(|s| s.as_str()),
        Some("Groups.html#lemma-1")
    );

    let a = data.anchors.get(&"Algebra.Groups".to_string()).expect("anchors of the page");
    assert_eq!(a.get(0).map(|s| s.as_str()), Some("lemma-1"));
    assert_eq!(a.get(2).map(|s| s.as_str()), Some("theorem-2"));
    assert!(a.get(1).is_none());
    let b = data.anchors.get(&"Other".to_string()).expect("anchors of the other page");
    assert_eq!(b.get(0).map(|s| s.as_str()), Some("theorem-1"));
}

#[test]
fn process_tags_registers_the_next_declaration() {
    let mut pages = vec![page(
        "SmokeTest",
        "Smoke Test",
        "Tests",
        &[],
        vec![
            prose("# {{theorem}}: One equals one"),
            code("theorem one_eq_one : 1 = 1 := by"),
        ],
    )];
    let data = process_tags_and_xref(&mut pages);
    let e = data.xref.get(&"one_eq_one".to_string()).unwrap();
    assert_eq!(e.href, "SmokeTest.html#theorem-1");
    assert_eq!(e.page_title, "Smoke Test");
    assert_eq!(e.label, "Theorem 1");
    assert_eq!(prose_text(&pages[0].blocks[0]), "# Theorem 1: One equals one");
}

#[test]
fn process_tags_keeps_pages_without_tags() {
    let mut pages = vec![page("A", "A", "G", &["B"], vec![prose("plain"), code("def x := 1")])];
    let data = process_tags_and_xref(&mut pages);
    assert_eq!(prose_text(&pages[0].blocks[0]), "plain");
    assert!(data.xref.entries.is_empty());
    assert!(data.label_xref.entries.is_empty());
    let a = data.anchors.get(&"A".to_string()).unwrap();
    assert!(a.entries.is_empty());
    assert_eq!(pages[0].imports, vec!["B".to_string()]);
}

#[test]
fn processing_tags_twice_changes_nothing() {
    let mut pages = vec![
        page(
            "Algebra.Groups",
            "Groups",
            "Algebra",
            &[],
            vec![
                prose("{{theorem}}: first. See {{Lemma}} and {{{{def}}}}."),
                code("theorem first_thm : True := trivial"),
            ],
        ),
        page("Other", "Other", "Misc", &["Algebra.Groups"], vec![prose("{{theorem}} and {{a-b}}")]),
    ];
    let first = process_tags_and_xref(&mut pages);
    assert!(!first.xref.entries.is_empty());
    assert_eq!(prose_text(&pages[0].blocks[0]), "Theorem 1: first. See Lemma 1 and {{Def 1}}.");
    let before = format!("{:?}", pages);
    assert!(tags_fit(&pages));
    let second = process_tags_and_xref(&mut pages);
    assert_eq!(format!("{:?}", pages), before);
    assert!(second.xref.entries.is_empty());
    assert!(second.label_xref.entries.is_empty());
    for m in ["Algebra.Groups", "Other"] {
        let a = second.anchors.get(&m.to_string()).expect("an anchor table per module");
        assert!(a.entries.is_empty());
    }
    assert_eq!(second.anchors.entries.len(), 2);
}

#[test]
fn tags_fit_small_pages() {
    let pages = vec![page("A", "A", "G", &[], vec![prose("{{theorem}} {{theorem}}")])];
    assert!(tags_fit(&pages));
    assert!(tags_fit(&Vec::new()));
}

#[test]
fn compute_backlinks_lists_importers() {
    let pages = vec![
        page("A", "A", "G", &[], vec![]),
        page("B", "B", "G", &["A", "Init"], vec![]),
        page("C", "C", "G", &["A", "B", "A"], vec![]),
    ];
    let bl = compute_backlinks(&pages);
    assert_eq!(bl.get(&"A".to_string()).cloned(), Some(vec![1, 2, 2]));
    assert_eq!(bl.get(&"B".to_string()).cloned(), Some(vec![2]));
    assert_eq!(bl.get(&"C".to_string()).cloned(), Some(vec![]));
    assert!(bl.get(&"Init".to_string()).is_none());
}

#[test]
fn topo_sort_puts_dependencies_first() {
    let pages = vec![
        page("C", "C", "G", &["A", "B"], vec![]),
        page("B", "B", "G", &["A"], vec![]),
        page("A", "A", "G", &[], vec![]),
    ];
    assert_eq!(topo_sort(&pages), vec![2, 1, 0]);
    let pages = vec![
        page("A", "A", "G", &[], vec![]),
        page("B", "B", "G", &["A"], vec![]),
        page("C", "C", "G", &["A", "B", "Mathlib"], vec![]),
    ];
    assert_eq!(topo_sort(&pages), vec![0, 1, 2]);
}

#[test]
fn topo_sort_survives_cycles() {
    let pages = vec![page("X", "X", "G", &["Y"], vec![]), page("Y", "Y", "G", &["X"], vec![])];
    assert_eq!(topo_sort(&pages), vec![1, 0]);
    assert!(topo_sort(&Vec::new()).is_empty());
}

#[test]
fn grouped_sorts_groups_by_name() {
    let pages = vec![
        page("A", "A", "Basics", &[], vec![]),
        page("B", "B", "Advanced", &["A"], vec![]),
        page("C", "C", "Basics", &["B"], vec![]),
        page("D", "D", "Basics", &[], vec![]),
    ];
    let g = grouped(&pages);
    let entries: Vec<(String, Vec<usize>)> = g.iter().map(|(k, v)| (k.clone(), v.clone())).collect();
    assert_eq!(
        entries,
        vec![("Advanced".to_string(), vec![1]), ("Basics".to_string(), vec![0, 2, 3])]
    );
}

#[test]
fn str_map_later_insert_wins() {
    let mut m: StrMap<String> = StrMap::new();
    assert!(m.get(&"k".to_string()).is_none());
    m.insert("k".to_string(), "v1".to_string());
    m.insert("j".to_string(), "w".to_string());
    m.insert("k".to_string(), "v2".to_string());
    assert_eq!(m.get(&"k".to_string()).map(|s| s.as_str()), Some("v2"));
    assert_eq!(m.get(&"j".to_string()).map(|s| s.as_str()), Some("w"));
    let mut a = AnchorMap::new();
    a.insert(3, "x".to_string());
    a.insert(3, "y".to_string());
    assert_eq!(a.get(3).map(|s| s.as_str()), Some("y"));
    assert!(a.get(4).is_none());
}

#[test]
fn topo_sort_resolves_a_module_to_its_last_page() {
    let pages = vec![
        page("B", "B", "G", &["A", "A"], vec![]),
        page("A", "A first", "G", &[], vec![]),
        page("A", "A second", "G", &[], vec![]),
    ];
    assert_eq!(topo_sort(&pages), vec![2, 0, 1]);
    let bl = compute_backlinks(&pages);
    assert_eq!(bl.get(&"A".to_string()).cloned(), Some(vec![0, 0]));
}

#[test]
fn topo_sort_visits_higher_dependencies_first() {
    let pages = vec![
        page("Top", "Top", "G", &["L1", "L2"], vec![]),
        page("L1", "L1", "G", &["Base"], vec![]),
        page("L2", "L2", "G", &["Base"], vec![]),
        page("Base", "Base", "G", &[], vec![]),
    ];
    assert_eq!(topo_sort(&pages), vec![3, 2, 1, 0]);
}
