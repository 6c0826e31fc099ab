use leandown::maps::{AnchorMap, StrMap};
use leandown::markup::title_case;
use leandown::parse::{parse, Block, Meta, Page};
use leandown::render::{head, page_layout, render_index, render_page, render_sidebar};
use leandown::site::{render_site, try_render_site};
use leandown::xref::{compute_backlinks, process_tags_and_xref, XrefData, XrefEntry};

const SCRIPT: &str = r#"
document.querySelectorAll('.prose').forEach(el => {
  const stash = [];
  const save = m => { stash.push(m); return '\u2060' + stash.length + '\u2060'; };
  let text = el.textContent;
  text = text.replace(/\$\$[\s\S]*?\$\$/g, save);
  text = text.replace(/\$[^$\n]+?\$/g,      save);
  let rendered = marked.parse(text);
  rendered = rendered.replace(/\u2060(\d+)\u2060/g, (_, i) => stash[+i - 1]);
  el.innerHTML = rendered;
});
if (typeof renderMathInElement !== 'undefined') {
  renderMathInElement(document.body, {
    delimiters: [
      { left: '$$', right: '$$', display: true  },
      { left: '$',  right: '$',  display: false }
    ],
    throwOnError: false
  });
}
"#;

const HEAD: &str = "<meta charset=\"UTF-8\">
<meta name=\"viewport\" content=\"width=device-width, initial-scale=1\">
<link rel=\"stylesheet\" href=\"styles.css\">
<link rel=\"stylesheet\" href=\"https://cdn.jsdelivr.net/npm/katex@0.16.11/dist/katex.min.css\">
<script src=\"https://cdn.jsdelivr.net/npm/katex@0.16.11/dist/katex.min.js\"></script>
<script src=\"https://cdn.jsdelivr.net/npm/katex@0.16.11/dist/contrib/auto-render.min.js\"></script>
<script src=\"https://cdn.jsdelivr.net/npm/marked/marked.min.js\"></script>
";

fn layout(title: &str, sidebar: &str, main: &str, extra: &str) -> String {
    format!(
        r#"<!DOCTYPE html>
<html lang="en">
<head>
<title>{title}</title>
{HEAD}
</head>
<body class="text-gray-900">
<aside class="fixed left-0 top-0 h-screen w-56 overflow-y-auto bg-white border-r border-gray-200 z-10">
{sidebar}
</aside>
<main class="ml-56 max-w-3xl px-10 py-10">
{main}
</main>
{extra}
</body>
</html>
"#
    )
}

fn page(module: &str, title: &str, group: &str, imports: &[&str], blocks: Vec<Block>) -> Page {
    Page {
        path: format!("/p/{}.lean", module),
        module: module.to_string(),
        title: title.to_string(),
        group: group.to_string(),
        imports: imports.iter().map(|s| s.to_string()).collect(),
        blocks,
        raw: String::new(),
    }
}

fn empty_xrefs() -> XrefData {
    XrefData { xref: StrMap::new(), label_xref: StrMap::new(), anchors: StrMap::new() }
}

const NAV: &str = "<nav class=\"font-sans text-sm px-4 py-6 space-y-2\">\n  <a href=\"index.html\" class=\"block text-blue-600 hover:underline text-xs mb-5\">← index</a>";
const SUMMARY: &str = "    <summary class=\"cursor-pointer select-none bg-gray-100 hover:bg-gray-200 rounded px-3 py-2 font-bold text-gray-800 uppercase tracking-wider text-xs\">";
const ITEM: &str = "\" class=\"block px-3 py-1.5 rounded text-gray-600 hover:bg-gray-100 hover:text-gray-900 text-xs\">";
const ITEM_CURRENT: &str = "\" class=\"block px-3 py-1.5 rounded bg-blue-50 text-blue-700 font-semibold text-xs\">";
const RAW_OPEN: &str = "<details class=\"mt-6 border-t border-gray-200 pt-4 font-sans\">\n  <summary class=\"cursor-pointer text-gray-400 text-sm\">Raw source</summary>\n  <pre class=\"bg-gray-50 px-4 py-3 overflow-x-auto text-xs leading-relaxed mt-3 rounded\"><code>";
const RAW_CLOSE: &str = "</code></pre>\n</details>";
const PROSE_OPEN: &str = "<div class=\"prose prose-gray prose-sm max-w-none my-3\">";
const CODE_OPEN: &str = "<pre class=\"bg-gray-50 border-l-4 border-gray-200 px-4 py-3 overflow-x-auto text-sm leading-relaxed my-1 mb-5 rounded-r\"><code>";

#[test]
fn title_case_keeps_minor_words_small() {
    assert_eq!(title_case("the art of war"), "The Art of War");
    assert_eq!(title_case("ONE AND TWO"), "ONE and TWO");
    assert_eq!(title_case("  spaced   out  "), "Spaced Out");
    assert_eq!(title_case("of"), "Of");
    assert_eq!(title_case("a tale of the city"), "A Tale of the City");
    assert_eq!(title_case("éclair of the day"), "Éclair of the Day");
    assert_eq!(title_case(""), "");
}

#[test]
fn title_case_twice_is_title_case_once() {
    for s in ["the art of war", "ONE AND TWO", "  spaced   out  ", "of the", "x-ray and THE moon", ""] {
        let once = title_case(s);
        assert_eq!(title_case(&once), once);
    }
    assert_eq!(title_case(&title_case("the art of war")), "The Art of War");
}

#[test]
fn head_lists_styles_and_scripts() {
    assert_eq!(head(), HEAD);
}

#[test]
fn page_layout_frames_the_parts() {
    assert_eq!(page_layout("T", "S", "M", "E"), layout("T", "S", "M", "E"));
    assert!(page_layout("T", "S", "M", "E").starts_with("<!DOCTYPE html>\n<html lang=\"en\">\n<head>\n<title>T</title>\n<meta charset"));
}

#[test]
fn sidebar_groups_pages_and_opens_the_current_group() {
    let pages = vec![
        page("A", "page a", "Basics & more", &[], vec![]),
        page("B", "page b", "Advanced", &["A"], vec![]),
    ];
    let expected = format!(
        "{NAV}\n  <details>\n{SUMMARY}Advanced</summary>\n    <ul class=\"mt-1 space-y-0.5\">\n      <li><a href=\"B.html{ITEM}Page B</a></li>\n    </ul>\n  </details>\n  <details open>\n{SUMMARY}Basics &amp; more</summary>\n    <ul class=\"mt-1 space-y-0.5\">\n      <li><a href=\"A.html{ITEM_CURRENT}Page A</a></li>\n    </ul>\n  </details>\n</nav>"
    );
    assert_eq!(render_sidebar(&pages, Some("A")), expected);
    let none = render_sidebar(&pages, None);
    assert!(!none.contains("<details open>"));
    assert!(!none.contains("bg-blue-50"));
}

#[test]
fn index_of_no_pages() {
    let main = "<h1 class=\"text-2xl font-bold font-sans mb-4\">leandown</h1>\n<div class=\"prose prose-gray prose-sm max-w-none mb-8\">\n<p>leandown is a literate Lean 4 publishing tool. Each page is a Lean source file\nannotated with structured comments that render as prose, with LaTeX math via KaTeX\nand clickable cross-references between files. Only files that build cleanly with\nno warnings are included.</p>\n</div>";
    let sidebar = format!("{NAV}\n</nav>");
    assert_eq!(render_index(&Vec::new()), layout("leandown", &sidebar, main, ""));
}

#[test]
fn render_page_of_every_block_kind() {
    let pages = vec![
        page(
            "A",
            "zeta",
            "G",
            &[],
            vec![
                Block::Prose("x < y".to_string()),
                Block::Code("import B\n#check 1".to_string()),
                Block::HiddenOpen("More".to_string()),
                Block::HiddenClose,
            ],
        ),
        page("B", "Beta", "G", &["A"], vec![]),
        page("C", "alpha", "G", &["A"], vec![]),
    ];
    let mods = vec!["A".to_string(), "B".to_string(), "C".to_string()];
    let backlinks = compute_backlinks(&pages);
    let html = render_page(&pages[0], &pages, &mods, &empty_xrefs(), &backlinks);
    let main = format!(
        "<h1 class=\"text-2xl font-bold font-sans mb-6\">Zeta</h1>\n{PROSE_OPEN}x &lt; y</div>\n{CODE_OPEN}import <a href=\"B.html\">B</a>\n#check 1</code></pre>\n<details class=\"my-4 border border-gray-200 rounded\">\n  <summary class=\"cursor-pointer select-none px-4 py-2 text-sm text-gray-500 hover:text-gray-700 hover:bg-gray-50\">More ▸</summary>\n  <div class=\"px-4 pb-3\">\n  </div>\n</details>\n<div class=\"mt-12 border-t border-gray-200 pt-4 font-sans\">\n  <p class=\"text-xs text-gray-400 uppercase tracking-wider mb-2\">Referenced by</p>\n  <ul class=\"space-y-1 text-sm\"><li><a href=\"B.html\" class=\"text-blue-600 hover:underline\">Beta</a></li><li><a href=\"C.html\" class=\"text-blue-600 hover:underline\">Alpha</a></li></ul>\n</div>\n{RAW_OPEN}{RAW_CLOSE}"
    );
    let sidebar = render_sidebar(&pages, Some("A"));
    assert_eq!(html, layout("Zeta", &sidebar, &main, &format!("<script>{SCRIPT}</script>")));
}

#[test]
fn render_page_without_importers_has_no_backlinks() {
    let pages = vec![page("A", "a & b", "G", &[], vec![])];
    let mods = vec!["A".to_string()];
    let backlinks = compute_backlinks(&pages);
    let html = render_page(&pages[0], &pages, &mods, &empty_xrefs(), &backlinks);
    assert!(!html.contains("Referenced by"));
    assert!(html.contains("<title>A &amp; B</title>"));
    assert!(html.contains(&format!(
        "<h1 class=\"text-2xl font-bold font-sans mb-6\">A &amp; B</h1>\n{RAW_OPEN}{RAW_CLOSE}"
    )));
}

#[test]
fn render_page_links_references_in_prose() {
    let mut xref = StrMap::new();
    xref.insert(
        "one_eq_one".to_string(),
        XrefEntry {
            href: "SmokeTest.html#theorem-1".to_string(),
            page_title: "Smoke Test".to_string(),
            label: "Theorem 1".to_string(),
        },
    );
    let mut label_xref = StrMap::new();
    label_xref.insert("Theorem 1".to_string(), "SmokeTest.html#theorem-1".to_string());
    let mut anchors = StrMap::new();
    let mut a = AnchorMap::new();
    a.insert(0, "theorem-1".to_string());
    anchors.insert("A".to_string(), a);
    let data = XrefData { xref, label_xref, anchors };
    let pages = vec![page(
        "A",
        "A",
        "G",
        &[],
        vec![Block::Prose("By `one_eq_one` and [ref: Theorem 1]:\nand so `two`".to_string())],
    )];
    let html = render_page(&pages[0], &pages, &vec!["A".to_string()], &data, &compute_backlinks(&pages));
    let expected = format!(
        "<a id=\"theorem-1\"></a>\n{PROSE_OPEN}By [`one_eq_one`](SmokeTest.html#theorem-1 \"Smoke Test, Theorem 1\") and [Theorem 1](SmokeTest.html#theorem-1):  \nand so `two`</div>"
    );
    assert!(html.contains(&expected), "{html}");
}

#[test]
fn prose_breaks_before_and_so_and_equals() {
    let pages = vec![page(
        "A",
        "A",
        "G",
        &[],
        vec![Block::Prose("We have:\nx = y\n  so z\n$= w\nend:\n\nlast".to_string())],
    )];
    let html = render_page(&pages[0], &pages, &Vec::new(), &empty_xrefs(), &compute_backlinks(&pages));
    let expected = format!("{PROSE_OPEN}We have:  \nx = y  \n  so z  \n$= w\nend:  \n\nlast</div>");
    assert!(html.contains(&expected), "{html}");
}

const SMOKE_SOURCE: &str = r#"-- leandown
-- [meta]
-- title = "Smoke Test"
-- group  = "Tests"
-- [content]

-- # {{theorem}}: One equals one
--
-- The simplest possible proof, included to verify the build pipeline.
theorem one_eq_one : 1 = 1 := by
  -- `rfl` closes the goal because both sides are definitionally equal
  rfl
"#;

#[test]
fn smoke_site_renders_the_theorem() {
    let meta = Meta { title: Some("Smoke Test".to_string()), group: Some("Tests".to_string()) };
    let page = parse("/p/SmokeTest.lean", "/p", SMOKE_SOURCE.to_string(), meta).unwrap();
    let site = render_site(vec![page]);
    assert_eq!(site.pages.len(), 1);
    assert_eq!(site.pages[0].module, "SmokeTest");
    assert_eq!(site.pages[0].file, "SmokeTest.html");
    let html = &site.pages[0].html;
    assert!(html.contains("one_eq_one"));
    assert!(html.contains("Theorem 1"));
    assert!(html.contains("One equals one"));
    assert!(html.contains("<a id=\"theorem-1\"></a>"));
    assert!(html.contains("<title>Smoke Test</title>"));
    assert!(site.index.contains("leandown"));
    assert!(site.index.contains("<a href=\"SmokeTest.html"));
}

#[test]
fn render_site_uses_processed_pages() {
    let mut pages = vec![
        page("A", "A", "G", &[], vec![Block::Prose("{{lemma}}".to_string()), Block::Code("lemma l : True := trivial".to_string())]),
        page("B", "B", "G", &["A"], vec![Block::Prose("Uses `l`.".to_string())]),
    ];
    let site = render_site(std::mem::take(&mut pages));
    assert!(site.pages[0].html.contains("Lemma 1"));
    assert!(site.pages[1].html.contains("[`l`](A.html#lemma-1 \"A, Lemma 1\")"));
    assert!(site.pages[0].html.contains("Referenced by"));
}

#[test]
fn try_render_site_renders_ordinary_pages() {
    let pages = vec![page("A", "A", "G", &[], vec![Block::Prose("{{theorem}} {{theorem}}".to_string())])];
    let site = try_render_site(pages).expect("few tags");
    assert_eq!(site.pages.len(), 1);
    assert!(site.pages[0].html.contains("Theorem 1 Theorem 2"));
}

fn xref_entry(href: &str, page_title: &str, label: &str) -> XrefEntry {
    XrefEntry { href: href.to_string(), page_title: page_title.to_string(), label: label.to_string() }
}

#[test]
fn code_blocks_link_declaration_names() {
    let mut xref = StrMap::new();
    xref.insert("foo".to_string(), xref_entry("A.html#theorem-1", "A", "Theorem 1"));
    let data = XrefData { xref, label_xref: StrMap::new(), anchors: StrMap::new() };
    let pages = vec![page("A", "A", "G", &[], vec![Block::Code("exact foo\nfoo_bar < foo.x".to_string())])];
    let html = render_page(&pages[0], &pages, &Vec::new(), &data, &compute_backlinks(&pages));
    let expected = format!(
        "{CODE_OPEN}exact <a href=\"A.html#theorem-1\" title=\"A, Theorem 1\" class=\"xref\">foo</a>\nfoo_bar &lt; foo.x</code></pre>"
    );
    assert!(html.contains(&expected), "{html}");
}

#[test]
fn code_blocks_prefer_the_longest_name() {
    let mut xref = StrMap::new();
    xref.insert("foo".to_string(), xref_entry("A.html#lemma-1", "A & B", "Lemma 1"));
    xref.insert("foo.bar".to_string(), xref_entry("B.html#theorem-2", "B", "Theorem 2"));
    let data = XrefData { xref, label_xref: StrMap::new(), anchors: StrMap::new() };
    let pages = vec![page("A", "A", "G", &[], vec![Block::Code("(foo.bar foo)".to_string())])];
    let html = render_page(&pages[0], &pages, &Vec::new(), &data, &compute_backlinks(&pages));
    let expected = format!(
        "{CODE_OPEN}(<a href=\"B.html#theorem-2\" title=\"B, Theorem 2\" class=\"xref\">foo.bar</a> <a href=\"A.html#lemma-1\" title=\"A &amp; B, Lemma 1\" class=\"xref\">foo</a>)</code></pre>"
    );
    assert!(html.contains(&expected), "{html}");
}

#[test]
fn linked_imports_are_not_linked_again() {
    let mut xref = StrMap::new();
    xref.insert("B".to_string(), xref_entry("B.html#x-1", "B", "X 1"));
    let data = XrefData { xref, label_xref: StrMap::new(), anchors: StrMap::new() };
    let pages = vec![page("A", "A", "G", &[], vec![Block::Code("import B\nimport C -- B".to_string())])];
    let html = render_page(&pages[0], &pages, &vec!["B".to_string()], &data, &compute_backlinks(&pages));
    let expected = format!(
        "{CODE_OPEN}import <a href=\"B.html\">B</a>\nimport C -- <a href=\"B.html#x-1\" title=\"B, X 1\" class=\"xref\">B</a></code></pre>"
    );
    assert!(html.contains(&expected), "{html}");
}
