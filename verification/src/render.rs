//! The HTML of the site: the page frame, the sidebar of page groups, each
//! page, and the index.

use vstd::prelude::*;
use crate::graph::{grouped, is_grouping, lemma_text_le_total, lemma_text_le_trans, page_groups};
use crate::outside::{escape_html, group_at, group_count, group_entries, html_text, text_le};
use crate::maps::{AnchorMap, StrMap};
use crate::markup::{
    code_block_html, escape_chars, format_prose_chars, format_prose_spec, label_refs_from,
    link_label_refs_chars, link_xrefs_chars, module_set, render_code_block, xrefs_from,
};
use crate::parse::{page_file, page_file_spec, page_views, Block, BlockView, Page, PageView};
use crate::xref::{XrefData, XrefView};
use crate::markup::{title_case, title_case_spec};
use crate::text::{chars_of, extend_chars, extend_str, join, join_exec, string_of, views};
use indexmap::IndexMap;

verus! {

broadcast use vstd::string::group_string_axioms;

// ---------------------------------------------------------------------------
// Page frame
// ---------------------------------------------------------------------------

/// The tags of every page's `<head>` after its title: viewport, styles,
/// KaTeX and marked.
pub open spec fn head_html() -> Seq<char> {
    "<meta charset=\"UTF-8\">\n<meta name=\"viewport\" content=\"width=device-width, initial-scale=1\">\n<link rel=\"stylesheet\" href=\"styles.css\">\n<link rel=\"stylesheet\" href=\"https://cdn.jsdelivr.net/npm/katex@0.16.11/dist/katex.min.css\">\n<script src=\"https://cdn.jsdelivr.net/npm/katex@0.16.11/dist/katex.min.js\"></script>\n<script src=\"https://cdn.jsdelivr.net/npm/katex@0.16.11/dist/contrib/auto-render.min.js\"></script>\n<script src=\"https://cdn.jsdelivr.net/npm/marked/marked.min.js\"></script>\n"@
}

/// The tags of every page's `<head>` after its title.
pub fn head() -> (r: String)
    ensures
        r@ == head_html(),
{
    String::from_str(
        "<meta charset=\"UTF-8\">\n<meta name=\"viewport\" content=\"width=device-width, initial-scale=1\">\n<link rel=\"stylesheet\" href=\"styles.css\">\n<link rel=\"stylesheet\" href=\"https://cdn.jsdelivr.net/npm/katex@0.16.11/dist/katex.min.css\">\n<script src=\"https://cdn.jsdelivr.net/npm/katex@0.16.11/dist/katex.min.js\"></script>\n<script src=\"https://cdn.jsdelivr.net/npm/katex@0.16.11/dist/contrib/auto-render.min.js\"></script>\n<script src=\"https://cdn.jsdelivr.net/npm/marked/marked.min.js\"></script>\n",
    )
}

/// A whole HTML document: the title, the sidebar in a fixed `<aside>`, the
/// main content, and extra body content (scripts) at the end.
pub open spec fn layout_html(
    title: Seq<char>,
    sidebar: Seq<char>,
    main: Seq<char>,
    extra: Seq<char>,
) -> Seq<char> {
    "<!DOCTYPE html>\n<html lang=\"en\">\n<head>\n<title>"@ + title + "</title>\n"@ + head_html()
        + "\n</head>\n<body class=\"text-gray-900\">\n<aside class=\"fixed left-0 top-0 h-screen w-56 overflow-y-auto bg-white border-r border-gray-200 z-10\">\n"@
        + sidebar + "\n</aside>\n<main class=\"ml-56 max-w-3xl px-10 py-10\">\n"@ + main
        + "\n</main>\n"@ + extra + "\n</body>\n</html>\n"@
}

/// A whole HTML document around a title, the sidebar, the main content and
/// extra body content.
pub fn page_layout(title: &str, sidebar_html: &str, main_html: &str, extra_body: &str) -> (r: String)
    ensures
        r@ == layout_html(title@, sidebar_html@, main_html@, extra_body@),
{
    let mut out: Vec<char> = Vec::new();
    extend_str(&mut out, "<!DOCTYPE html>\n<html lang=\"en\">\n<head>\n<title>");
    extend_str(&mut out, title);
    extend_str(&mut out, "</title>\n");
    let h = head();
    extend_str(&mut out, h.as_str());
    extend_str(
        &mut out,
        "\n</head>\n<body class=\"text-gray-900\">\n<aside class=\"fixed left-0 top-0 h-screen w-56 overflow-y-auto bg-white border-r border-gray-200 z-10\">\n",
    );
    extend_str(&mut out, sidebar_html);
    extend_str(&mut out, "\n</aside>\n<main class=\"ml-56 max-w-3xl px-10 py-10\">\n");
    extend_str(&mut out, main_html);
    extend_str(&mut out, "\n</main>\n");
    extend_str(&mut out, extra_body);
    extend_str(&mut out, "\n</body>\n</html>\n");
    string_of(&out)
}

// ---------------------------------------------------------------------------
// Sidebar
// ---------------------------------------------------------------------------

/// A module name given as an optional string slice, as a value.
pub open spec fn opt_str(o: Option<&str>) -> Option<Seq<char>> {
    match o {
        Some(s) => Some(s@),
        None => None,
    }
}

/// Some page of the group has the current module.
pub open spec fn holds_current(ps: Seq<PageView>, idxs: Seq<usize>, cur: Option<Seq<char>>) -> bool {
    match cur {
        Some(m) => exists|k: int| 0 <= k < idxs.len() && ps[#[trigger] idxs[k] as int].module == m,
        None => false,
    }
}

/// The opening of a group's collapsible section.
pub open spec fn details_line(open: bool) -> Seq<char> {
    if open {
        "  <details open>"@
    } else {
        "  <details>"@
    }
}

/// The heading of a group's section: its name, escaped.
pub open spec fn summary_line(name: Seq<char>) -> Seq<char> {
    "    <summary class=\"cursor-pointer select-none bg-gray-100 hover:bg-gray-200 rounded px-3 py-2 font-bold text-gray-800 uppercase tracking-wider text-xs\">"@
        + html_text(name) + "</summary>"@
}

/// The sidebar link to a page; the current page's link is highlighted.
pub open spec fn item_line(p: PageView, cur: Option<Seq<char>>) -> Seq<char> {
    if cur == Some(p.module) {
        "      <li><a href=\""@ + page_file_spec(p.module)
            + "\" class=\"block px-3 py-1.5 rounded bg-blue-50 text-blue-700 font-semibold text-xs\">"@
            + html_text(title_case_spec(p.title)) + "</a></li>"@
    } else {
        "      <li><a href=\""@ + page_file_spec(p.module)
            + "\" class=\"block px-3 py-1.5 rounded text-gray-600 hover:bg-gray-100 hover:text-gray-900 text-xs\">"@
            + html_text(title_case_spec(p.title)) + "</a></li>"@
    }
}

/// The sidebar links to the pages `idxs`.
pub open spec fn item_lines(ps: Seq<PageView>, idxs: Seq<usize>, cur: Option<Seq<char>>) -> Seq<
    Seq<char>,
> {
    Seq::new(idxs.len(), |k: int| item_line(ps[idxs[k] as int], cur))
}

/// The lines of one group: a collapsible section, open when it holds the
/// current page, listing its pages.
pub open spec fn group_lines(
    ps: Seq<PageView>,
    e: (Seq<char>, Seq<usize>),
    cur: Option<Seq<char>>,
) -> Seq<Seq<char>> {
    seq![
        details_line(holds_current(ps, e.1, cur)),
        summary_line(e.0),
        "    <ul class=\"mt-1 space-y-0.5\">"@,
    ] + item_lines(ps, e.1, cur) + seq!["    </ul>"@, "  </details>"@]
}

/// The lines of all the groups, in order.
pub open spec fn groups_lines(
    ps: Seq<PageView>,
    es: Seq<(Seq<char>, Seq<usize>)>,
    cur: Option<Seq<char>>,
) -> Seq<Seq<char>>
    decreases es.len(),
{
    if es.len() == 0 {
        Seq::empty()
    } else {
        groups_lines(ps, es.drop_last(), cur) + group_lines(ps, es.last(), cur)
    }
}

/// The opening of the sidebar's navigation.
pub open spec fn nav_open() -> Seq<char> {
    "<nav class=\"font-sans text-sm px-4 py-6 space-y-2\">"@
}

/// The link back to the index.
pub open spec fn index_link() -> Seq<char> {
    "  <a href=\"index.html\" class=\"block text-blue-600 hover:underline text-xs mb-5\">← index</a>"@
}

/// The sidebar for groups `es` of the pages, highlighting module `cur`.
pub open spec fn sidebar_html(
    ps: Seq<PageView>,
    es: Seq<(Seq<char>, Seq<usize>)>,
    cur: Option<Seq<char>>,
) -> Seq<char> {
    join(seq![nav_open(), index_link()] + groups_lines(ps, es, cur) + seq!["</nav>"@], seq!['\n'])
}

fn push_line(parts: &mut Vec<Vec<char>>, s: &str)
    ensures
        views(final(parts)@) == views(old(parts)@).push(s@),
{
    let mut v: Vec<char> = Vec::new();
    extend_str(&mut v, s);
    assert(v@ =~= s@);
    let ghost before = parts@;
    parts.push(v);
    assert(views(parts@) =~= views(before).push(s@));
}

fn push_chars_line(parts: &mut Vec<Vec<char>>, v: Vec<char>)
    ensures
        views(final(parts)@) == views(old(parts)@).push(v@),
{
    let ghost before = parts@;
    let ghost vv = v@;
    parts.push(v);
    assert(views(parts@) =~= views(before).push(vv));
}

fn module_is(p: &Page, cur: Option<&str>) -> (b: bool)
    ensures
        b == (opt_str(cur) == Some(p.module@)),
{
    match cur {
        Some(m) => {
            let ms = String::from_str(m);
            p.module == ms
        },
        None => false,
    }
}

fn holds_current_exec(pages: &Vec<Page>, idxs: &Vec<usize>, cur: Option<&str>) -> (b: bool)
    requires
        forall|k: int| 0 <= k < idxs@.len() ==> #[trigger] idxs@[k] < pages@.len(),
    ensures
        b == holds_current(page_views(pages@), idxs@, opt_str(cur)),
{
    let ghost ps = page_views(pages@);
    let mut k: usize = 0;
    while k < idxs.len()
        invariant
            k <= idxs.len(),
            ps == page_views(pages@),
            forall|j: int| 0 <= j < idxs@.len() ==> #[trigger] idxs@[j] < pages@.len(),
            forall|j: int| 0 <= j < k ==> opt_str(cur) != Some(#[trigger] ps[idxs@[j] as int].module),
        decreases idxs.len() - k,
    {
        if module_is(&pages[idxs[k]], cur) {
            assert(ps[idxs@[k as int] as int].module == pages@[idxs@[k as int] as int].module@);
            return true;
        }
        proof {
            lemma_page_view_at(pages, idxs@[k as int] as int);
        }
        k = k + 1;
    }
    false
}

proof fn lemma_page_view_at(pages: &Vec<Page>, i: int)
    requires
        0 <= i < pages@.len(),
    ensures
        page_views(pages@)[i] == pages@[i]@,
{
}

fn item_line_exec(p: &Page, cur: Option<&str>) -> (r: Vec<char>)
    ensures
        r@ == item_line(p@, opt_str(cur)),
{
    let href = page_file(p.module.as_str());
    let t = title_case(p.title.as_str());
    let te = escape_html(t.as_str());
    let mut out: Vec<char> = Vec::new();
    extend_str(&mut out, "      <li><a href=\"");
    extend_str(&mut out, href.as_str());
    if module_is(p, cur) {
        extend_str(
            &mut out,
            "\" class=\"block px-3 py-1.5 rounded bg-blue-50 text-blue-700 font-semibold text-xs\">",
        );
    } else {
        extend_str(
            &mut out,
            "\" class=\"block px-3 py-1.5 rounded text-gray-600 hover:bg-gray-100 hover:text-gray-900 text-xs\">",
        );
    }
    extend_str(&mut out, te.as_str());
    extend_str(&mut out, "</a></li>");
    out
}

fn group_lines_exec(
    pages: &Vec<Page>,
    name: &String,
    idxs: &Vec<usize>,
    cur: Option<&str>,
    parts: &mut Vec<Vec<char>>,
)
    requires
        forall|k: int| 0 <= k < idxs@.len() ==> #[trigger] idxs@[k] < pages@.len(),
    ensures
        views(final(parts)@) == views(old(parts)@) + group_lines(
            page_views(pages@),
            (name@, idxs@),
            opt_str(cur),
        ),
{
    let ghost ps = page_views(pages@);
    let ghost start = views(parts@);
    let open = holds_current_exec(pages, idxs, cur);
    if open {
        push_line(parts, "  <details open>");
    } else {
        push_line(parts, "  <details>");
    }
    let mut summary: Vec<char> = Vec::new();
    extend_str(
        &mut summary,
        "    <summary class=\"cursor-pointer select-none bg-gray-100 hover:bg-gray-200 rounded px-3 py-2 font-bold text-gray-800 uppercase tracking-wider text-xs\">",
    );
    let ne = escape_html(name.as_str());
    extend_str(&mut summary, ne.as_str());
    extend_str(&mut summary, "</summary>");
    push_chars_line(parts, summary);
    push_line(parts, "    <ul class=\"mt-1 space-y-0.5\">");
    let ghost head = seq![
        details_line(open),
        summary_line(name@),
        "    <ul class=\"mt-1 space-y-0.5\">"@,
    ];
    assert(views(parts@) =~= start + head);
    let ghost items = item_lines(ps, idxs@, opt_str(cur));
    let mut k: usize = 0;
    while k < idxs.len()
        invariant
            k <= idxs.len(),
            ps == page_views(pages@),
            items == item_lines(ps, idxs@, opt_str(cur)),
            forall|j: int| 0 <= j < idxs@.len() ==> #[trigger] idxs@[j] < pages@.len(),
            views(parts@) == start + head + items.take(k as int),
        decreases idxs.len() - k,
    {
        let line = item_line_exec(&pages[idxs[k]], cur);
        proof {
            lemma_page_view_at(pages, idxs@[k as int] as int);
        }
        let ghost before = views(parts@);
        push_chars_line(parts, line);
        assert(items.take(k + 1) =~= items.take(k as int).push(items[k as int]));
        assert(views(parts@) =~= start + head + items.take(k + 1));
        k = k + 1;
    }
    push_line(parts, "    </ul>");
    push_line(parts, "  </details>");
    assert(items.take(idxs@.len() as int) =~= items);
    assert(views(parts@) =~= start + group_lines(ps, (name@, idxs@), opt_str(cur)));
}

/// The sidebar for the given groups of the pages, highlighting the page of
/// module `current_module`.
fn sidebar_from_groups(
    pages: &Vec<Page>,
    groups: &IndexMap<String, Vec<usize>>,
    current_module: Option<&str>,
) -> (r: String)
    requires
        is_grouping(page_views(pages@), group_entries(*groups)),
    ensures
        r@ == sidebar_html(page_views(pages@), group_entries(*groups), opt_str(current_module)),
{
    let ghost ps = page_views(pages@);
    let ghost es = group_entries(*groups);
    let ghost cur = opt_str(current_module);
    let mut parts: Vec<Vec<char>> = Vec::new();
    push_line(&mut parts, "<nav class=\"font-sans text-sm px-4 py-6 space-y-2\">");
    push_line(
        &mut parts,
        "  <a href=\"index.html\" class=\"block text-blue-600 hover:underline text-xs mb-5\">← index</a>",
    );
    let ghost top = seq![nav_open(), index_link()];
    assert(views(parts@) =~= top + groups_lines(ps, es.take(0), cur));
    let n = group_count(groups);
    let mut g: usize = 0;
    while g < n
        invariant
            g <= n == es.len(),
            ps == page_views(pages@),
            es == group_entries(*groups),
            cur == opt_str(current_module),
            is_grouping(ps, es),
            views(parts@) == top + groups_lines(ps, es.take(g as int), cur),
        decreases n - g,
    {
        let (name, idxs) = group_at(groups, g);
        assert forall|k: int| 0 <= k < idxs@.len() implies #[trigger] idxs@[k] < pages@.len() by {
            assert(es[g as int].1[k] < ps.len());
        }
        group_lines_exec(pages, &name, &idxs, current_module, &mut parts);
        assert(es.take(g + 1).drop_last() =~= es.take(g as int));
        assert(views(parts@) =~= top + groups_lines(ps, es.take(g + 1), cur));
        g = g + 1;
    }
    assert(es.take(n as int) =~= es);
    push_line(&mut parts, "</nav>");
    assert(views(parts@) =~= seq![nav_open(), index_link()] + groups_lines(ps, es, cur) + seq![
        "</nav>"@,
    ]);
    let nl = vec!['\n'];
    let body = join_exec(&parts, &nl);
    assert(nl@ =~= seq!['\n']);
    string_of(&body)
}

/// The sidebar: the pages by group (see [`grouped`]), highlighting the page
/// of module `current_module`.
pub fn render_sidebar(pages: &Vec<Page>, current_module: Option<&str>) -> (r: String)
    ensures
        r@ == sidebar_html(page_views(pages@), page_groups(page_views(pages@)), opt_str(current_module)),
{
    let groups = grouped(pages);
    sidebar_from_groups(pages, &groups, current_module)
}

/// Where the section of group `g` starts among the sidebar's group lines:
/// each earlier group takes five lines and one line per page.
pub open spec fn group_start(es: Seq<(Seq<char>, Seq<usize>)>, g: int) -> int
    decreases g,
{
    if g <= 0 {
        0
    } else {
        group_start(es, g - 1) + 5 + es[g - 1].1.len()
    }
}

proof fn lemma_group_start_prefix(es: Seq<(Seq<char>, Seq<usize>)>, n: int, g: int)
    requires
        0 <= g <= n <= es.len(),
    ensures
        group_start(es.take(n), g) == group_start(es, g),
        group_start(es, g) >= 0,
    decreases g,
{
    if g > 0 {
        lemma_group_start_prefix(es, n, g - 1);
        assert(es.take(n)[g - 1] == es[g - 1]);
    }
}

proof fn lemma_groups_lines_len(ps: Seq<PageView>, es: Seq<(Seq<char>, Seq<usize>)>, cur: Option<Seq<char>>)
    ensures
        groups_lines(ps, es, cur).len() == group_start(es, es.len() as int),
    decreases es.len(),
{
    if es.len() > 0 {
        let d = es.drop_last();
        lemma_groups_lines_len(ps, d, cur);
        assert(d =~= es.take(es.len() - 1));
        lemma_group_start_prefix(es, es.len() - 1, es.len() - 1);
    }
}

/// The section of a group in the sidebar is open exactly when one of the
/// pages it lists has the current module.
pub proof fn lemma_sidebar_opens_current_group(
    ps: Seq<PageView>,
    es: Seq<(Seq<char>, Seq<usize>)>,
    cur: Option<Seq<char>>,
    g: int,
)
    requires
        0 <= g < es.len(),
    ensures
        group_start(es, g) < groups_lines(ps, es, cur).len(),
        groups_lines(ps, es, cur)[group_start(es, g)] == (if exists|k: int|
            0 <= k < es[g].1.len() && cur == Some(ps[#[trigger] es[g].1[k] as int].module) {
            "  <details open>"@
        } else {
            "  <details>"@
        }),
    decreases es.len(),
{
    let d = es.drop_last();
    assert(d =~= es.take(es.len() - 1));
    lemma_groups_lines_len(ps, d, cur);
    lemma_groups_lines_len(ps, es, cur);
    lemma_group_start_prefix(es, es.len() - 1, es.len() - 1);
    let before = groups_lines(ps, d, cur);
    assert(groups_lines(ps, es, cur) == before + group_lines(ps, es.last(), cur));
    if g < es.len() - 1 {
        lemma_sidebar_opens_current_group(ps, d, cur, g);
        lemma_group_start_prefix(es, es.len() - 1, g);
        assert(d[g] == es[g]);
        assert(group_start(d, g) == group_start(es, g));
        assert(group_start(d, g) < before.len());
        assert((before + group_lines(ps, es.last(), cur))[group_start(d, g)] == before[group_start(d, g)]);
        assert(groups_lines(ps, es, cur)[group_start(es, g)] == before[group_start(d, g)]);
    } else {
        assert((before + group_lines(ps, es.last(), cur))[before.len() as int] == group_lines(ps, es.last(), cur)[0]);
        let idxs = es[g].1;
        if exists|k: int| 0 <= k < idxs.len() && cur == Some(ps[#[trigger] idxs[k] as int].module) {
            let k = choose|k: int| 0 <= k < idxs.len() && cur == Some(ps[#[trigger] idxs[k] as int].module);
            assert(holds_current(ps, idxs, cur));
        } else {
            assert(!holds_current(ps, idxs, cur));
        }
    }
}

// ---------------------------------------------------------------------------
// Index
// ---------------------------------------------------------------------------

/// The content of the index page.
pub open spec fn index_main() -> Seq<char> {
    "<h1 class=\"text-2xl font-bold font-sans mb-4\">leandown</h1>\n<div class=\"prose prose-gray prose-sm max-w-none mb-8\">\n<p>leandown is a literate Lean 4 publishing tool. Each page is a Lean source file\nannotated with structured comments that render as prose, with LaTeX math via KaTeX\nand clickable cross-references between files. Only files that build cleanly with\nno warnings are included.</p>\n</div>"@
}

/// The index page, with the sidebar for groups `es`.
pub open spec fn index_html(ps: Seq<PageView>, es: Seq<(Seq<char>, Seq<usize>)>) -> Seq<char> {
    layout_html("leandown"@, sidebar_html(ps, es, None), index_main(), ""@)
}

/// Render the index page listing all pages.
pub fn render_index(pages: &Vec<Page>) -> (r: String)
    ensures
        r@ == index_html(page_views(pages@), page_groups(page_views(pages@))),
{
    let sidebar = render_sidebar(pages, None);
    page_layout(
        "leandown",
        sidebar.as_str(),
        "<h1 class=\"text-2xl font-bold font-sans mb-4\">leandown</h1>\n<div class=\"prose prose-gray prose-sm max-w-none mb-8\">\n<p>leandown is a literate Lean 4 publishing tool. Each page is a Lean source file\nannotated with structured comments that render as prose, with LaTeX math via KaTeX\nand clickable cross-references between files. Only files that build cleanly with\nno warnings are included.</p>\n</div>",
        "",
    )
}


// ---------------------------------------------------------------------------
// Pages
// ---------------------------------------------------------------------------

/// The script at the end of every page: renders the Markdown of prose blocks
/// (keeping `$...$` and `$$...$$` math apart) and then the math with KaTeX.
pub const PAGE_SCRIPT: &'static str = r#"
document.querySelectorAll('.prose').forEach(el => {
  const stash = [];
  const save = m => { stash.push(m); return '\u2060' + stash.length + '\u2060'; };
  let text = el.textContent;
  text = text.replace(/\$\$[\s\S]*?\$\$/g, save);
  text = text.replace(/\$[^$\n]+?\$/g,      save);
  let rendered = marked.parse(text);
  rendered = rendered.replace(/\u2060(\d+)\u2060/g, (_, i) => stash[+i - 1]);
  el.innerHTML = rendered;
});
if (typeof renderMathInElement !== 'undefined') {
  renderMathInElement(document.body, {
    delimiters: [
      { left: '$$', right: '$$', display: true  },
      { left: '$',  right: '$',  display: false }
    ],
    throwOnError: false
  });
}
"#;

/// Text `a` sorts before or with text `b` (by character code).
fn text_le_exec(a: &Vec<char>, b: &Vec<char>) -> (r: bool)
    ensures
        r == text_le(a@, b@),
{
    let mut i: usize = 0;
    assert(a@.skip(0) =~= a@);
    assert(b@.skip(0) =~= b@);
    while i < a.len() && i < b.len() && a[i] == b[i]
        invariant
            i <= a.len(),
            i <= b.len(),
            text_le(a@, b@) == text_le(a@.skip(i as int), b@.skip(i as int)),
        decreases a.len() - i,
    {
        assert(a@.skip(i as int).drop_first() =~= a@.skip(i + 1));
        assert(b@.skip(i as int).drop_first() =~= b@.skip(i + 1));
        i = i + 1;
    }
    if i == a.len() {
        true
    } else if i == b.len() {
        false
    } else {
        (a[i] as u32) < (b[i] as u32)
    }
}

/// `x` inserted into `s` after the entries whose page title sorts before or
/// with its own, and before the rest.
pub open spec fn insert_by_title(ps: Seq<PageView>, s: Seq<usize>, x: usize) -> Seq<usize>
    decreases s.len(),
{
    if s.len() == 0 {
        seq![x]
    } else if text_le(ps[s.last() as int].title, ps[x as int].title) {
        s.push(x)
    } else {
        insert_by_title(ps, s.drop_last(), x).push(s.last())
    }
}

/// The stable sort of page indices by page title.
pub open spec fn sort_by_title(ps: Seq<PageView>, s: Seq<usize>) -> Seq<usize>
    decreases s.len(),
{
    if s.len() == 0 {
        Seq::empty()
    } else {
        insert_by_title(ps, sort_by_title(ps, s.drop_last()), s.last())
    }
}

/// The pages of `r` come in order of title.
pub open spec fn sorted_by_title(ps: Seq<PageView>, r: Seq<usize>) -> bool {
    forall|i: int, j: int|
        0 <= i < j < r.len() ==> text_le(ps[#[trigger] r[i] as int].title, ps[#[trigger] r[j] as int].title)
}

proof fn lemma_insert_by_title(ps: Seq<PageView>, s: Seq<usize>, x: usize)
    requires
        sorted_by_title(ps, s),
    ensures
        sorted_by_title(ps, insert_by_title(ps, s, x)),
        insert_by_title(ps, s, x).to_multiset() == s.to_multiset().insert(x),
    decreases s.len(),
{
    broadcast use vstd::seq_lib::group_to_multiset_ensures;

    let title = |v: usize| ps[v as int].title;
    if s.len() == 0 {
        assert(seq![x] =~= Seq::<usize>::empty().push(x));
    } else if text_le(title(s.last()), title(x)) {
        let r = s.push(x);
        assert forall|i: int, j: int| 0 <= i < j < r.len() implies text_le(
            ps[#[trigger] r[i] as int].title,
            ps[#[trigger] r[j] as int].title,
        ) by {
            if j == s.len() {
                if i < s.len() - 1 {
                    lemma_text_le_trans(title(s[i]), title(s.last()), title(x));
                }
            }
        }
    } else {
        let d = s.drop_last();
        let last = s.last();
        assert(sorted_by_title(ps, d));
        lemma_insert_by_title(ps, d, x);
        let r0 = insert_by_title(ps, d, x);
        let r = r0.push(last);
        lemma_text_le_total(title(last), title(x));
        assert forall|e: usize| r0.contains(e) implies text_le(title(e), title(last)) by {
            vstd::seq_lib::to_multiset_contains(r0, e);
            if e != x {
                vstd::seq_lib::to_multiset_contains(d, e);
                let i = choose|i: int| 0 <= i < d.len() && d[i] == e;
                assert(s[i] == e);
            }
        }
        assert forall|i: int, j: int| 0 <= i < j < r.len() implies text_le(
            ps[#[trigger] r[i] as int].title,
            ps[#[trigger] r[j] as int].title,
        ) by {
            if j == r0.len() {
                assert(r0.contains(r[i]));
            }
        }
        assert(s =~= d.push(last));
        assert(r.to_multiset() =~= s.to_multiset().insert(x));
    }
}

/// Sorting page indices by title keeps the indices, each as often as it
/// came, and puts them in order of title.
pub proof fn lemma_sort_by_title_sorted(ps: Seq<PageView>, s: Seq<usize>)
    ensures
        sorted_by_title(ps, sort_by_title(ps, s)),
        sort_by_title(ps, s).to_multiset() == s.to_multiset(),
    decreases s.len(),
{
    broadcast use vstd::seq_lib::group_to_multiset_ensures;

    if s.len() > 0 {
        lemma_sort_by_title_sorted(ps, s.drop_last());
        lemma_insert_by_title(ps, sort_by_title(ps, s.drop_last()), s.last());
        assert(s =~= s.drop_last().push(s.last()));
    }
}

proof fn lemma_insert_at(ps: Seq<PageView>, s: Seq<usize>, x: usize, j: int)
    requires
        0 <= j <= s.len(),
        j == 0 || text_le(ps[s[j - 1] as int].title, ps[x as int].title),
        forall|k: int| j <= k < s.len() ==> !text_le(ps[#[trigger] s[k] as int].title, ps[x as int].title),
    ensures
        insert_by_title(ps, s, x) == s.insert(j, x),
    decreases s.len(),
{
    if s.len() == 0 {
        assert(s.insert(j, x) =~= seq![x]);
    } else if j == s.len() {
        assert(s.insert(j, x) =~= s.push(x));
    } else {
        assert(!text_le(ps[s[s.len() - 1] as int].title, ps[x as int].title));
        lemma_insert_at(ps, s.drop_last(), x, j);
        assert(s.drop_last().insert(j, x).push(s.last()) =~= s.insert(j, x));
    }
}

fn sort_by_title_exec(pages: &Vec<Page>, idxs: &Vec<usize>) -> (r: Vec<usize>)
    requires
        forall|k: int| 0 <= k < idxs@.len() ==> #[trigger] idxs@[k] < pages@.len(),
    ensures
        r@ == sort_by_title(page_views(pages@), idxs@),
        forall|k: int| 0 <= k < r@.len() ==> #[trigger] r@[k] < pages@.len(),
{
    let ghost ps = page_views(pages@);
    let mut out: Vec<usize> = Vec::new();
    let mut i: usize = 0;
    while i < idxs.len()
        invariant
            i <= idxs.len(),
            ps == page_views(pages@),
            forall|k: int| 0 <= k < idxs@.len() ==> #[trigger] idxs@[k] < pages@.len(),
            forall|k: int| 0 <= k < out@.len() ==> #[trigger] out@[k] < pages@.len(),
            out@ == sort_by_title(ps, idxs@.take(i as int)),
        decreases idxs.len() - i,
    {
        let x = idxs[i];
        let xt = chars_of(pages[x].title.as_str());
        let mut j = out.len();
        while j > 0 && !text_le_exec(&chars_of(pages[out[j - 1]].title.as_str()), &xt)
            invariant
                j <= out.len(),
                x < pages@.len(),
                xt@ == ps[x as int].title,
                ps == page_views(pages@),
                forall|k: int| 0 <= k < out@.len() ==> #[trigger] out@[k] < pages@.len(),
                forall|k: int| j <= k < out@.len() ==> !text_le(ps[#[trigger] out@[k] as int].title, ps[x as int].title),
            decreases j,
        {
            j = j - 1;
        }
        proof {
            lemma_insert_at(ps, out@, x, j as int);
            assert(idxs@.take(i + 1).drop_last() =~= idxs@.take(i as int));
        }
        let ghost before = out@;
        out.insert(j, x);
        proof {
            before.insert_ensures(j as int, x);
            assert forall|k: int| 0 <= k < out@.len() implies #[trigger] out@[k] < pages@.len() by {
                if k > j as int {
                    assert(out@[k] == before[k - 1]);
                }
            }
        }
        i = i + 1;
    }
    assert(idxs@.take(idxs@.len() as int) =~= idxs@);
    out
}


/// The heading of a page: its title in title case.
pub open spec fn heading_html(title: Seq<char>) -> Seq<char> {
    "<h1 class=\"text-2xl font-bold font-sans mb-6\">"@ + html_text(title_case_spec(title))
        + "</h1>"@
}

/// The opening of a collapsible section with its label.
pub open spec fn hidden_open_html(label: Seq<char>) -> Seq<char> {
    "<details class=\"my-4 border border-gray-200 rounded\">\n  <summary class=\"cursor-pointer select-none px-4 py-2 text-sm text-gray-500 hover:text-gray-700 hover:bg-gray-50\">"@
        + html_text(label) + " ▸</summary>\n  <div class=\"px-4 pb-3\">"@
}

/// The close of a collapsible section.
pub open spec fn hidden_close_html() -> Seq<char> {
    "  </div>\n</details>"@
}

/// Prose as HTML: declaration names and label references linked, hard
/// breaks inserted, the whole escaped, under its anchor if it has one.
pub open spec fn prose_html(t: Seq<char>, anchor: Option<Seq<char>>, xv: XrefView) -> Seq<char> {
    let linked = label_refs_from(xrefs_from(t, 0, xv.xref), 0, xv.label_xref);
    (match anchor {
        Some(a) => "<a id=\""@ + a + "\"></a>\n"@,
        None => Seq::empty(),
    }) + "<div class=\"prose prose-gray prose-sm max-w-none my-3\">"@ + html_text(
        format_prose_spec(linked),
    ) + "</div>"@
}

/// The anchors of the blocks of the page of module `m`.
pub open spec fn page_anchors(xv: XrefView, m: Seq<char>) -> Map<usize, Seq<char>> {
    if xv.anchors.contains_key(m) {
        xv.anchors[m]
    } else {
        Map::empty()
    }
}

/// The anchor of block `i`, if it has one.
pub open spec fn block_anchor(anchors: Map<usize, Seq<char>>, i: int) -> Option<Seq<char>> {
    if anchors.contains_key(i as usize) {
        Some(anchors[i as usize])
    } else {
        None
    }
}

/// Block `i` of a page as HTML.
pub open spec fn block_html(p: PageView, i: int, mods: Set<Seq<char>>, xv: XrefView) -> Seq<char> {
    match p.blocks[i] {
        BlockView::HiddenOpen(l) => hidden_open_html(l),
        BlockView::HiddenClose => hidden_close_html(),
        BlockView::Prose(t) => prose_html(t, block_anchor(page_anchors(xv, p.module), i), xv),
        BlockView::Code(t) => code_block_html(t, mods, xv.xref),
    }
}

/// The heading and the blocks of a page, each as HTML.
pub open spec fn content_parts(p: PageView, mods: Set<Seq<char>>, xv: XrefView) -> Seq<Seq<char>> {
    seq![heading_html(p.title)] + Seq::new(p.blocks.len(), |i: int| block_html(p, i, mods, xv))
}

/// The pages that import module `m`.
pub open spec fn back_indices(bl: Map<Seq<char>, Seq<usize>>, m: Seq<char>) -> Seq<usize> {
    if bl.contains_key(m) {
        bl[m]
    } else {
        Seq::empty()
    }
}

/// The link to a page that imports this one.
pub open spec fn backlink_item(p: PageView) -> Seq<char> {
    "<li><a href=\""@ + page_file_spec(p.module) + "\" class=\"text-blue-600 hover:underline\">"@
        + html_text(title_case_spec(p.title)) + "</a></li>"@
}

/// The links to the pages `s`, in order.
pub open spec fn backlink_items(ps: Seq<PageView>, s: Seq<usize>) -> Seq<char>
    decreases s.len(),
{
    if s.len() == 0 {
        Seq::empty()
    } else {
        backlink_items(ps, s.drop_last()) + backlink_item(ps[s.last() as int])
    }
}

/// The "Referenced by" section: the importing pages by title; empty when
/// no page imports this one.
pub open spec fn backlink_section(ps: Seq<PageView>, idxs: Seq<usize>) -> Seq<char> {
    if idxs.len() == 0 {
        Seq::empty()
    } else {
        "<div class=\"mt-12 border-t border-gray-200 pt-4 font-sans\">\n  <p class=\"text-xs text-gray-400 uppercase tracking-wider mb-2\">Referenced by</p>\n  <ul class=\"space-y-1 text-sm\">"@
            + backlink_items(ps, sort_by_title(ps, idxs)) + "</ul>\n</div>\n"@
    }
}

/// The collapsible raw source of a page.
pub open spec fn raw_section(raw: Seq<char>) -> Seq<char> {
    "<details class=\"mt-6 border-t border-gray-200 pt-4 font-sans\">\n  <summary class=\"cursor-pointer text-gray-400 text-sm\">Raw source</summary>\n  <pre class=\"bg-gray-50 px-4 py-3 overflow-x-auto text-xs leading-relaxed mt-3 rounded\"><code>"@
        + html_text(raw) + "</code></pre>\n</details>"@
}

/// The main content of a page.
pub open spec fn page_main(
    p: PageView,
    ps: Seq<PageView>,
    mods: Set<Seq<char>>,
    xv: XrefView,
    bl: Map<Seq<char>, Seq<usize>>,
) -> Seq<char> {
    join(content_parts(p, mods, xv), seq!['\n']) + seq!['\n'] + backlink_section(
        ps,
        back_indices(bl, p.module),
    ) + raw_section(p.raw)
}

/// A whole page, with the sidebar for groups `es`.
pub open spec fn page_html(
    p: PageView,
    ps: Seq<PageView>,
    mods: Set<Seq<char>>,
    xv: XrefView,
    bl: Map<Seq<char>, Seq<usize>>,
    es: Seq<(Seq<char>, Seq<usize>)>,
) -> Seq<char> {
    layout_html(
        html_text(title_case_spec(p.title)),
        sidebar_html(ps, es, Some(p.module)),
        page_main(p, ps, mods, xv, bl),
        "<script>"@ + PAGE_SCRIPT@ + "</script>"@,
    )
}

fn block_html_exec(
    page: &Page,
    i: usize,
    anchors: Option<&AnchorMap>,
    ld_mods: &Vec<String>,
    xref_data: &XrefData,
) -> (r: Vec<char>)
    requires
        i < page.blocks@.len(),
        match anchors {
            Some(a) => xref_data@.anchors.contains_key(page.module@) && a@ == xref_data@.anchors[page.module@],
            None => !xref_data@.anchors.contains_key(page.module@),
        },
    ensures
        r@ == block_html(page@, i as int, module_set(ld_mods@), xref_data@),
{
    assert(page@.blocks[i as int] == page.blocks@[i as int]@);
    match &page.blocks[i] {
        Block::HiddenOpen(label) => {
            let mut out: Vec<char> = Vec::new();
            extend_str(
                &mut out,
                "<details class=\"my-4 border border-gray-200 rounded\">\n  <summary class=\"cursor-pointer select-none px-4 py-2 text-sm text-gray-500 hover:text-gray-700 hover:bg-gray-50\">",
            );
            let le = escape_html(label.as_str());
            extend_str(&mut out, le.as_str());
            extend_str(&mut out, " ▸</summary>\n  <div class=\"px-4 pb-3\">");
            out
        },
        Block::HiddenClose => {
            let mut out: Vec<char> = Vec::new();
            extend_str(&mut out, "  </div>\n</details>");
            assert(out@ =~= hidden_close_html());
            out
        },
        Block::Prose(text) => {
            let t = chars_of(text.as_str());
            let l1 = link_xrefs_chars(&t, &xref_data.xref);
            let l2 = link_label_refs_chars(&l1, &xref_data.label_xref);
            let f = format_prose_chars(&l2);
            let e = escape_chars(&f);
            let mut out: Vec<char> = Vec::new();
            let aid = match anchors {
                Some(a) => a.get(i),
                None => None,
            };
            match aid {
                Some(a) => {
                    extend_str(&mut out, "<a id=\"");
                    extend_str(&mut out, a.as_str());
                    extend_str(&mut out, "\"></a>\n");
                },
                None => {},
            }
            let ghost pre = out@;
            proof {
                let anc = block_anchor(page_anchors(xref_data@, page@.module), i as int);
                assert(pre == match anc {
                    Some(a) => "<a id=\""@ + a + "\"></a>\n"@,
                    None => Seq::<char>::empty(),
                });
            }
            extend_str(&mut out, "<div class=\"prose prose-gray prose-sm max-w-none my-3\">");
            extend_chars(&mut out, &e);
            extend_str(&mut out, "</div>");
            out
        },
        Block::Code(text) => render_code_block(text, ld_mods, &xref_data.xref),
    }
}

/// Render a single page to an HTML string.
pub fn render_page(
    page: &Page,
    pages: &Vec<Page>,
    ld_mods: &Vec<String>,
    xref_data: &XrefData,
    backlinks: &StrMap<Vec<usize>>,
) -> (r: String)
    requires
        forall|k: int|
            backlinks@.contains_key(page@.module) && 0 <= k < backlinks@[page@.module].len() ==> (
            #[trigger] backlinks@[page@.module][k]) < pages@.len(),
    ensures
        r@ == page_html(
            page@,
            page_views(pages@),
            module_set(ld_mods@),
            xref_data@,
            backlinks@,
            page_groups(page_views(pages@)),
        ),
{
    let ghost ps = page_views(pages@);
    let ghost mods = module_set(ld_mods@);
    let ghost xv = xref_data@;
    let ghost p = page@;
    let title = title_case(page.title.as_str());
    let title_esc = escape_html(title.as_str());
    let anchors = xref_data.anchors.get(&page.module);
    let mut parts: Vec<Vec<char>> = Vec::new();
    let mut h: Vec<char> = Vec::new();
    extend_str(&mut h, "<h1 class=\"text-2xl font-bold font-sans mb-6\">");
    extend_str(&mut h, title_esc.as_str());
    extend_str(&mut h, "</h1>");
    push_chars_line(&mut parts, h);
    let ghost blocks = Seq::new(p.blocks.len(), |i: int| block_html(p, i, mods, xv));
    assert(views(parts@) =~= seq![heading_html(p.title)] + blocks.take(0));
    let mut i: usize = 0;
    while i < page.blocks.len()
        invariant
            i <= page.blocks@.len() == p.blocks.len() == blocks.len(),
            p == page@,
            mods == module_set(ld_mods@),
            xv == xref_data@,
            blocks == Seq::new(p.blocks.len(), |i: int| block_html(p, i, mods, xv)),
            match anchors {
                Some(a) => xv.anchors.contains_key(p.module) && a@ == xv.anchors[p.module],
                None => !xv.anchors.contains_key(p.module),
            },
            views(parts@) == seq![heading_html(p.title)] + blocks.take(i as int),
        decreases page.blocks@.len() - i,
    {
        let b = block_html_exec(page, i, anchors, ld_mods, xref_data);
        push_chars_line(&mut parts, b);
        assert(blocks.take(i + 1) =~= blocks.take(i as int).push(blocks[i as int]));
        assert(views(parts@) =~= seq![heading_html(p.title)] + blocks.take(i + 1));
        i = i + 1;
    }
    assert(blocks.take(p.blocks.len() as int) =~= blocks);
    assert(views(parts@) =~= content_parts(p, mods, xv));
    let nl = vec!['\n'];
    assert(nl@ =~= seq!['\n']);
    let mut main = join_exec(&parts, &nl);
    main.push('\n');
    let ghost content = main@;
    match backlinks.get(&page.module) {
        Some(back) => {
            if back.len() > 0 {
                assert forall|k: int| 0 <= k < back@.len() implies #[trigger] back@[k] < pages@.len() by {
                    assert(backlinks@[p.module][k] < pages@.len());
                }
                let sorted = sort_by_title_exec(pages, back);
                extend_str(
                    &mut main,
                    "<div class=\"mt-12 border-t border-gray-200 pt-4 font-sans\">\n  <p class=\"text-xs text-gray-400 uppercase tracking-wider mb-2\">Referenced by</p>\n  <ul class=\"space-y-1 text-sm\">",
                );
                let ghost mid = main@;
                let mut k: usize = 0;
                while k < sorted.len()
                    invariant
                        k <= sorted@.len(),
                        ps == page_views(pages@),
                        forall|j: int| 0 <= j < sorted@.len() ==> #[trigger] sorted@[j] < pages@.len(),
                        main@ == mid + backlink_items(ps, sorted@.take(k as int)),
                    decreases sorted@.len() - k,
                {
                    let q = &pages[sorted[k]];
                    let href = page_file(q.module.as_str());
                    let t = title_case(q.title.as_str());
                    let te = escape_html(t.as_str());
                    let ghost before = main@;
                    extend_str(&mut main, "<li><a href=\"");
                    extend_str(&mut main, href.as_str());
                    extend_str(&mut main, "\" class=\"text-blue-600 hover:underline\">");
                    extend_str(&mut main, te.as_str());
                    extend_str(&mut main, "</a></li>");
                    proof {
                        lemma_page_view_at(pages, sorted@[k as int] as int);
                        assert(sorted@.take(k + 1).drop_last() =~= sorted@.take(k as int));
                        assert(main@ =~= before + backlink_item(ps[sorted@[k as int] as int]));
                    }
                    k = k + 1;
                }
                assert(sorted@.take(sorted@.len() as int) =~= sorted@);
                extend_str(&mut main, "</ul>\n</div>\n");
            }
        },
        None => {},
    }
    assert(main@ =~= content + backlink_section(ps, back_indices(backlinks@, p.module)));
    extend_str(
        &mut main,
        "<details class=\"mt-6 border-t border-gray-200 pt-4 font-sans\">\n  <summary class=\"cursor-pointer text-gray-400 text-sm\">Raw source</summary>\n  <pre class=\"bg-gray-50 px-4 py-3 overflow-x-auto text-xs leading-relaxed mt-3 rounded\"><code>",
    );
    let raw_esc = escape_html(page.raw.as_str());
    extend_str(&mut main, raw_esc.as_str());
    extend_str(&mut main, "</code></pre>\n</details>");
    assert(main@ =~= page_main(p, ps, mods, xv, backlinks@));
    let sidebar = render_sidebar(pages, Some(page.module.as_str()));
    let mut extra: Vec<char> = Vec::new();
    extend_str(&mut extra, "<script>");
    extend_str(&mut extra, PAGE_SCRIPT);
    extend_str(&mut extra, "</script>");
    let main_s = string_of(&main);
    let extra_s = string_of(&extra);
    page_layout(title_esc.as_str(), sidebar.as_str(), main_s.as_str(), extra_s.as_str())
}

} // verus!
