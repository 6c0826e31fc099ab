//! The whole site from the pages that passed validation: every page's HTML
//! file and the index.

use vstd::prelude::*;
use crate::graph::page_groups;
use crate::markup::module_set;
use crate::text::{join_path, joined_path};
use crate::parse::{opt_view, page_file, page_file_spec, page_views, Page, PageView};
use crate::render::{index_html, page_html, render_index, render_page};
use crate::xref::{
    backlinks_spec, compute_backlinks, counts_fit, is_module, process_tags_and_xref, tags_fit,
    tags_spec,
};

verus! {

broadcast use vstd::string::group_string_axioms;

/// Where the site goes: the given output directory, or
/// `leandown_site/output` under the project root.
pub open spec fn output_dir(root: Seq<char>, output: Option<Seq<char>>) -> Seq<char> {
    match output {
        Some(o) => o,
        None => joined_path(joined_path(root, "leandown_site"@), "output"@),
    }
}

/// The output directory: `output` where one is given, else
/// `<root>/leandown_site/output`.
pub fn resolve_output(root: &str, output: Option<String>) -> (r: String)
    ensures
        r@ == output_dir(root@, opt_view(output)),
{
    match output {
        Some(o) => o,
        None => {
            let site = join_path(root, "leandown_site");
            join_path(site.as_str(), "output")
        },
    }
}

/// One rendered page: its module, the name of its HTML file, and the HTML.
pub struct OutputPage {
    pub module: String,
    pub file: String,
    pub html: String,
}

/// The rendered site.
pub struct Site {
    /// One entry per page, in the order of the pages.
    pub pages: Vec<OutputPage>,
    /// The HTML of `index.html`.
    pub index: String,
}

/// The modules of the pages.
pub open spec fn page_modules(ps: Seq<PageView>) -> Set<Seq<char>> {
    Set::new(|m: Seq<char>| is_module(ps, m))
}

fn module_list(pages: &Vec<Page>) -> (r: Vec<String>)
    ensures
        module_set(r@) == page_modules(page_views(pages@)),
{
    let ghost ps = page_views(pages@);
    let mut r: Vec<String> = Vec::new();
    let mut k: usize = 0;
    while k < pages.len()
        invariant
            k <= pages.len(),
            ps == page_views(pages@),
            r@.len() == k,
            forall|j: int| 0 <= j < k ==> (#[trigger] r@[j])@ == ps[j].module,
        decreases pages.len() - k,
    {
        r.push(pages[k].module.clone());
        k = k + 1;
    }
    assert forall|m: Seq<char>| #[trigger] module_set(r@).contains(m) <==> page_modules(ps).contains(m) by {
        if module_set(r@).contains(m) {
            let j = choose|j: int| 0 <= j < r@.len() && (#[trigger] r@[j])@ == m;
            assert(ps[j].module == m);
        }
        if page_modules(ps).contains(m) {
            let j = choose|j: int| 0 <= j < ps.len() && (#[trigger] ps[j]).module == m;
            assert(r@[j]@ == m);
        }
    }
    assert(module_set(r@) =~= page_modules(ps));
    r
}

/// Renders the site: numbers the tags of the pages and links their
/// cross-references, then renders each page and the index.
pub fn render_site(pages: Vec<Page>) -> (r: Site)
    requires
        counts_fit(page_views(pages@)),
    ensures
        ({
            let (xv, ps) = tags_spec(page_views(pages@));
            &&& r.pages@.len() == ps.len()
            &&& forall|k: int|
                0 <= k < ps.len() ==> {
                    &&& (#[trigger] r.pages@[k]).module@ == ps[k].module
                    &&& r.pages@[k].file@ == page_file_spec(ps[k].module)
                    &&& r.pages@[k].html@ == page_html(
                        ps[k],
                        ps,
                        page_modules(ps),
                        xv,
                        backlinks_spec(ps),
                        page_groups(ps),
                    )
                }
            &&& r.index@ == index_html(ps, page_groups(ps))
        }),
{
    let mut pages = pages;
    let xref_data = process_tags_and_xref(&mut pages);
    let ghost ps = page_views(pages@);
    let ghost xv = xref_data@;
    let backlinks = compute_backlinks(&pages);
    let ld_mods = module_list(&pages);
    let mut out: Vec<OutputPage> = Vec::new();
    let mut k: usize = 0;
    while k < pages.len()
        invariant
            k <= pages.len(),
            ps == page_views(pages@),
            xv == xref_data@,
            backlinks@ == backlinks_spec(ps),
            crate::xref::backlinks_in_range(backlinks@, pages@.len() as int),
            module_set(ld_mods@) == page_modules(ps),
            out@.len() == k,
            forall|j: int|
                0 <= j < k ==> {
                    &&& (#[trigger] out@[j]).module@ == ps[j].module
                    &&& out@[j].file@ == page_file_spec(ps[j].module)
                    &&& out@[j].html@ == page_html(
                        ps[j],
                        ps,
                        page_modules(ps),
                        xv,
                        backlinks_spec(ps),
                        page_groups(ps),
                    )
                },
        decreases pages.len() - k,
    {
        let html = render_page(&pages[k], &pages, &ld_mods, &xref_data, &backlinks);
        assert(pages@[k as int]@ == ps[k as int]);
        let module = pages[k].module.clone();
        let file = page_file(pages[k].module.as_str());
        out.push(OutputPage { module, file, html });
        k = k + 1;
    }
    let index = render_index(&pages);
    Site { pages: out, index }
}

/// Renders the site (see [`render_site`]) when every page's tags can be
/// numbered; `None` when some page has more tags of one kind than a `u32`
/// counter holds.
pub fn try_render_site(pages: Vec<Page>) -> (r: Option<Site>)
    ensures
        r is None <==> !counts_fit(page_views(pages@)),
        match r {
            Some(site) => {
                let (xv, ps) = tags_spec(page_views(pages@));
                &&& site.pages@.len() == ps.len()
                &&& forall|k: int|
                    0 <= k < ps.len() ==> {
                        &&& (#[trigger] site.pages@[k]).module@ == ps[k].module
                        &&& site.pages@[k].file@ == page_file_spec(ps[k].module)
                        &&& site.pages@[k].html@ == page_html(
                            ps[k],
                            ps,
                            page_modules(ps),
                            xv,
                            backlinks_spec(ps),
                            page_groups(ps),
                        )
                    }
                &&& site.index@ == index_html(ps, page_groups(ps))
            },
            None => true,
        },
{
    if tags_fit(&pages) {
        Some(render_site(pages))
    } else {
        None
    }
}

} // verus!
