//! The verdict on a page from the output of `lake build`: a page is
//! published only when its module builds with no warning about its file.

use vstd::prelude::*;
use crate::outside::{strip_path_prefix, stripped_path};
use crate::parse::string_views;
use crate::text::{chars_of, contains, contains_exec, lines, lines_of, string_of, trim, trim_vec};

verus! {

broadcast use vstd::string::group_string_axioms;

/// A path relative to the project root, or the path itself when it does not
/// lie under the root.
pub open spec fn relative_to(path: Seq<char>, root: Seq<char>) -> Seq<char> {
    match stripped_path(path, root) {
        Some(r) => r,
        None => path,
    }
}

/// The path relative to the project root (see [`relative_to`]).
pub fn relative_path(path: &str, root: &str) -> (r: String)
    ensures
        r@ == relative_to(path@, root@),
{
    match strip_path_prefix(path, root) {
        Some(r) => r,
        None => String::from_str(path),
    }
}

/// The lines that hold both `key` and `rel`, trimmed.
pub open spec fn matching_lines(ls: Seq<Seq<char>>, key: Seq<char>, rel: Seq<char>) -> Seq<
    Seq<char>,
>
    decreases ls.len(),
{
    if ls.len() == 0 {
        Seq::empty()
    } else {
        matching_lines(ls.drop_last(), key, rel) + if contains(ls.last(), key) && contains(
            ls.last(),
            rel,
        ) {
            seq![trim(ls.last())]
        } else {
            Seq::empty()
        }
    }
}

/// What `lake build` said of a page.
pub enum Verdict {
    /// It built with no warning about the page's file.
    Pass,
    /// The build failed; the error lines about the page's file.
    BuildErrors(Vec<String>),
    /// The build succeeded with warnings about the page's file.
    Warnings(Vec<String>),
}

fn matching_lines_exec(ls: &Vec<Vec<char>>, key: &str, rel: &Vec<char>) -> (r: Vec<String>)
    ensures
        string_views(r@) == matching_lines(crate::text::views(ls@), key@, rel@),
{
    let ghost lv = crate::text::views(ls@);
    let kv = chars_of(key);
    let mut r: Vec<String> = Vec::new();
    let mut i: usize = 0;
    assert(lv.take(0) =~= Seq::<Seq<char>>::empty());
    while i < ls.len()
        invariant
            i <= ls.len(),
            lv == crate::text::views(ls@),
            kv@ == key@,
            string_views(r@) == matching_lines(lv.take(i as int), key@, rel@),
        decreases ls.len() - i,
    {
        assert(lv.take(i + 1).drop_last() =~= lv.take(i as int));
        assert(lv.take(i + 1).last() == ls@[i as int]@);
        let ghost before = r@;
        if contains_exec(&ls[i], &kv) && contains_exec(&ls[i], rel) {
            let t = trim_vec(&ls[i]);
            r.push(string_of(&t));
            assert(string_views(r@) =~= string_views(before).push(t@));
        } else {
            assert(string_views(r@) =~= string_views(before) + Seq::<Seq<char>>::empty());
        }
        i = i + 1;
    }
    assert(lv.take(ls@.len() as int) =~= lv);
    r
}

/// The verdict on the page whose file is `rel` (relative to the project
/// root), given whether `lake build` succeeded and what it printed.
pub fn lake_verdict(success: bool, output: &str, rel: &str) -> (r: Verdict)
    ensures
        ({
            let warnings = matching_lines(lines(output@), "warning:"@, rel@);
            let errors = matching_lines(lines(output@), "error:"@, rel@);
            match r {
                Verdict::Pass => success && warnings.len() == 0,
                Verdict::BuildErrors(es) => !success && string_views(es@) == errors,
                Verdict::Warnings(ws) => success && warnings.len() > 0 && string_views(ws@)
                    == warnings,
            }
        }),
{
    let ov = chars_of(output);
    let ls = lines_of(&ov);
    let rv = chars_of(rel);
    let warnings = matching_lines_exec(&ls, "warning:", &rv);
    if success && warnings.len() == 0 {
        Verdict::Pass
    } else if !success {
        Verdict::BuildErrors(matching_lines_exec(&ls, "error:", &rv))
    } else {
        Verdict::Warnings(warnings)
    }
}

} // verus!
