//! Tags, cross-references and the import graph between pages.
//!
//! A prose placeholder `{{kind}}` becomes a numbered label such as
//! `Theorem 2` (numbered per page and per kind); the label gets an anchor, and
//! the first declaration in the next code block is registered as a
//! cross-reference target.

use vstd::prelude::*;
use crate::maps::{AnchorMap, StrMap};
use crate::outside::{
    ascii_lower_char, ascii_upper_char, ascii_word, is_ascii_char, is_ascii_text, is_word_char,
    lower_text, to_lowercase, to_uppercase, upper_text, word_char,
};
use crate::parse::{page_file_spec, Block, BlockView, Page, PageView};
use crate::text::{
    chars_of, extend_chars, is_white_space, is_ws, replace_char, slice_chars,
    skip_word, skip_ws, starts_with, string_of, trim_start, word_len, decimal, digit,
};

verus! {

broadcast use vstd::string::group_string_axioms;

/// Cross-reference entry for a tagged declaration.
#[derive(Clone, Debug)]
pub struct XrefEntry {
    /// e.g. `Foo.html#theorem-1`
    pub href: String,
    pub page_title: String,
    /// e.g. `Theorem 1`
    pub label: String,
}

/// The content of an [`XrefEntry`].
pub struct XrefEntryView {
    pub href: Seq<char>,
    pub page_title: Seq<char>,
    pub label: Seq<char>,
}

impl View for XrefEntry {
    type V = XrefEntryView;

    open spec fn view(&self) -> XrefEntryView {
        XrefEntryView { href: self.href@, page_title: self.page_title@, label: self.label@ }
    }
}

/// The cross-reference tables built from all pages.
pub struct XrefData {
    /// declaration name → entry
    pub xref: StrMap<XrefEntry>,
    /// label (`Theorem 1`) → link (`Foo.html#theorem-1`)
    pub label_xref: StrMap<String>,
    /// module → block index → anchor id
    pub anchors: StrMap<AnchorMap>,
}

/// The content of an [`XrefData`].
pub struct XrefView {
    pub xref: Map<Seq<char>, XrefEntryView>,
    pub label_xref: Map<Seq<char>, Seq<char>>,
    pub anchors: Map<Seq<char>, Map<usize, Seq<char>>>,
}

impl View for XrefData {
    type V = XrefView;

    open spec fn view(&self) -> XrefView {
        XrefView { xref: self.xref@, label_xref: self.label_xref@, anchors: self.anchors@ }
    }
}

// ---------------------------------------------------------------------------
// Declaration names
// ---------------------------------------------------------------------------

/// When `r` starts with the word `w` and then white space: what follows the
/// white space.
pub open spec fn after_word(r: Seq<char>, w: Seq<char>) -> Option<Seq<char>> {
    if starts_with(r, w) && r.len() > w.len() && is_ws(r[w.len() as int]) {
        Some(trim_start(r.skip(w.len() as int)))
    } else {
        None
    }
}

/// The name declared by text starting `[private] [noncomputable]
/// (theorem|lemma|def) <name>`, each word followed by white space.
pub open spec fn decl_at(r: Seq<char>) -> Option<Seq<char>> {
    let r1 = match after_word(r, "private"@) {
        Some(x) => x,
        None => r,
    };
    let r2 = match after_word(r1, "noncomputable"@) {
        Some(x) => x,
        None => r1,
    };
    let r3 = match after_word(r2, "theorem"@) {
        Some(x) => Some(x),
        None => match after_word(r2, "lemma"@) {
            Some(x) => Some(x),
            None => after_word(r2, "def"@),
        },
    };
    match r3 {
        Some(x) => if x.len() > 0 {
            Some(x.take(word_len(x) as int))
        } else {
            None
        },
        None => None,
    }
}

/// The first declaration from position `i` on that starts a line's text
/// (only white space, newlines included, between a line start and it);
/// `at_start` says whether such a stretch leads up to `i`.
pub open spec fn decl_search(t: Seq<char>, i: int, at_start: bool) -> Option<Seq<char>>
    decreases t.len() - i,
{
    if i < 0 || i >= t.len() {
        None
    } else if is_ws(t[i]) {
        decl_search(t, i + 1, at_start || t[i] == '\n')
    } else if at_start && decl_at(t.skip(i)) is Some {
        decl_at(t.skip(i))
    } else {
        decl_search(t, i + 1, false)
    }
}

/// `s` without its trailing colons.
pub open spec fn trim_colons(s: Seq<char>) -> Seq<char>
    decreases s.len(),
{
    if s.len() > 0 && s.last() == ':' {
        trim_colons(s.drop_last())
    } else {
        s
    }
}

/// The first theorem, lemma or definition name in a code block, without
/// trailing colons.
pub open spec fn decl_name(code: Seq<char>) -> Option<Seq<char>> {
    match decl_search(code, 0, true) {
        Some(n) => Some(trim_colons(n)),
        None => None,
    }
}

/// If `t` has the word `w` at `pos` followed by white space: the position
/// after that white space.
fn after_word_exec(t: &Vec<char>, pos: usize, w: &str) -> (r: Option<usize>)
    requires
        pos <= t.len(),
    ensures
        match r {
            Some(q) => pos <= q <= t.len() && after_word(t@.skip(pos as int), w@) == Some(
                t@.skip(q as int),
            ),
            None => after_word(t@.skip(pos as int), w@) is None,
        },
{
    let wv = chars_of(w);
    if !crate::text::occurs_at_exec(t, &wv, pos) {
        assert(!starts_with(t@.skip(pos as int), w@)) by {
            if starts_with(t@.skip(pos as int), w@) {
                assert(t@.subrange(pos as int, pos + wv@.len()) =~= t@.skip(pos as int).take(
                    wv@.len() as int,
                ));
            }
        }
        return None;
    }
    assert(t@.subrange(pos as int, pos + wv@.len()) =~= t@.skip(pos as int).take(
        wv@.len() as int,
    ));
    let q = pos + wv.len();
    if q < t.len() && is_white_space(t[q]) {
        let e = skip_ws(t, q);
        assert(t@.skip(pos as int).skip(wv@.len() as int) =~= t@.skip(q as int));
        Some(e)
    } else {
        None
    }
}

fn decl_at_exec(t: &Vec<char>, p: usize) -> (r: Option<Vec<char>>)
    requires
        p <= t.len(),
    ensures
        match r {
            Some(n) => decl_at(t@.skip(p as int)) == Some(n@),
            None => decl_at(t@.skip(p as int)) is None,
        },
{
    let p1 = match after_word_exec(t, p, "private") {
        Some(q) => q,
        None => p,
    };
    let p2 = match after_word_exec(t, p1, "noncomputable") {
        Some(q) => q,
        None => p1,
    };
    let p3 = match after_word_exec(t, p2, "theorem") {
        Some(q) => Some(q),
        None => match after_word_exec(t, p2, "lemma") {
            Some(q) => Some(q),
            None => after_word_exec(t, p2, "def"),
        },
    };
    match p3 {
        Some(q) => {
            if q < t.len() {
                let e = skip_word(t, q);
                let n = slice_chars(t, q, e);
                assert(t@.skip(q as int).take(word_len(t@.skip(q as int)) as int) =~= n@);
                Some(n)
            } else {
                None
            }
        },
        None => None,
    }
}

fn trim_colons_exec(v: &Vec<char>) -> (r: Vec<char>)
    ensures
        r@ == trim_colons(v@),
{
    let mut j = v.len();
    assert(v@.take(j as int) =~= v@);
    while j > 0 && v[j - 1] == ':'
        invariant
            j <= v.len(),
            trim_colons(v@) == trim_colons(v@.take(j as int)),
        decreases j,
    {
        assert(v@.take(j as int).drop_last() =~= v@.take(j - 1));
        j = j - 1;
    }
    assert(v@.take(j as int) =~= v@.subrange(0, j as int));
    slice_chars(v, 0, j)
}

fn decl_name_chars(t: &Vec<char>) -> (r: Option<Vec<char>>)
    ensures
        match r {
            Some(n) => decl_name(t@) == Some(n@),
            None => decl_name(t@) is None,
        },
{
    let mut at_start = true;
    let mut i: usize = 0;
    while i < t.len()
        invariant
            i <= t.len(),
            decl_search(t@, 0, true) == decl_search(t@, i as int, at_start),
        decreases t.len() - i,
    {
        let c = t[i];
        if is_white_space(c) {
            at_start = at_start || c == '\n';
        } else {
            if at_start {
                if let Some(n) = decl_at_exec(t, i) {
                    return Some(trim_colons_exec(&n));
                }
            }
            at_start = false;
        }
        i = i + 1;
    }
    None
}

/// Extract the first theorem/lemma/def name from a code block.
pub fn extract_decl_name(code: &str) -> (r: Option<String>)
    ensures
        match r {
            Some(n) => decl_name(code@) == Some(n@),
            None => decl_name(code@) is None,
        },
{
    let t = chars_of(code);
    match decl_name_chars(&t) {
        Some(n) => Some(string_of(&n)),
        None => None,
    }
}

// ---------------------------------------------------------------------------
// Tags and labels
// ---------------------------------------------------------------------------

/// The length of the run of word characters at position `j` of `t`.
pub open spec fn word_run(t: Seq<char>, j: int) -> nat
    decreases t.len() - j,
{
    if 0 <= j < t.len() && word_char(t[j]) {
        1 + word_run(t, j + 1)
    } else {
        0
    }
}

/// A tag `{{name}}` (a non-empty run of word characters between double
/// braces) at position `i`: its end and its name.
pub open spec fn tag_at(t: Seq<char>, i: int) -> Option<(int, Seq<char>)> {
    if 0 <= i && i + 1 < t.len() && t[i] == '{' && t[i + 1] == '{' {
        let k = word_run(t, i + 2);
        let e = i + 2 + k;
        if k >= 1 && e + 1 < t.len() && t[e] == '}' && t[e + 1] == '}' {
            Some((e + 2, t.subrange(i + 2, e)))
        } else {
            None
        }
    } else {
        None
    }
}

/// The tags of `t` from position `i` on, leftmost first and without
/// overlap: (start, end, name).
pub open spec fn tags_from(t: Seq<char>, i: int) -> Seq<(int, int, Seq<char>)>
    decreases t.len() - i,
{
    if i < 0 || i >= t.len() {
        Seq::empty()
    } else {
        match tag_at(t, i) {
            Some((e, n)) => seq![(i, e, n)] + tags_from(t, e),
            None => tags_from(t, i + 1),
        }
    }
}

/// `s` with its first character in upper case.
pub open spec fn capitalize_spec(s: Seq<char>) -> Seq<char> {
    if s.len() == 0 {
        Seq::empty()
    } else {
        upper_text(s[0]) + s.skip(1)
    }
}

/// The anchor id of a label: lower case, with spaces turned into dashes.
pub open spec fn anchor_id_spec(label: Seq<char>) -> Seq<char> {
    replace_char(lower_text(label), ' ', '-')
}

/// The label of the `n`-th tag of kind `tag` on a page: `Theorem 2`.
pub open spec fn tag_label(tag: Seq<char>, n: nat) -> Seq<char> {
    capitalize_spec(tag) + seq![' '] + decimal(n)
}

fn word_run_exec(t: &Vec<char>, j: usize) -> (k: usize)
    requires
        j <= t.len(),
    ensures
        k == word_run(t@, j as int),
        j + k <= t.len(),
{
    let mut e = j;
    while e < t.len() && is_word_char(t[e])
        invariant
            j <= e <= t.len(),
            word_run(t@, j as int) == (e - j) + word_run(t@, e as int),
        decreases t.len() - e,
    {
        e = e + 1;
    }
    e - j
}

fn tag_at_exec(t: &Vec<char>, i: usize) -> (r: Option<(usize, Vec<char>)>)
    requires
        i <= t.len(),
    ensures
        match r {
            Some((e, n)) => tag_at(t@, i as int) == Some((e as int, n@)) && i < e <= t.len(),
            None => tag_at(t@, i as int) is None,
        },
{
    if i < t.len() && t.len() - i >= 2 && t[i] == '{' && t[i + 1] == '{' {
        let k = word_run_exec(t, i + 2);
        let e = i + 2 + k;
        if k >= 1 && t.len() - e >= 2 && t[e] == '}' && t[e + 1] == '}' {
            let n = slice_chars(t, i + 2, e);
            Some((e + 2, n))
        } else {
            None
        }
    } else {
        None
    }
}

fn digit_char(d: u32) -> (c: char)
    requires
        d < 10,
    ensures
        c == digit(d as nat),
{
    if d == 0 {
        '0'
    } else if d == 1 {
        '1'
    } else if d == 2 {
        '2'
    } else if d == 3 {
        '3'
    } else if d == 4 {
        '4'
    } else if d == 5 {
        '5'
    } else if d == 6 {
        '6'
    } else if d == 7 {
        '7'
    } else if d == 8 {
        '8'
    } else {
        '9'
    }
}

/// The decimal digits of `n`.
pub fn decimal_exec(n: u32) -> (r: Vec<char>)
    ensures
        r@ == decimal(n as nat),
    decreases n,
{
    if n < 10 {
        let mut r = Vec::new();
        r.push(digit_char(n));
        r
    } else {
        let mut r = decimal_exec(n / 10);
        r.push(digit_char(n % 10));
        r
    }
}

/// The Unicode lowercase form of `v`.
pub(crate) fn lowercase_chars(v: &Vec<char>) -> (r: Vec<char>)
    ensures
        r@ == lower_text(v@),
{
    let s = string_of(v);
    let l = to_lowercase(s.as_str());
    chars_of(l.as_str())
}

pub(crate) fn capitalize_chars(s: &Vec<char>) -> (r: Vec<char>)
    ensures
        r@ == capitalize_spec(s@),
{
    if s.len() == 0 {
        Vec::new()
    } else {
        let u = to_uppercase(s[0]);
        let mut r = chars_of(u.as_str());
        let rest = slice_chars(s, 1, s.len());
        extend_chars(&mut r, &rest);
        assert(rest@ =~= s@.skip(1));
        r
    }
}

fn anchor_id_chars(label: &Vec<char>) -> (r: Vec<char>)
    ensures
        r@ == anchor_id_spec(label@),
{
    let l = lowercase_chars(label);
    let mut r: Vec<char> = Vec::new();
    let mut i: usize = 0;
    while i < l.len()
        invariant
            i <= l.len(),
            r@ == replace_char(l@.take(i as int), ' ', '-'),
        decreases l.len() - i,
    {
        let c = l[i];
        r.push(if c == ' ' { '-' } else { c });
        i = i + 1;
        assert(replace_char(l@.take(i as int), ' ', '-') =~= replace_char(
            l@.take((i - 1) as int),
            ' ',
            '-',
        ).push(if c == ' ' { '-' } else { c }));
    }
    assert(l@.take(l@.len() as int) =~= l@);
    r
}

/// The anchor id of a label: lower case, with spaces turned into dashes.
pub fn anchor_id(label: &str) -> (r: String)
    ensures
        r@ == anchor_id_spec(label@),
{
    let v = chars_of(label);
    string_of(&anchor_id_chars(&v))
}

/// `s` with its first character in upper case.
pub fn capitalize(s: &str) -> (r: String)
    ensures
        r@ == capitalize_spec(s@),
{
    let v = chars_of(s);
    string_of(&capitalize_chars(&v))
}

// ---------------------------------------------------------------------------
// Processing the tags of all pages
// ---------------------------------------------------------------------------

/// The first declaration in the first code block at or after index `j`.
pub open spec fn next_decl(blocks: Seq<BlockView>, j: int) -> Option<Seq<char>>
    decreases blocks.len() - j,
{
    if j < 0 || j >= blocks.len() {
        None
    } else {
        match blocks[j] {
            BlockView::Code(c) => decl_name(c),
            _ => next_decl(blocks, j + 1),
        }
    }
}

/// The tables while one page is processed: the tag counters and anchors of
/// the page, and the cross-reference tables so far.
pub struct TagAcc {
    pub counters: Map<Seq<char>, nat>,
    pub anchors: Map<usize, Seq<char>>,
    pub xref: Map<Seq<char>, XrefEntryView>,
    pub label_xref: Map<Seq<char>, Seq<char>>,
}

/// One tag `{{name}}` in block `i` of page `p`: its kind is counted, it gets
/// a label and an anchor on the block, the label is linked, and the
/// declaration of the next code block becomes a cross-reference target.
/// Returns the new tables and the label that replaces the tag.
pub open spec fn tag_event(acc: TagAcc, p: PageView, i: int, name: Seq<char>) -> (TagAcc, Seq<char>) {
    let tag = lower_text(name);
    let n: nat = (if acc.counters.contains_key(tag) {
        acc.counters[tag]
    } else {
        0
    }) + 1;
    let label = tag_label(tag, n);
    let aid = anchor_id_spec(label);
    let href = page_file_spec(p.module) + seq!['#'] + aid;
    let xref = match next_decl(p.blocks, i + 1) {
        Some(d) => acc.xref.insert(d, XrefEntryView { href, page_title: p.title, label }),
        None => acc.xref,
    };
    (
        TagAcc {
            counters: acc.counters.insert(tag, n),
            anchors: acc.anchors.insert(i as usize, aid),
            xref,
            label_xref: acc.label_xref.insert(label, href),
        },
        label,
    )
}

/// The tags `ms` of text `t` (block `i`) handled in order: the tables, the
/// text rewritten up to the end of the last tag, and that end.
pub open spec fn tag_fold(
    acc: TagAcc,
    p: PageView,
    i: int,
    t: Seq<char>,
    ms: Seq<(int, int, Seq<char>)>,
) -> (TagAcc, Seq<char>, int)
    decreases ms.len(),
{
    if ms.len() == 0 {
        (acc, Seq::empty(), 0)
    } else {
        let (a, out, last) = tag_fold(acc, p, i, t, ms.drop_last());
        let (start, end, name) = ms.last();
        let (a2, label) = tag_event(a, p, i, name);
        (a2, out + t.subrange(last, start) + label, end)
    }
}

/// Block `i` of page `p` with its tags replaced by labels, and the tables
/// after it.
pub open spec fn rewrite_block(acc: TagAcc, p: PageView, i: int) -> (TagAcc, BlockView) {
    match p.blocks[i] {
        BlockView::Prose(t) => {
            let (a, out, last) = tag_fold(acc, p, i, t, tags_from(t, 0));
            (a, BlockView::Prose(out + t.skip(last)))
        },
        b => (acc, b),
    }
}

/// The first `k` blocks of page `p` rewritten, and the tables after them.
pub open spec fn page_fold(acc: TagAcc, p: PageView, k: int) -> (TagAcc, Seq<BlockView>)
    decreases k,
{
    if k <= 0 {
        (acc, Seq::empty())
    } else {
        let (a, bs) = page_fold(acc, p, k - 1);
        let (a2, b) = rewrite_block(a, p, k - 1);
        (a2, bs.push(b))
    }
}

/// The cross-reference tables of pages `ps` and the pages with their tags
/// replaced by labels.
pub open spec fn tags_spec(ps: Seq<PageView>) -> (XrefView, Seq<PageView>)
    decreases ps.len(),
{
    if ps.len() == 0 {
        (XrefView { xref: Map::empty(), label_xref: Map::empty(), anchors: Map::empty() }, Seq::empty())
    } else {
        let (x, out) = tags_spec(ps.drop_last());
        let p = ps.last();
        let start = TagAcc {
            counters: Map::empty(),
            anchors: Map::empty(),
            xref: x.xref,
            label_xref: x.label_xref,
        };
        let (a, bs) = page_fold(start, p, p.blocks.len() as int);
        (
            XrefView {
                xref: a.xref,
                label_xref: a.label_xref,
                anchors: x.anchors.insert(p.module, a.anchors),
            },
            out.push(PageView { blocks: bs, ..p }),
        )
    }
}

proof fn lemma_tags_from_bound(t: Seq<char>, i: int)
    ensures
        forall|k: int|
            0 <= k < tags_from(t, i).len() ==> i <= (#[trigger] tags_from(t, i)[k]).0 < tags_from(
                t,
                i,
            )[k].1 <= t.len(),
    decreases t.len() - i,
{
    if i >= 0 && i < t.len() {
        match tag_at(t, i) {
            Some((e, n)) => {
                lemma_tags_from_bound(t, e);
                let ms = tags_from(t, i);
                assert forall|k: int| 0 <= k < ms.len() implies i <= (#[trigger] ms[k]).0 < ms[k].1
                    <= t.len() by {
                    if k > 0 {
                        assert(ms[k] == tags_from(t, e)[k - 1]);
                    }
                }
            },
            None => {
                lemma_tags_from_bound(t, i + 1);
                assert(tags_from(t, i) == tags_from(t, i + 1));
            },
        }
    }
}

/// The counters as numbers.
pub open spec fn counts_view(m: Map<Seq<char>, u32>) -> Map<Seq<char>, nat> {
    Map::new(|k: Seq<char>| m.dom().contains(k), |k: Seq<char>| m[k] as nat)
}

/// Every count of `m1` is in `m2`, and no larger there.
pub open spec fn counts_le(m1: Map<Seq<char>, nat>, m2: Map<Seq<char>, nat>) -> bool {
    forall|k: Seq<char>| #[trigger] m1.contains_key(k) ==> m2.contains_key(k) && m1[k] <= m2[k]
}

/// Every count fits in a `u32`.
pub open spec fn counts_bounded(m: Map<Seq<char>, nat>) -> bool {
    forall|k: Seq<char>| #[trigger] m.contains_key(k) ==> m[k] <= u32::MAX
}

/// The tables before any page.
pub open spec fn empty_acc() -> TagAcc {
    TagAcc { counters: Map::empty(), anchors: Map::empty(), xref: Map::empty(), label_xref: Map::empty() }
}

/// How many tags of each kind page `p` has.
pub open spec fn page_counts(p: PageView) -> Map<Seq<char>, nat> {
    page_fold(empty_acc(), p, p.blocks.len() as int).0.counters
}

/// No page has more tags of one kind than a `u32` counter holds.
pub open spec fn counts_fit(ps: Seq<PageView>) -> bool {
    forall|k: int| 0 <= k < ps.len() ==> counts_bounded(page_counts(#[trigger] ps[k]))
}

proof fn lemma_counts_le_trans(a: Map<Seq<char>, nat>, b: Map<Seq<char>, nat>, c: Map<Seq<char>, nat>)
    requires
        counts_le(a, b),
        counts_le(b, c),
    ensures
        counts_le(a, c),
{
    assert forall|k: Seq<char>| #[trigger] a.contains_key(k) implies c.contains_key(k) && a[k] <= c[k] by {
        assert(b.contains_key(k));
    }
}

proof fn lemma_tag_fold_counts(
    acc: TagAcc,
    acc2: TagAcc,
    p: PageView,
    i: int,
    t: Seq<char>,
    ms: Seq<(int, int, Seq<char>)>,
    j: int,
)
    requires
        acc.counters == acc2.counters,
        0 <= j <= ms.len(),
    ensures
        tag_fold(acc, p, i, t, ms).0.counters == tag_fold(acc2, p, i, t, ms).0.counters,
        counts_le(tag_fold(acc, p, i, t, ms.take(j)).0.counters, tag_fold(acc, p, i, t, ms).0.counters),
    decreases ms.len(),
{
    if ms.len() > 0 {
        let d = ms.drop_last();
        if j < ms.len() {
            assert(ms.take(j) =~= d.take(j));
            lemma_tag_fold_counts(acc, acc2, p, i, t, d, j);
        } else {
            lemma_tag_fold_counts(acc, acc2, p, i, t, d, 0);
            assert(ms.take(j) =~= ms);
        }
        let a = tag_fold(acc, p, i, t, d).0;
        let tag = lower_text(ms.last().2);
        let r = tag_fold(acc, p, i, t, ms).0;
        assert(counts_le(a.counters, r.counters)) by {
            assert forall|k: Seq<char>| #[trigger] a.counters.contains_key(k) implies r.counters.contains_key(k)
                && a.counters[k] <= r.counters[k] by {}
        }
        if j < ms.len() {
            lemma_counts_le_trans(tag_fold(acc, p, i, t, ms.take(j)).0.counters, a.counters, r.counters);
        } else {
            assert forall|k: Seq<char>| #[trigger] r.counters.contains_key(k) implies r.counters.contains_key(k)
                && r.counters[k] <= r.counters[k] by {}
        }
    } else {
        assert(ms.take(j) =~= ms);
        assert forall|k: Seq<char>| #[trigger] acc.counters.contains_key(k) implies acc.counters.contains_key(k)
            && acc.counters[k] <= acc.counters[k] by {}
    }
}

proof fn lemma_page_fold_counts(acc: TagAcc, acc2: TagAcc, p: PageView, k: int, n: int)
    requires
        acc.counters == acc2.counters,
        0 <= k <= n,
    ensures
        page_fold(acc, p, n).0.counters == page_fold(acc2, p, n).0.counters,
        counts_le(page_fold(acc, p, k).0.counters, page_fold(acc, p, n).0.counters),
    decreases n,
{
    if n > 0 {
        if k < n {
            lemma_page_fold_counts(acc, acc2, p, k, n - 1);
        } else {
            lemma_page_fold_counts(acc, acc2, p, 0, n - 1);
        }
        let (a, bs) = page_fold(acc, p, n - 1);
        let (a2, bs2) = page_fold(acc2, p, n - 1);
        let r = page_fold(acc, p, n).0;
        match p.blocks[n - 1] {
            BlockView::Prose(t) => {
                lemma_tag_fold_counts(a, a2, p, n - 1, t, tags_from(t, 0), 0);
                assert(tags_from(t, 0).take(0) =~= Seq::<(int, int, Seq<char>)>::empty());
            },
            _ => {
                assert forall|q: Seq<char>| #[trigger] a.counters.contains_key(q) implies r.counters.contains_key(q)
                    && a.counters[q] <= r.counters[q] by {}
            },
        }
        if k < n {
            lemma_counts_le_trans(page_fold(acc, p, k).0.counters, a.counters, r.counters);
        } else {
            assert forall|q: Seq<char>| #[trigger] r.counters.contains_key(q) implies r.counters.contains_key(q)
                && r.counters[q] <= r.counters[q] by {}
        }
    } else {
        assert forall|q: Seq<char>| #[trigger] acc.counters.contains_key(q) implies acc.counters.contains_key(q)
            && acc.counters[q] <= acc.counters[q] by {}
    }
}

/// The first declaration in the first code block at or after index `j`.
fn next_decl_exec(blocks: &Vec<Block>, j: usize) -> (r: Option<Vec<char>>)
    ensures
        match r {
            Some(d) => next_decl(crate::parse::block_views(blocks@), j as int) == Some(d@),
            None => next_decl(crate::parse::block_views(blocks@), j as int) is None,
        },
{
    let ghost bv = crate::parse::block_views(blocks@);
    let mut k = j;
    while k < blocks.len()
        invariant
            j <= k,
            bv == crate::parse::block_views(blocks@),
            next_decl(bv, j as int) == next_decl(bv, k as int),
        decreases blocks.len() - k,
    {
        match &blocks[k] {
            Block::Code(c) => {
                let v = chars_of(c.as_str());
                return decl_name_chars(&v);
            },
            _ => {},
        }
        k = k + 1;
    }
    None
}

/// Rewrites text `t` of block `i`: every tag is replaced by its label and
/// recorded in the tables (see [`tag_fold`]).
fn rewrite_text(
    t: &Vec<char>,
    i: usize,
    decl: &Option<Vec<char>>,
    href_base: &Vec<char>,
    title: &String,
    counters: &mut StrMap<u32>,
    anchors: &mut AnchorMap,
    xref: &mut StrMap<XrefEntry>,
    label_xref: &mut StrMap<String>,
    Ghost(p): Ghost<PageView>,
) -> (r: Vec<char>)
    requires
        href_base@ == page_file_spec(p.module),
        title@ == p.title,
        match decl {
            Some(d) => next_decl(p.blocks, i + 1) == Some(d@),
            None => next_decl(p.blocks, i + 1) is None,
        },
        counts_bounded(
            tag_fold(
                TagAcc {
                    counters: counts_view(old(counters)@),
                    anchors: old(anchors)@,
                    xref: old(xref)@,
                    label_xref: old(label_xref)@,
                },
                p,
                i as int,
                t@,
                tags_from(t@, 0),
            ).0.counters,
        ),
    ensures
        ({
            let acc = TagAcc {
                counters: counts_view(old(counters)@),
                anchors: old(anchors)@,
                xref: old(xref)@,
                label_xref: old(label_xref)@,
            };
            let (a, out, last) = tag_fold(acc, p, i as int, t@, tags_from(t@, 0));
            &&& r@ == out + t@.skip(last)
            &&& counts_view(final(counters)@) == a.counters
            &&& final(anchors)@ == a.anchors
            &&& final(xref)@ == a.xref
            &&& final(label_xref)@ == a.label_xref
        }),
{
    let ghost acc0 = TagAcc {
        counters: counts_view(counters@),
        anchors: anchors@,
        xref: xref@,
        label_xref: label_xref@,
    };
    let ghost all = tags_from(t@, 0);
    let ghost mut done: Seq<(int, int, Seq<char>)> = Seq::empty();
    let mut out: Vec<char> = Vec::new();
    let mut last: usize = 0;
    let mut pos: usize = 0;
    proof {
        lemma_tags_from_bound(t@, 0);
    }
    while pos < t.len()
        invariant
            last <= pos <= t.len(),
            all == tags_from(t@, 0),
            all == done + tags_from(t@, pos as int),
            href_base@ == page_file_spec(p.module),
            title@ == p.title,
            match decl {
                Some(d) => next_decl(p.blocks, i + 1) == Some(d@),
                None => next_decl(p.blocks, i + 1) is None,
            },
            counts_bounded(tag_fold(acc0, p, i as int, t@, all).0.counters),
            ({
                let (a, o, l) = tag_fold(acc0, p, i as int, t@, done);
                &&& out@ == o
                &&& last == l
                &&& counts_view(counters@) == a.counters
                &&& anchors@ == a.anchors
                &&& xref@ == a.xref
                &&& label_xref@ == a.label_xref
            }),
        decreases t.len() - pos,
    {
        match tag_at_exec(t, pos) {
            Some((e, name)) => {
                let ghost before = done;
                proof {
                    assert(tags_from(t@, pos as int) == seq![(pos as int, e as int, name@)]
                        + tags_from(t@, e as int));
                    assert(all.len() >= done.len() + 1);
                    done = done.push((pos as int, e as int, name@));
                    assert(all == done + tags_from(t@, e as int));
                    assert(done.drop_last() =~= before);
                }
                // The kind of tag and its count on this page.
                let tag = lowercase_chars(&name);
                let tag_s = string_of(&tag);
                proof {
                    lemma_tag_fold_counts(acc0, acc0, p, i as int, t@, all, done.len() as int);
                    assert(all.take(done.len() as int) =~= done);
                    assert(tag_fold(acc0, p, i as int, t@, done).0.counters.contains_key(tag@));
                }
                let n: u32 = match counters.get(&tag_s) {
                    Some(c) => *c + 1,
                    None => 1,
                };
                counters.insert(tag_s, n);
                // The label, its anchor and its link.
                let mut label = capitalize_chars(&tag);
                label.push(' ');
                let digits = decimal_exec(n);
                extend_chars(&mut label, &digits);
                let aid = anchor_id_chars(&label);
                let mut href = href_base.clone();
                assert(href@ =~= href_base@);
                href.push('#');
                extend_chars(&mut href, &aid);
                assert(href@ =~= href_base@ + seq!['#'] + aid@);
                anchors.insert(i, string_of(&aid));
                label_xref.insert(string_of(&label), string_of(&href));
                match decl {
                    Some(d) => {
                        xref.insert(
                            string_of(d),
                            XrefEntry {
                                href: string_of(&href),
                                page_title: title.clone(),
                                label: string_of(&label),
                            },
                        );
                    },
                    None => {},
                }
                let gap = slice_chars(t, last, pos);
                extend_chars(&mut out, &gap);
                extend_chars(&mut out, &label);
                proof {
                    let (a, o, l) = tag_fold(acc0, p, i as int, t@, before);
                    let (a2, lab) = tag_event(a, p, i as int, name@);
                    assert(lab == label@);
                    assert(counts_view(counters@) =~= a2.counters);
                    assert(out@ == o + t@.subrange(l, pos as int) + lab);
                    assert(anchors@ == a2.anchors);
                    assert(label_xref@ == a2.label_xref);
                    assert(xref@ == a2.xref);
                    assert(tag_fold(acc0, p, i as int, t@, done) == (a2, o + t@.subrange(
                        l,
                        pos as int,
                    ) + lab, e as int));
                }
                last = e;
                pos = e;
            },
            None => {
                pos = pos + 1;
            },
        }
    }
    let tail = slice_chars(t, last, t.len());
    assert(tail@ =~= t@.skip(last as int));
    assert(done =~= all);
    extend_chars(&mut out, &tail);
    out
}

proof fn lemma_page_fold_len(acc: TagAcc, p: PageView, k: int)
    requires
        0 <= k,
    ensures
        page_fold(acc, p, k).1.len() == k,
    decreases k,
{
    if k > 0 {
        lemma_page_fold_len(acc, p, k - 1);
    }
}

proof fn lemma_tags_spec_len(ps: Seq<PageView>)
    ensures
        tags_spec(ps).1.len() == ps.len(),
    decreases ps.len(),
{
    if ps.len() > 0 {
        lemma_tags_spec_len(ps.drop_last());
    }
}

proof fn lemma_next_decl_agree(a: Seq<BlockView>, b: Seq<BlockView>, j: int)
    requires
        a.len() == b.len(),
        0 <= j,
        forall|k: int| j <= k < a.len() ==> a[k] == b[k],
    ensures
        next_decl(a, j) == next_decl(b, j),
    decreases a.len() - j,
{
    if j < a.len() {
        lemma_next_decl_agree(a, b, j + 1);
    }
}

fn prose_chars(b: &Block) -> (r: Option<Vec<char>>)
    ensures
        match r {
            Some(t) => b@ == BlockView::Prose(t@),
            None => !(b@ is Prose),
        },
{
    match b {
        Block::Prose(t) => Some(chars_of(t.as_str())),
        _ => None,
    }
}

/// A page with every field empty.
fn empty_page() -> (p: Page)
    ensures
        p@ == (PageView {
            path: Seq::empty(),
            module: Seq::empty(),
            title: Seq::empty(),
            group: Seq::empty(),
            imports: Seq::empty(),
            blocks: Seq::empty(),
            raw: Seq::empty(),
        }),
{
    let p = Page {
        path: String::new(),
        module: String::new(),
        title: String::new(),
        group: String::new(),
        imports: Vec::new(),
        blocks: Vec::new(),
        raw: String::new(),
    };
    assert(p@.imports =~= Seq::<Seq<char>>::empty());
    assert(p@.blocks =~= Seq::<BlockView>::empty());
    p
}

/// Processes the tags of one page (see [`page_fold`]): returns the anchors
/// of its blocks.
fn process_page(
    page: &mut Page,
    xref: &mut StrMap<XrefEntry>,
    label_xref: &mut StrMap<String>,
) -> (r: AnchorMap)
    requires
        counts_bounded(page_counts(old(page)@)),
    ensures
        ({
            let p = old(page)@;
            let start = TagAcc {
                counters: Map::empty(),
                anchors: Map::empty(),
                xref: old(xref)@,
                label_xref: old(label_xref)@,
            };
            let (a, bs) = page_fold(start, p, p.blocks.len() as int);
            &&& final(page)@ == PageView { blocks: bs, ..p }
            &&& r@ == a.anchors
            &&& final(xref)@ == a.xref
            &&& final(label_xref)@ == a.label_xref
        }),
{
    let ghost p = page@;
    let ghost start = TagAcc {
        counters: Map::empty(),
        anchors: Map::empty(),
        xref: xref@,
        label_xref: label_xref@,
    };
    let mut counters: StrMap<u32> = StrMap::new();
    let mut anchors = AnchorMap::new();
    let href_base = {
        let f = crate::parse::page_file(page.module.as_str());
        chars_of(f.as_str())
    };
    let nb = page.blocks.len();
    let mut i: usize = 0;
    assert(counts_view(counters@) =~= Map::<Seq<char>, nat>::empty());
    assert(crate::parse::block_views(page.blocks@) =~= Seq::<BlockView>::empty() + p.blocks.skip(
        0,
    ));
    while i < nb
        invariant
            i <= nb == p.blocks.len(),
            page.blocks@.len() == nb,
            page.path@ == p.path,
            page.module@ == p.module,
            page.title@ == p.title,
            page.group@ == p.group,
            crate::parse::string_views(page.imports@) == p.imports,
            page.raw@ == p.raw,
            href_base@ == page_file_spec(p.module),
            counts_bounded(page_counts(p)),
            start.counters == empty_acc().counters,
            ({
                let (a, bs) = page_fold(start, p, i as int);
                &&& crate::parse::block_views(page.blocks@) == bs + p.blocks.skip(i as int)
                &&& counts_view(counters@) == a.counters
                &&& anchors@ == a.anchors
                &&& xref@ == a.xref
                &&& label_xref@ == a.label_xref
            }),
        decreases nb - i,
    {
        let ghost cur = crate::parse::block_views(page.blocks@);
        let ghost (a, bs) = page_fold(start, p, i as int);
        proof {
            lemma_page_fold_len(start, p, i as int);
            assert(cur[i as int] == p.blocks[i as int]);
            assert(cur[i as int] == page.blocks@[i as int]@);
            lemma_page_fold_counts(start, empty_acc(), p, i + 1, nb as int);
            let after = page_fold(start, p, i + 1).0.counters;
            assert forall|k: Seq<char>| #[trigger] after.contains_key(k) implies after[k] <= u32::MAX by {
                assert(page_counts(p).contains_key(k));
            }
        }
        let text = prose_chars(&page.blocks[i]);
        match text {
            Some(t) => {
                let decl = next_decl_exec(&page.blocks, i + 1);
                proof {
                    lemma_next_decl_agree(cur, p.blocks, i + 1);
                }
                let new_text = rewrite_text(
                    &t,
                    i,
                    &decl,
                    &href_base,
                    &page.title,
                    &mut counters,
                    &mut anchors,
                    xref,
                    label_xref,
                    Ghost(p),
                );
                let ghost old_blocks = page.blocks@;
                page.blocks.set(i, Block::Prose(string_of(&new_text)));
                proof {
                    let (a2, b2) = rewrite_block(a, p, i as int);
                    assert(b2 == BlockView::Prose(new_text@));
                    assert(crate::parse::block_views(page.blocks@) =~= crate::parse::block_views(
                        old_blocks,
                    ).update(i as int, b2));
                    assert(crate::parse::block_views(page.blocks@) =~= bs.push(b2) + p.blocks.skip(
                        i + 1,
                    ));
                }
            },
            None => {
                proof {
                    assert(bs + p.blocks.skip(i as int) =~= bs.push(p.blocks[i as int])
                        + p.blocks.skip(i + 1));
                }
            },
        }
        i = i + 1;
    }
    assert(p.blocks.skip(nb as int) =~= Seq::<BlockView>::empty());
    assert(crate::parse::block_views(page.blocks@) =~= page_fold(start, p, nb as int).1);
    anchors
}

/// Whether no kind of tag occurs on the page more often than a `u32`
/// counter holds.
fn page_counts_fit(page: &Page) -> (b: bool)
    ensures
        b == counts_bounded(page_counts(page@)),
{
    let ghost p = page@;
    let blocks = &page.blocks;
    let n = blocks.len();
    let mut counters: StrMap<u32> = StrMap::new();
    let mut i: usize = 0;
    assert(counts_view(counters@) =~= Map::<Seq<char>, nat>::empty());
    while i < n
        invariant
            i <= n == blocks@.len() == p.blocks.len(),
            p == page@,
            blocks@ == page.blocks@,
            counts_view(counters@) == page_fold(empty_acc(), p, i as int).0.counters,
        decreases n - i,
    {
        let ghost a = page_fold(empty_acc(), p, i as int).0;
        assert(p.blocks[i as int] == blocks@[i as int]@);
        match prose_chars(&blocks[i]) {
            Some(t) => {
                let ghost all = tags_from(t@, 0);
                let ghost mut done: Seq<(int, int, Seq<char>)> = Seq::empty();
                let mut pos: usize = 0;
                while pos < t.len()
                    invariant
                        pos <= t.len(),
                        p == page@,
                        i < n == p.blocks.len(),
                        p.blocks[i as int] == BlockView::Prose(t@),
                        a == page_fold(empty_acc(), p, i as int).0,
                        all == tags_from(t@, 0),
                        all == done + tags_from(t@, pos as int),
                        counts_view(counters@) == tag_fold(a, p, i as int, t@, done).0.counters,
                    decreases t.len() - pos,
                {
                    match tag_at_exec(&t, pos) {
                        Some((e, name)) => {
                            let ghost before = done;
                            proof {
                                assert(tags_from(t@, pos as int) == seq![(pos as int, e as int, name@)]
                                    + tags_from(t@, e as int));
                                done = done.push((pos as int, e as int, name@));
                                assert(all == done + tags_from(t@, e as int));
                                assert(done.drop_last() =~= before);
                            }
                            let tag = lowercase_chars(&name);
                            let tag_s = string_of(&tag);
                            let count: u32 = match counters.get(&tag_s) {
                                Some(c) => {
                                    if *c == u32::MAX {
                                        proof {
                                            let a2 = tag_fold(a, p, i as int, t@, done).0;
                                            assert(a2.counters.contains_key(tag@));
                                            assert(a2.counters[tag@] > u32::MAX);
                                            lemma_tag_fold_counts(a, a, p, i as int, t@, all, done.len() as int);
                                            assert(all.take(done.len() as int) =~= done);
                                            let fb = tag_fold(a, p, i as int, t@, all).0.counters;
                                            assert(counts_le(a2.counters, fb));
                                            assert(fb == page_fold(empty_acc(), p, i + 1).0.counters);
                                            lemma_page_fold_counts(empty_acc(), empty_acc(), p, i + 1, n as int);
                                            lemma_counts_le_trans(a2.counters, fb, page_counts(p));
                                            assert(page_counts(p).contains_key(tag@));
                                            assert(page_counts(p)[tag@] > u32::MAX);
                                        }
                                        return false;
                                    }
                                    *c + 1
                                },
                                None => 1,
                            };
                            counters.insert(tag_s, count);
                            proof {
                                let a1 = tag_fold(a, p, i as int, t@, before).0;
                                let a2 = tag_fold(a, p, i as int, t@, done).0;
                                assert(counts_view(counters@) =~= a2.counters);
                            }
                            pos = e;
                        },
                        None => {
                            pos = pos + 1;
                        },
                    }
                }
                assert(done =~= all);
            },
            None => {},
        }
        i = i + 1;
    }
    proof {
        assert forall|k: Seq<char>| #[trigger] page_counts(p).contains_key(k) implies page_counts(p)[k]
            <= u32::MAX by {
            assert(counts_view(counters@).contains_key(k));
        }
    }
    true
}

/// Whether the tags of every page can be numbered: no page has more tags
/// of one kind than a `u32` counter holds.
pub fn tags_fit(pages: &Vec<Page>) -> (b: bool)
    ensures
        b == counts_fit(crate::parse::page_views(pages@)),
{
    let ghost ps = crate::parse::page_views(pages@);
    let mut k: usize = 0;
    while k < pages.len()
        invariant
            k <= pages.len(),
            ps == crate::parse::page_views(pages@),
            forall|j: int| 0 <= j < k ==> counts_bounded(page_counts(#[trigger] ps[j])),
        decreases pages.len() - k,
    {
        assert(ps[k as int] == pages@[k as int]@);
        if !page_counts_fit(&pages[k]) {
            return false;
        }
        k = k + 1;
    }
    true
}

/// Process {{tag}} placeholders in all pages, numbering them per-page per-type.
/// Mutates blocks in place (replaces Prose text with expanded labels).
/// Returns xref maps and per-page anchor assignments.
pub fn process_tags_and_xref(pages: &mut Vec<Page>) -> (r: XrefData)
    requires
        counts_fit(crate::parse::page_views(old(pages)@)),
    ensures
        (r@, crate::parse::page_views(final(pages)@)) == tags_spec(crate::parse::page_views(old(pages)@)),
{
    let ghost ps = crate::parse::page_views(pages@);
    let mut xref: StrMap<XrefEntry> = StrMap::new();
    let mut label_xref: StrMap<String> = StrMap::new();
    let mut anchors: StrMap<AnchorMap> = StrMap::new();
    let n = pages.len();
    let mut k: usize = 0;
    assert(ps.take(0) =~= Seq::<PageView>::empty());
    assert(crate::parse::page_views(pages@) =~= Seq::<PageView>::empty() + ps.skip(0));
    while k < n
        invariant
            k <= n == pages@.len() == ps.len(),
            counts_fit(ps),
            ({
                let (x, out) = tags_spec(ps.take(k as int));
                &&& crate::parse::page_views(pages@) == out + ps.skip(k as int)
                &&& xref@ == x.xref
                &&& label_xref@ == x.label_xref
                &&& anchors@ == x.anchors
            }),
        decreases n - k,
    {
        let ghost (x, out) = tags_spec(ps.take(k as int));
        assert(ps.take(k + 1).drop_last() =~= ps.take(k as int));
        proof {
            lemma_tags_spec_len(ps.take(k as int));
            assert(crate::parse::page_views(pages@)[k as int] == ps[k as int]);
        }
        let ghost pages0 = pages@;
        let mut page = empty_page();
        pages.set_and_swap(k, &mut page);
        assert(page@ == ps[k as int]);
        let page_anchors = process_page(&mut page, &mut xref, &mut label_xref);
        anchors.insert(page.module.clone(), page_anchors);
        let ghost newp = page@;
        pages.set_and_swap(k, &mut page);
        proof {
            assert(pages@ =~= pages0.update(k as int, pages@[k as int]));
            assert(pages@[k as int]@ == newp);
            assert(crate::parse::page_views(pages@) =~= crate::parse::page_views(pages0).update(
                k as int,
                newp,
            ));
            assert(crate::parse::page_views(pages@) =~= out.push(newp) + ps.skip(k + 1));
        }
        k = k + 1;
    }
    assert(ps.take(n as int) =~= ps);
    assert(ps.skip(n as int) =~= Seq::<PageView>::empty());
    proof {
        lemma_tags_spec_len(ps);
    }
    assert(crate::parse::page_views(pages@) =~= tags_spec(ps).1);
    XrefData { xref, label_xref, anchors }
}

// ---------------------------------------------------------------------------
// Laws of tag processing
// ---------------------------------------------------------------------------

/// The declaration a tag refers to is that of the first code block after
/// it, whatever prose or hidden-section markers stand between: with block
/// `k` the first code block at or after `j`, it is the declaration of
/// block `k`.
pub proof fn lemma_next_decl_first_code(blocks: Seq<BlockView>, j: int, k: int)
    requires
        0 <= j <= k < blocks.len(),
        blocks[k] is Code,
        forall|m: int| j <= m < k ==> !(#[trigger] blocks[m] is Code),
    ensures
        next_decl(blocks, j) == decl_name(blocks[k]->Code_0),
    decreases k - j,
{
    if j < k {
        lemma_next_decl_first_code(blocks, j + 1, k);
    }
}

/// Without a code block at or after `j` there is no declaration to refer to.
pub proof fn lemma_next_decl_no_code(blocks: Seq<BlockView>, j: int)
    requires
        0 <= j,
        forall|m: int| j <= m < blocks.len() ==> !(#[trigger] blocks[m] is Code),
    ensures
        next_decl(blocks, j) is None,
    decreases blocks.len() - j,
{
    if j < blocks.len() {
        lemma_next_decl_no_code(blocks, j + 1);
    }
}

/// A tag in block `i` makes the declaration `d` of the first code block
/// after it (past any prose and hidden-section markers) a cross-reference
/// target: `d` then links to the tag's anchor on the page, under the page's
/// title and the tag's label.
pub proof fn lemma_tag_registers_next_code(acc: TagAcc, p: PageView, i: int, name: Seq<char>, k: int)
    requires
        0 <= i < k < p.blocks.len(),
        p.blocks[k] is Code,
        decl_name(p.blocks[k]->Code_0) is Some,
        forall|m: int| i < m < k ==> !(#[trigger] p.blocks[m] is Code),
    ensures
        ({
            let (a, label) = tag_event(acc, p, i, name);
            let d = decl_name(p.blocks[k]->Code_0)->0;
            a.xref == acc.xref.insert(
                d,
                XrefEntryView {
                    href: page_file_spec(p.module) + seq!['#'] + anchor_id_spec(label),
                    page_title: p.title,
                    label,
                },
            )
        }),
{
    lemma_next_decl_first_code(p.blocks, i + 1, k);
}

proof fn lemma_tag_fold_grows(acc: TagAcc, p: PageView, i: int, t: Seq<char>, ms: Seq<(int, int, Seq<char>)>, n: int)
    requires
        0 <= n <= ms.len(),
    ensures
        tag_fold(acc, p, i, t, ms.take(n)).0.xref.dom().subset_of(tag_fold(acc, p, i, t, ms).0.xref.dom()),
        acc.xref.dom().subset_of(tag_fold(acc, p, i, t, ms).0.xref.dom()),
    decreases ms.len(),
{
    if ms.len() == 0 {
        assert(ms.take(n) =~= ms);
    } else if n == ms.len() {
        assert(ms.take(n) =~= ms);
        lemma_tag_fold_grows(acc, p, i, t, ms.drop_last(), 0);
    } else {
        lemma_tag_fold_grows(acc, p, i, t, ms.drop_last(), n);
        assert(ms.drop_last().take(n) =~= ms.take(n));
        assert(ms.drop_last().take(0) =~= Seq::<(int, int, Seq<char>)>::empty());
        assert(ms.take(0) =~= Seq::<(int, int, Seq<char>)>::empty());
    }
}

proof fn lemma_page_fold_grows(acc: TagAcc, p: PageView, k1: int, k2: int)
    requires
        0 <= k1 <= k2,
    ensures
        page_fold(acc, p, k1).0.xref.dom().subset_of(page_fold(acc, p, k2).0.xref.dom()),
    decreases k2,
{
    if k1 < k2 {
        lemma_page_fold_grows(acc, p, k1, k2 - 1);
        let a = page_fold(acc, p, k2 - 1).0;
        match p.blocks[k2 - 1] {
            BlockView::Prose(t) => {
                lemma_tag_fold_grows(a, p, k2 - 1, t, tags_from(t, 0), 0);
            },
            _ => {},
        }
    }
}

proof fn lemma_tags_spec_grows(ps: Seq<PageView>, n: int)
    requires
        0 <= n <= ps.len(),
    ensures
        tags_spec(ps.take(n)).0.xref.dom().subset_of(tags_spec(ps).0.xref.dom()),
    decreases ps.len(),
{
    if n == ps.len() {
        assert(ps.take(n) =~= ps);
    } else {
        let d = ps.drop_last();
        lemma_tags_spec_grows(d, n);
        assert(d.take(n) =~= ps.take(n));
        let x = tags_spec(d).0;
        let p = ps.last();
        let start = TagAcc {
            counters: Map::empty(),
            anchors: Map::empty(),
            xref: x.xref,
            label_xref: x.label_xref,
        };
        lemma_page_fold_grows(start, p, 0, p.blocks.len() as int);
    }
}

/// On every page, a block of prose holding a tag makes the declaration of
/// the first code block after it (past any prose and hidden-section
/// markers) a target of the cross-reference table that tag processing
/// returns.
pub proof fn lemma_tags_register_next_code(ps: Seq<PageView>, k: int, i: int, j: int)
    requires
        0 <= k < ps.len(),
        0 <= i < j < ps[k].blocks.len(),
        ps[k].blocks[i] is Prose,
        tags_from(ps[k].blocks[i]->Prose_0, 0).len() > 0,
        ps[k].blocks[j] is Code,
        decl_name(ps[k].blocks[j]->Code_0) is Some,
        forall|m: int| i < m < j ==> !(#[trigger] ps[k].blocks[m] is Code),
    ensures
        tags_spec(ps).0.xref.contains_key(decl_name(ps[k].blocks[j]->Code_0)->0),
{
    let p = ps[k];
    let t = p.blocks[i]->Prose_0;
    let dn = decl_name(p.blocks[j]->Code_0)->0;
    let pre = ps.take(k + 1);
    let x = tags_spec(pre.drop_last()).0;
    assert(pre.last() == p);
    let start = TagAcc {
        counters: Map::empty(),
        anchors: Map::empty(),
        xref: x.xref,
        label_xref: x.label_xref,
    };
    let ms = tags_from(t, 0);
    let a = page_fold(start, p, i).0;
    // The first tag of the block registers the declaration.
    let one = ms.take(1);
    assert(one.len() == 1);
    assert(one.drop_last() =~= Seq::<(int, int, Seq<char>)>::empty());
    assert(tag_fold(a, p, i, t, one.drop_last()).0 == a);
    let (a1, label) = tag_event(a, p, i, one.last().2);
    lemma_tag_registers_next_code(a, p, i, one.last().2, j);
    assert(tag_fold(a, p, i, t, one).0 == a1);
    assert(a1.xref.contains_key(dn));
    lemma_tag_fold_grows(a, p, i, t, ms, 1);
    assert(page_fold(start, p, i + 1).0 == tag_fold(a, p, i, t, ms).0);
    lemma_page_fold_grows(start, p, i + 1, p.blocks.len() as int);
    assert(tags_spec(pre).0.xref == page_fold(start, p, p.blocks.len() as int).0.xref);
    lemma_tags_spec_grows(ps, k + 1);
}

proof fn lemma_page_fold_shape(acc: TagAcc, p: PageView, k: int)
    requires
        0 <= k <= p.blocks.len(),
    ensures
        page_fold(acc, p, k).1.len() == k,
        forall|i: int|
            0 <= i < k ==> {
                let b = p.blocks[i];
                let r = #[trigger] page_fold(acc, p, k).1[i];
                &&& (b is Prose) == (r is Prose)
                &&& !(b is Prose) ==> r == b
                &&& (b matches BlockView::Prose(t) && tags_from(t, 0).len() == 0) ==> r == b
            },
    decreases k,
{
    if k > 0 {
        lemma_page_fold_shape(acc, p, k - 1);
        let (a, bs) = page_fold(acc, p, k - 1);
        let r = page_fold(acc, p, k).1;
        assert forall|i: int| 0 <= i < k implies {
            let b = p.blocks[i];
            let ri = #[trigger] r[i];
            &&& (b is Prose) == (ri is Prose)
            &&& !(b is Prose) ==> ri == b
            &&& (b matches BlockView::Prose(t) && tags_from(t, 0).len() == 0) ==> ri == b
        } by {
            if i < k - 1 {
                assert(r[i] == bs[i]);
            } else {
                match p.blocks[i] {
                    BlockView::Prose(t) => {
                        if tags_from(t, 0).len() == 0 {
                            assert(t.skip(0) =~= t);
                            assert(Seq::<char>::empty() + t.skip(0) =~= t);
                        }
                    },
                    _ => {},
                }
            }
        }
    }
}

/// Tag processing keeps every page but its prose: the same pages in the same
/// order, each with the same path, module, title, group, imports and source,
/// and the same number of blocks; code blocks and hidden-section markers stay
/// as they are, prose stays prose, and prose without tags is unchanged.
pub proof fn lemma_tags_keep_pages(ps: Seq<PageView>)
    ensures
        ({
            let out = tags_spec(ps).1;
            &&& out.len() == ps.len()
            &&& forall|k: int|
                0 <= k < ps.len() ==> {
                    let o = #[trigger] out[k];
                    let p = ps[k];
                    &&& o.path == p.path
                    &&& o.module == p.module
                    &&& o.title == p.title
                    &&& o.group == p.group
                    &&& o.imports == p.imports
                    &&& o.raw == p.raw
                    &&& o.blocks.len() == p.blocks.len()
                    &&& forall|i: int|
                        0 <= i < p.blocks.len() ==> {
                            &&& (p.blocks[i] is Prose) == (#[trigger] o.blocks[i] is Prose)
                            &&& !(p.blocks[i] is Prose) ==> o.blocks[i] == p.blocks[i]
                            &&& (p.blocks[i] matches BlockView::Prose(t) && tags_from(t, 0).len()
                                == 0) ==> o.blocks[i] == p.blocks[i]
                        }
                }
        }),
    decreases ps.len(),
{
    if ps.len() > 0 {
        lemma_tags_keep_pages(ps.drop_last());
        let (x, prev) = tags_spec(ps.drop_last());
        let p = ps.last();
        let start = TagAcc {
            counters: Map::empty(),
            anchors: Map::empty(),
            xref: x.xref,
            label_xref: x.label_xref,
        };
        lemma_page_fold_shape(start, p, p.blocks.len() as int);
        let out = tags_spec(ps).1;
        assert forall|k: int| 0 <= k < ps.len() - 1 implies #[trigger] out[k] == prev[k] by {}
        assert forall|k: int| 0 <= k < ps.len() - 1 implies ps[k] == #[trigger] ps.drop_last()[k] by {}
    }
}

/// No prose block of the pages holds a tag.
pub open spec fn tag_free(ps: Seq<PageView>) -> bool {
    forall|k: int, i: int|
        0 <= k < ps.len() && 0 <= i < ps[k].blocks.len() ==> match #[trigger] ps[k].blocks[i] {
            BlockView::Prose(t) => tags_from(t, 0).len() == 0,
            _ => true,
        }
}

proof fn lemma_page_fold_tag_free(acc: TagAcc, p: PageView, k: int)
    requires
        0 <= k <= p.blocks.len(),
        forall|i: int| 0 <= i < p.blocks.len() ==> match #[trigger] p.blocks[i] {
            BlockView::Prose(t) => tags_from(t, 0).len() == 0,
            _ => true,
        },
    ensures
        page_fold(acc, p, k).0 == acc,
    decreases k,
{
    if k > 0 {
        lemma_page_fold_tag_free(acc, p, k - 1);
        match p.blocks[k - 1] {
            BlockView::Prose(t) => {
                assert(tags_from(t, 0) =~= Seq::<(int, int, Seq<char>)>::empty());
            },
            _ => {},
        }
    }
}

/// Tag processing leaves pages without tags as they are and finds nothing:
/// no cross-references, no labels, and an empty anchor table for each page.
pub proof fn lemma_tags_tag_free(ps: Seq<PageView>)
    requires
        tag_free(ps),
    ensures
        tags_spec(ps).1 == ps,
        tags_spec(ps).0.xref == Map::<Seq<char>, XrefEntryView>::empty(),
        tags_spec(ps).0.label_xref == Map::<Seq<char>, Seq<char>>::empty(),
        tags_spec(ps).0.anchors == Map::new(
            |m: Seq<char>| is_module(ps, m),
            |m: Seq<char>| Map::<usize, Seq<char>>::empty(),
        ),
    decreases ps.len(),
{
    if ps.len() > 0 {
        let d = ps.drop_last();
        assert forall|k: int, i: int| 0 <= k < d.len() && 0 <= i < d[k].blocks.len() implies match #[trigger] d[k].blocks[i] {
            BlockView::Prose(t) => tags_from(t, 0).len() == 0,
            _ => true,
        } by {
            assert(d[k] == ps[k]);
        }
        lemma_tags_tag_free(d);
        let (x, prev) = tags_spec(d);
        let p = ps.last();
        let start = TagAcc {
            counters: Map::empty(),
            anchors: Map::empty(),
            xref: x.xref,
            label_xref: x.label_xref,
        };
        assert forall|i: int| 0 <= i < p.blocks.len() implies match #[trigger] p.blocks[i] {
            BlockView::Prose(t) => tags_from(t, 0).len() == 0,
            _ => true,
        } by {
            assert(p.blocks[i] == ps[ps.len() - 1].blocks[i]);
        }
        lemma_page_fold_tag_free(start, p, p.blocks.len() as int);
        lemma_page_fold_shape(start, p, p.blocks.len() as int);
        let bs = page_fold(start, p, p.blocks.len() as int).1;
        assert(bs =~= p.blocks);
        assert(PageView { blocks: bs, ..p } == p);
        assert(tags_spec(ps).1 =~= ps);
        let anchors = tags_spec(ps).0.anchors;
        assert(anchors =~= Map::new(
            |m: Seq<char>| is_module(ps, m),
            |m: Seq<char>| Map::<usize, Seq<char>>::empty(),
        )) by {
            assert forall|m: Seq<char>| is_module(ps, m) <==> (is_module(d, m) || m == p.module) by {
                if is_module(ps, m) {
                    let i = choose|i: int| 0 <= i < ps.len() && (#[trigger] ps[i]).module == m;
                    if i < ps.len() - 1 {
                        assert(d[i] == ps[i]);
                    }
                }
                if is_module(d, m) {
                    let i = choose|i: int| 0 <= i < d.len() && (#[trigger] d[i]).module == m;
                    assert(ps[i] == d[i]);
                }
                if m == p.module {
                    assert(ps[ps.len() - 1].module == m);
                }
            }
        }
    }
}

/// A tag `{{w}}` spelled out at `q` of `x`, with `k` word characters.
pub open spec fn spelled_tag(x: Seq<char>, q: int, k: int) -> bool {
    &&& 0 <= q
    &&& 1 <= k
    &&& q + k + 4 <= x.len()
    &&& x[q] == '{'
    &&& x[q + 1] == '{'
    &&& forall|j: int| q + 2 <= j < q + 2 + k ==> word_char(#[trigger] x[j])
    &&& x[q + 2 + k] == '}'
    &&& x[q + 3 + k] == '}'
}

/// No tag is spelled out anywhere in `x`.
pub open spec fn no_spelled_tag(x: Seq<char>) -> bool {
    forall|q: int, k: int| !#[trigger] spelled_tag(x, q, k)
}

/// A label has a space and no braces.
pub open spec fn label_ok(l: Seq<char>) -> bool {
    &&& exists|sp: int| 0 <= sp < l.len() && l[sp] == ' '
    &&& forall|j: int| 0 <= j < l.len() ==> #[trigger] l[j] != '{' && l[j] != '}'
}

proof fn lemma_word_run_chars(t: Seq<char>, j: int)
    requires
        0 <= j,
    ensures
        forall|m: int| j <= m < j + word_run(t, j) ==> word_char(#[trigger] t[m]),
        j + word_run(t, j) <= t.len() || word_run(t, j) == 0,
    decreases t.len() - j,
{
    if 0 <= j < t.len() && word_char(t[j]) {
        lemma_word_run_chars(t, j + 1);
    }
}

proof fn lemma_word_run_exact(t: Seq<char>, j: int, k: int)
    requires
        0 <= j,
        0 <= k,
        j + k < t.len(),
        forall|m: int| j <= m < j + k ==> word_char(#[trigger] t[m]),
        !word_char(t[j + k]),
    ensures
        word_run(t, j) == k,
    decreases k,
{
    if k > 0 {
        lemma_word_run_exact(t, j + 1, k - 1);
    }
}

proof fn lemma_spelled_is_tag(t: Seq<char>, q: int, k: int)
    requires
        spelled_tag(t, q, k),
    ensures
        tag_at(t, q) is Some,
{
    assert(!word_char('}'));
    lemma_word_run_exact(t, q + 2, k);
}

proof fn lemma_tag_is_spelled(t: Seq<char>, q: int)
    requires
        tag_at(t, q) is Some,
    ensures
        spelled_tag(t, q, word_run(t, q + 2) as int),
{
    lemma_word_run_chars(t, q + 2);
}

proof fn lemma_no_spelled_tag_free(r: Seq<char>, i: int)
    requires
        no_spelled_tag(r),
    ensures
        tags_from(r, i).len() == 0,
    decreases r.len() - i,
{
    if 0 <= i < r.len() {
        if tag_at(r, i) is Some {
            lemma_tag_is_spelled(r, i);
            assert(spelled_tag(r, i, word_run(r, i + 2) as int));
        }
        lemma_no_spelled_tag_free(r, i + 1);
    }
}

/// Where the tags of `t` from `i` on are, and that no tag starts between them.
proof fn lemma_tags_from_facts(t: Seq<char>, i: int)
    requires
        0 <= i,
    ensures
        ({
            let ms = tags_from(t, i);
            &&& forall|j: int|
                0 <= j < ms.len() ==> i <= (#[trigger] ms[j]).0 < ms[j].1 <= t.len() && tag_at(t, ms[j].0)
                    == Some((ms[j].1, ms[j].2))
            &&& forall|j: int| 0 < j < ms.len() ==> ms[j - 1].1 <= (#[trigger] ms[j]).0
            &&& forall|p: int|
                i <= p < (if ms.len() > 0 {
                    ms[0].0
                } else {
                    t.len() as int
                }) ==> (#[trigger] tag_at(t, p)) is None
            &&& forall|j: int, p: int|
                0 <= j < ms.len() && ms[j].1 <= p < (if j + 1 < ms.len() {
                    ms[j + 1].0
                } else {
                    t.len() as int
                }) ==> #[trigger] tag_at(t, p) is None && #[trigger] ms[j] == ms[j]
        }),
    decreases t.len() - i,
{
    let ms = tags_from(t, i);
    if i < t.len() {
        match tag_at(t, i) {
            Some((e, n)) => {
                lemma_tags_from_facts(t, e);
                let rest = tags_from(t, e);
                assert(ms == seq![(i, e, n)] + rest);
                assert forall|j: int| 0 < j < ms.len() implies ms[j - 1].1 <= (#[trigger] ms[j]).0 by {
                    assert(ms[j] == rest[j - 1]);
                    if j > 1 {
                        assert(ms[j - 1] == rest[j - 2]);
                    }
                }
                assert forall|j: int| 0 <= j < ms.len() implies i <= (#[trigger] ms[j]).0 < ms[j].1
                    <= t.len() && tag_at(t, ms[j].0) == Some((ms[j].1, ms[j].2)) by {
                    if j > 0 {
                        assert(ms[j] == rest[j - 1]);
                    }
                }
                assert forall|j: int, p: int|
                    0 <= j < ms.len() && ms[j].1 <= p < (if j + 1 < ms.len() {
                        ms[j + 1].0
                    } else {
                        t.len() as int
                    }) implies #[trigger] tag_at(t, p) is None && #[trigger] ms[j] == ms[j] by {
                    if j > 0 {
                        assert(ms[j] == rest[j - 1]);
                        if j + 1 < ms.len() {
                            assert(ms[j + 1] == rest[j]);
                        }
                        assert(rest[j - 1] == rest[j - 1]);
                    } else {
                        if 1 < ms.len() {
                            assert(ms[1] == rest[0]);
                        }
                    }
                }
            },
            None => {
                lemma_tags_from_facts(t, i + 1);
            },
        }
    }
}

proof fn lemma_ascii_word_case(c: char)
    requires
        ascii_word(c),
    ensures
        ascii_word(ascii_lower_char(c)) && is_ascii_char(ascii_lower_char(c)),
        ascii_word(ascii_upper_char(c)) && is_ascii_char(ascii_upper_char(c)),
{
}

proof fn lemma_decimal_digits(n: nat)
    ensures
        forall|j: int| 0 <= j < decimal(n).len() ==> '0' <= #[trigger] decimal(n)[j] <= '9',
    decreases n,
{
    if n >= 10 {
        lemma_decimal_digits(n / 10);
        assert forall|j: int| 0 <= j < decimal(n).len() implies '0' <= #[trigger] decimal(n)[j] <= '9' by {
            if j < decimal(n / 10).len() {
                assert(decimal(n)[j] == decimal(n / 10)[j]);
            }
        }
    }
}

/// The label of a tag whose name is ASCII has a space and no braces.
proof fn lemma_label_ok(name: Seq<char>, n: nat)
    requires
        name.len() >= 1,
        forall|j: int| 0 <= j < name.len() ==> ascii_word(#[trigger] name[j]),
    ensures
        label_ok(tag_label(lower_text(name), n)),
{
    assert(is_ascii_text(name));
    let tag = name.map_values(|c: char| ascii_lower_char(c));
    assert(lower_text(name) == tag);
    assert forall|j: int| 0 <= j < tag.len() implies ascii_word(#[trigger] tag[j]) by {
        lemma_ascii_word_case(name[j]);
    }
    lemma_ascii_word_case(tag[0]);
    let cap = capitalize_spec(tag);
    assert(cap == seq![ascii_upper_char(tag[0])] + tag.skip(1));
    assert forall|j: int| 0 <= j < cap.len() implies ascii_word(#[trigger] cap[j]) by {
        if j > 0 {
            assert(cap[j] == tag[j]);
        }
    }
    lemma_decimal_digits(n);
    let l = tag_label(tag, n);
    assert(l == cap + seq![' '] + decimal(n));
    assert(l[cap.len() as int] == ' ');
    assert forall|j: int| 0 <= j < l.len() implies #[trigger] l[j] != '{' && l[j] != '}' by {
        if j < cap.len() {
            assert(l[j] == cap[j]);
        } else if j > cap.len() {
            assert(l[j] == decimal(n)[j - cap.len() - 1]);
        }
    }
}

/// Text `out` without a spelled-out tag, ending in a label (or empty), then
/// text of `t` in which no tag starts, then text without a closing brace:
/// still no tag is spelled out.
proof fn lemma_append_no_spelled(out: Seq<char>, g: Seq<char>, l: Seq<char>, t: Seq<char>, base: int)
    requires
        no_spelled_tag(out),
        out.len() == 0 || exists|pre: Seq<char>, l0: Seq<char>| out == pre + l0 && label_ok(l0),
        0 <= base,
        base + g.len() <= t.len(),
        g == t.subrange(base, base + g.len()),
        forall|p: int| base <= p < base + g.len() ==> (#[trigger] tag_at(t, p)) is None,
        forall|j: int| 0 <= j < l.len() ==> #[trigger] l[j] != '}',
    ensures
        no_spelled_tag(out + g + l),
{
    let x = out + g + l;
    let a = out.len() as int;
    let b = a + g.len();
    assert(!word_char(' '));
    assert forall|q: int, k: int| !#[trigger] spelled_tag(x, q, k) by {
        if spelled_tag(x, q, k) {
            let e = q + k + 4;
            if e > b {
                assert(x[e - 1] == l[e - 1 - b]);
            } else if q >= a {
                let p0 = base + q - a;
                assert forall|m: int| q <= m < e implies x[m] == #[trigger] t[base + m - a] by {
                    assert(x[m] == g[m - a]);
                }
                assert(spelled_tag(t, p0, k)) by {
                    assert forall|j: int| p0 + 2 <= j < p0 + 2 + k implies word_char(#[trigger] t[j]) by {
                        assert(x[j - base + a] == t[j]);
                    }
                    assert(x[q] == t[p0]);
                    assert(x[q + 1] == t[p0 + 1]);
                    assert(x[q + 2 + k] == t[p0 + 2 + k]);
                    assert(x[q + 3 + k] == t[p0 + 3 + k]);
                }
                lemma_spelled_is_tag(t, p0, k);
            } else if e <= a {
                assert(spelled_tag(out, q, k)) by {
                    assert forall|j: int| q + 2 <= j < q + 2 + k implies word_char(#[trigger] out[j]) by {
                        assert(x[j] == out[j]);
                    }
                }
            } else {
                let (pre, l0) = choose|pre: Seq<char>, l0: Seq<char>| out == pre + l0 && label_ok(l0);
                let sp0 = choose|sp: int| 0 <= sp < l0.len() && l0[sp] == ' ';
                let sp = pre.len() + sp0;
                assert(x[sp] == ' ');
                if q >= pre.len() {
                    assert(x[q] == l0[q - pre.len()]);
                } else if sp == q || sp == q + 1 {
                } else if sp < q + 2 + k {
                    assert(word_char(x[sp]));
                } else {
                }
            }
        }
    }
}

/// What the tags of a text whose tag names are ASCII become: with the
/// first `j` tags replaced by their labels, the text so far spells out no
/// tag and ends in a label.
proof fn lemma_fold_no_spelled(acc: TagAcc, p: PageView, bi: int, t: Seq<char>, j: int)
    requires
        0 <= j <= tags_from(t, 0).len(),
        forall|m: int| 0 <= m < tags_from(t, 0).len() ==> is_ascii_text(#[trigger] tags_from(t, 0)[m].2),
    ensures
        ({
            let ms = tags_from(t, 0);
            let (a, out, last) = tag_fold(acc, p, bi, t, ms.take(j));
            &&& last == (if j == 0 {
                0
            } else {
                ms[j - 1].1
            })
            &&& no_spelled_tag(out)
            &&& out.len() == 0 || exists|pre: Seq<char>, l0: Seq<char>| out == pre + l0 && label_ok(l0)
        }),
    decreases j,
{
    let ms = tags_from(t, 0);
    lemma_tags_from_facts(t, 0);
    if j == 0 {
        assert(ms.take(0) =~= Seq::<(int, int, Seq<char>)>::empty());
        assert forall|q: int, k: int| !#[trigger] spelled_tag(Seq::<char>::empty(), q, k) by {}
    } else {
        lemma_fold_no_spelled(acc, p, bi, t, j - 1);
        assert(ms.take(j).drop_last() =~= ms.take(j - 1));
        assert(ms.take(j).last() == ms[j - 1]);
        let (a1, out1, last1) = tag_fold(acc, p, bi, t, ms.take(j - 1));
        let (s, e, name) = ms[j - 1];
        let (a2, label) = tag_event(a1, p, bi, name);
        let g = t.subrange(last1, s);
        assert(tag_at(t, s) == Some((e, name)));
        lemma_word_run_chars(t, s + 2);
        assert(name == t.subrange(s + 2, s + 2 + word_run(t, s + 2)));
        assert forall|m: int| 0 <= m < name.len() implies ascii_word(#[trigger] name[m]) by {
            assert(name[m] == t[s + 2 + m]);
            assert(word_char(t[s + 2 + m]));
            assert(is_ascii_char(name[m]));
        }
        let tag = lower_text(name);
        let cnt: nat = (if a1.counters.contains_key(tag) {
            a1.counters[tag]
        } else {
            0
        }) + 1;
        assert(label == tag_label(tag, cnt));
        lemma_label_ok(name, cnt);
        if j >= 2 {
            assert(ms[j - 2] == ms[j - 2]);
        }
        lemma_append_no_spelled(out1, g, label, t, last1);
        assert(tag_fold(acc, p, bi, t, ms.take(j)).1 == out1 + g + label);
        assert(out1 + g + label == (out1 + g) + label);
    }
}

/// The text of a prose block after its tags, if their names are ASCII,
/// are replaced by labels spells out no tag.
proof fn lemma_rewrite_tag_free(acc: TagAcc, p: PageView, bi: int, t: Seq<char>)
    requires
        forall|m: int| 0 <= m < tags_from(t, 0).len() ==> is_ascii_text(#[trigger] tags_from(t, 0)[m].2),
    ensures
        ({
            let (a, out, last) = tag_fold(acc, p, bi, t, tags_from(t, 0));
            tags_from(out + t.skip(last), 0).len() == 0
        }),
{
    let ms = tags_from(t, 0);
    lemma_tags_from_facts(t, 0);
    lemma_fold_no_spelled(acc, p, bi, t, ms.len() as int);
    assert(ms.take(ms.len() as int) =~= ms);
    let (a, out, last) = tag_fold(acc, p, bi, t, ms);
    let g = t.skip(last);
    assert(g == t.subrange(last, last + g.len()));
    if ms.len() > 0 {
        assert(ms[ms.len() - 1] == ms[ms.len() - 1]);
    }
    assert forall|j: int| 0 <= j < Seq::<char>::empty().len() implies #[trigger] Seq::<char>::empty()[j]
        != '}' by {}
    lemma_append_no_spelled(out, g, Seq::empty(), t, last);
    assert(out + g + Seq::<char>::empty() =~= out + g);
    lemma_no_spelled_tag_free(out + g, 0);
}

/// Every tag name in the prose of the pages is ASCII.
pub open spec fn ascii_tags(ps: Seq<PageView>) -> bool {
    forall|k: int, i: int|
        0 <= k < ps.len() && 0 <= i < ps[k].blocks.len() ==> match #[trigger] ps[k].blocks[i] {
            BlockView::Prose(t) => forall|m: int|
                0 <= m < tags_from(t, 0).len() ==> is_ascii_text(#[trigger] tags_from(t, 0)[m].2),
            _ => true,
        }
}

proof fn lemma_page_fold_blocks(acc: TagAcc, p: PageView, k: int)
    requires
        0 <= k,
    ensures
        forall|i: int|
            0 <= i < k ==> #[trigger] page_fold(acc, p, k).1[i] == rewrite_block(
                page_fold(acc, p, i).0,
                p,
                i,
            ).1,
    decreases k,
{
    if k > 0 {
        lemma_page_fold_blocks(acc, p, k - 1);
        lemma_page_fold_len(acc, p, k - 1);
        let bs = page_fold(acc, p, k - 1).1;
        assert forall|i: int| 0 <= i < k - 1 implies #[trigger] page_fold(acc, p, k).1[i] == bs[i] by {}
    }
}

proof fn lemma_tags_leave_no_tag(ps: Seq<PageView>)
    requires
        ascii_tags(ps),
    ensures
        tag_free(tags_spec(ps).1),
    decreases ps.len(),
{
    if ps.len() > 0 {
        let d = ps.drop_last();
        assert forall|k: int, i: int| 0 <= k < d.len() && 0 <= i < d[k].blocks.len() implies match #[trigger] d[k].blocks[i] {
            BlockView::Prose(t) => forall|m: int|
                0 <= m < tags_from(t, 0).len() ==> is_ascii_text(#[trigger] tags_from(t, 0)[m].2),
            _ => true,
        } by {
            assert(d[k] == ps[k]);
            assert(ps[k].blocks[i] == d[k].blocks[i]);
        }
        lemma_tags_leave_no_tag(d);
        let (x, prev) = tags_spec(d);
        let p = ps.last();
        let start = TagAcc {
            counters: Map::empty(),
            anchors: Map::empty(),
            xref: x.xref,
            label_xref: x.label_xref,
        };
        let bs = page_fold(start, p, p.blocks.len() as int).1;
        lemma_page_fold_shape(start, p, p.blocks.len() as int);
        lemma_page_fold_blocks(start, p, p.blocks.len() as int);
        let out = tags_spec(ps).1;
        lemma_tags_spec_len(d);
        assert forall|k: int, i: int| 0 <= k < out.len() && 0 <= i < out[k].blocks.len() implies match #[trigger] out[k].blocks[i] {
            BlockView::Prose(t) => tags_from(t, 0).len() == 0,
            _ => true,
        } by {
            if k < out.len() - 1 {
                assert(out[k] == prev[k]);
            } else {
                assert(out[k].blocks == bs);
                let a = page_fold(start, p, i).0;
                assert(bs[i] == rewrite_block(a, p, i).1);
                match p.blocks[i] {
                    BlockView::Prose(t) => {
                        assert(ps[ps.len() - 1].blocks[i] == p.blocks[i]);
                        lemma_rewrite_tag_free(a, p, i, t);
                    },
                    _ => {},
                }
            }
        }
    }
}

/// Tag processing a second time changes nothing: where every tag name is
/// ASCII, the processed pages hold no tag, so processing them again gives
/// them back as they are, with no cross-references, no labels and an empty
/// anchor table for each module, and their counts fit.
pub proof fn lemma_tags_twice(ps: Seq<PageView>)
    requires
        ascii_tags(ps),
    ensures
        ({
            let out = tags_spec(ps).1;
            &&& counts_fit(out)
            &&& tags_spec(out).1 == out
            &&& tags_spec(out).0.xref == Map::<Seq<char>, XrefEntryView>::empty()
            &&& tags_spec(out).0.label_xref == Map::<Seq<char>, Seq<char>>::empty()
            &&& tags_spec(out).0.anchors == Map::new(
                |m: Seq<char>| is_module(ps, m),
                |m: Seq<char>| Map::<usize, Seq<char>>::empty(),
            )
        }),
{
    let out = tags_spec(ps).1;
    lemma_tags_leave_no_tag(ps);
    lemma_tags_tag_free(out);
    lemma_tags_keep_pages(ps);
    assert forall|k: int| 0 <= k < out.len() implies counts_bounded(page_counts(#[trigger] out[k])) by {
        let p = out[k];
        assert forall|i: int| 0 <= i < p.blocks.len() implies match #[trigger] p.blocks[i] {
            BlockView::Prose(t) => tags_from(t, 0).len() == 0,
            _ => true,
        } by {
            assert(out[k].blocks[i] == p.blocks[i]);
        }
        lemma_page_fold_tag_free(empty_acc(), p, p.blocks.len() as int);
    }
    assert forall|m: Seq<char>| is_module(out, m) <==> is_module(ps, m) by {
        if is_module(out, m) {
            let i = choose|i: int| 0 <= i < out.len() && (#[trigger] out[i]).module == m;
            assert(ps[i].module == m);
        }
        if is_module(ps, m) {
            let i = choose|i: int| 0 <= i < ps.len() && (#[trigger] ps[i]).module == m;
            assert(out[i].module == m);
        }
    }
    assert(tags_spec(out).0.anchors =~= Map::new(
        |m: Seq<char>| is_module(ps, m),
        |m: Seq<char>| Map::<usize, Seq<char>>::empty(),
    ));
}

/// `href` links label `l` on one of the pages: the page's file, `#`, and the
/// label's anchor id.
pub open spec fn links_label(ps: Seq<PageView>, l: Seq<char>, href: Seq<char>) -> bool {
    exists|k: int|
        0 <= k < ps.len() && href == page_file_spec((#[trigger] ps[k]).module) + seq!['#']
            + anchor_id_spec(l)
}

/// A cross-reference entry points at its label on one of the pages, and
/// names that page's title.
pub open spec fn links_entry(ps: Seq<PageView>, e: XrefEntryView) -> bool {
    exists|k: int|
        0 <= k < ps.len() && e.href == page_file_spec((#[trigger] ps[k]).module) + seq!['#']
            + anchor_id_spec(e.label) && e.page_title == ps[k].title
}

/// A label of a tag: a kind with its first letter capitalized and a
/// number from 1 on.
pub open spec fn is_tag_label(l: Seq<char>) -> bool {
    exists|tag: Seq<char>, n: nat| n >= 1 && l == #[trigger] tag_label(tag, n)
}

/// Every label and cross-reference in the tables points at a page.
pub open spec fn tables_link(
    ps: Seq<PageView>,
    lx: Map<Seq<char>, Seq<char>>,
    x: Map<Seq<char>, XrefEntryView>,
) -> bool {
    &&& forall|l: Seq<char>| #[trigger] lx.contains_key(l) ==> links_label(ps, l, lx[l]) && is_tag_label(l)
    &&& forall|d: Seq<char>| #[trigger] x.contains_key(d) ==> links_entry(ps, x[d]) && is_tag_label(x[d].label)
}

proof fn lemma_tag_event_links(acc: TagAcc, ps: Seq<PageView>, k: int, i: int, name: Seq<char>)
    requires
        0 <= k < ps.len(),
        tables_link(ps, acc.label_xref, acc.xref),
    ensures
        tables_link(ps, tag_event(acc, ps[k], i, name).0.label_xref, tag_event(acc, ps[k], i, name).0.xref),
{
    let p = ps[k];
    let (a2, label) = tag_event(acc, p, i, name);
    let tag = lower_text(name);
    let n: nat = (if acc.counters.contains_key(tag) { acc.counters[tag] } else { 0 }) + 1;
    assert(label == tag_label(tag, n));
    assert(is_tag_label(label));
    assert(links_label(ps, label, a2.label_xref[label]));
    assert forall|d: Seq<char>| #[trigger] a2.xref.contains_key(d) implies links_entry(ps, a2.xref[d])
        && is_tag_label(a2.xref[d].label) by {
        match next_decl(p.blocks, i + 1) {
            Some(dd) => {
                if d == dd {
                    assert(links_entry(ps, a2.xref[d]));
                }
            },
            None => {},
        }
    }
}

proof fn lemma_tag_fold_links(
    acc: TagAcc,
    ps: Seq<PageView>,
    k: int,
    i: int,
    t: Seq<char>,
    ms: Seq<(int, int, Seq<char>)>,
)
    requires
        0 <= k < ps.len(),
        tables_link(ps, acc.label_xref, acc.xref),
    ensures
        tables_link(ps, tag_fold(acc, ps[k], i, t, ms).0.label_xref, tag_fold(acc, ps[k], i, t, ms).0.xref),
    decreases ms.len(),
{
    if ms.len() > 0 {
        lemma_tag_fold_links(acc, ps, k, i, t, ms.drop_last());
        let (a, out, last) = tag_fold(acc, ps[k], i, t, ms.drop_last());
        lemma_tag_event_links(a, ps, k, i, ms.last().2);
    }
}

proof fn lemma_page_fold_links(acc: TagAcc, ps: Seq<PageView>, k: int, j: int)
    requires
        0 <= k < ps.len(),
        0 <= j <= ps[k].blocks.len(),
        tables_link(ps, acc.label_xref, acc.xref),
    ensures
        tables_link(ps, page_fold(acc, ps[k], j).0.label_xref, page_fold(acc, ps[k], j).0.xref),
    decreases j,
{
    if j > 0 {
        lemma_page_fold_links(acc, ps, k, j - 1);
        let (a, bs) = page_fold(acc, ps[k], j - 1);
        match ps[k].blocks[j - 1] {
            BlockView::Prose(t) => {
                lemma_tag_fold_links(a, ps, k, j - 1, t, tags_from(t, 0));
            },
            _ => {},
        }
    }
}

proof fn lemma_tables_link_extend(ps: Seq<PageView>, lx: Map<Seq<char>, Seq<char>>, x: Map<Seq<char>, XrefEntryView>)
    requires
        ps.len() > 0,
        tables_link(ps.drop_last(), lx, x),
    ensures
        tables_link(ps, lx, x),
{
    let q = ps.drop_last();
    assert forall|l: Seq<char>| #[trigger] lx.contains_key(l) implies links_label(ps, l, lx[l]) by {
        let k = choose|k: int|
            0 <= k < q.len() && lx[l] == page_file_spec((#[trigger] q[k]).module) + seq!['#']
                + anchor_id_spec(l);
        assert(ps[k] == q[k]);
    }
    assert forall|d: Seq<char>| #[trigger] x.contains_key(d) implies links_entry(ps, x[d]) by {
        let k = choose|k: int|
            0 <= k < q.len() && x[d].href == page_file_spec((#[trigger] q[k]).module) + seq!['#']
                + anchor_id_spec(x[d].label) && x[d].page_title == q[k].title;
        assert(ps[k] == q[k]);
    }
}

/// Every label that tag processing links points at the page where the tag
/// stood: that page's file, `#`, and the label's anchor id; and every
/// cross-reference entry points the same way at its label, with the title of
/// that page. Every such label is a kind with a capital and a number from 1.
pub proof fn lemma_tags_link_pages(ps: Seq<PageView>)
    ensures
        tables_link(ps, tags_spec(ps).0.label_xref, tags_spec(ps).0.xref),
    decreases ps.len(),
{
    if ps.len() > 0 {
        lemma_tags_link_pages(ps.drop_last());
        let (x, prev) = tags_spec(ps.drop_last());
        lemma_tables_link_extend(ps, x.label_xref, x.xref);
        let p = ps.last();
        let start = TagAcc {
            counters: Map::empty(),
            anchors: Map::empty(),
            xref: x.xref,
            label_xref: x.label_xref,
        };
        lemma_page_fold_links(start, ps, ps.len() - 1, p.blocks.len() as int);
    }
}

// ---------------------------------------------------------------------------
// Backlinks
// ---------------------------------------------------------------------------

/// The number of times `m` occurs in `s`.
pub open spec fn count_of(s: Seq<Seq<char>>, m: Seq<char>) -> nat
    decreases s.len(),
{
    if s.len() == 0 {
        0
    } else {
        count_of(s.drop_last(), m) + if s.last() == m {
            1nat
        } else {
            0nat
        }
    }
}

/// `m` is the module of one of the pages.
pub open spec fn is_module(ps: Seq<PageView>, m: Seq<char>) -> bool {
    exists|i: int| 0 <= i < ps.len() && (#[trigger] ps[i]).module == m
}

/// The indices of the first `k` pages that import `m`, in order, once per
/// import line.
pub open spec fn importers(ps: Seq<PageView>, m: Seq<char>, k: int) -> Seq<usize>
    decreases k,
{
    if k <= 0 {
        Seq::empty()
    } else {
        importers(ps, m, k - 1) + Seq::new(count_of(ps[k - 1].imports, m), |_j: int| (k - 1) as usize)
    }
}

/// For each module of the pages, the pages that import it.
pub open spec fn backlinks_spec(ps: Seq<PageView>) -> Map<Seq<char>, Seq<usize>> {
    Map::new(|m: Seq<char>| is_module(ps, m), |m: Seq<char>| importers(ps, m, ps.len() as int))
}

fn importers_exec(pages: &Vec<Page>, m: &String) -> (r: Vec<usize>)
    ensures
        r@ == importers(crate::parse::page_views(pages@), m@, pages@.len() as int),
{
    let ghost ps = crate::parse::page_views(pages@);
    let mut r: Vec<usize> = Vec::new();
    let mut k: usize = 0;
    while k < pages.len()
        invariant
            k <= pages.len(),
            ps == crate::parse::page_views(pages@),
            r@ == importers(ps, m@, k as int),
        decreases pages.len() - k,
    {
        let imports = &pages[k].imports;
        let ghost imps = ps[k as int].imports;
        let ghost base = r@;
        let mut j: usize = 0;
        assert(imps == crate::parse::string_views(imports@));
        while j < imports.len()
            invariant
                j <= imports.len(),
                imps == crate::parse::string_views(imports@),
                r@ == base + Seq::new(count_of(imps.take(j as int), m@), |_i: int| k),
            decreases imports.len() - j,
        {
            assert(imps.take(j + 1).drop_last() =~= imps.take(j as int));
            if imports[j] == *m {
                r.push(k);
                assert(r@ =~= base + Seq::new(count_of(imps.take(j + 1), m@), |_i: int| k));
            } else {
                assert(r@ =~= base + Seq::new(count_of(imps.take(j + 1), m@), |_i: int| k));
            }
            j = j + 1;
        }
        assert(imps.take(imports@.len() as int) =~= imps);
        k = k + 1;
        assert(r@ =~= importers(ps, m@, k as int));
    }
    r
}

/// Every page index in the backlink lists is below `n`.
pub open spec fn backlinks_in_range(bl: Map<Seq<char>, Seq<usize>>, n: int) -> bool {
    forall|m: Seq<char>, k: int|
        bl.contains_key(m) && 0 <= k < bl[m].len() ==> (#[trigger] bl[m][k]) < n
}

proof fn lemma_importers_range(ps: Seq<PageView>, m: Seq<char>, k: int)
    ensures
        forall|j: int| 0 <= j < importers(ps, m, k).len() ==> (#[trigger] importers(ps, m, k)[j]) < k,
    decreases k,
{
    if k > 0 {
        lemma_importers_range(ps, m, k - 1);
        let a = importers(ps, m, k - 1);
        let r = importers(ps, m, k);
        assert forall|j: int| 0 <= j < r.len() implies (#[trigger] r[j]) < k by {
            if j < a.len() {
                assert(r[j] == a[j]);
            }
        }
    }
}

proof fn lemma_count_of_pos(s: Seq<Seq<char>>, m: Seq<char>)
    ensures
        count_of(s, m) > 0 <==> s.contains(m),
    decreases s.len(),
{
    if s.len() > 0 {
        lemma_count_of_pos(s.drop_last(), m);
        if s.drop_last().contains(m) {
            let j = choose|j: int| 0 <= j < s.len() - 1 && s.drop_last()[j] == m;
            assert(s[j] == m);
        }
        if s.contains(m) && s.last() != m {
            let j = choose|j: int| 0 <= j < s.len() && s[j] == m;
            assert(s.drop_last()[j] == m);
        }
    }
}

proof fn lemma_importers_contains(ps: Seq<PageView>, m: Seq<char>, k: int, i: int)
    requires
        0 <= i < ps.len(),
        k <= ps.len() <= usize::MAX,
    ensures
        importers(ps, m, k).contains(i as usize) <==> (i < k && count_of(ps[i].imports, m) > 0),
    decreases k,
{
    if k > 0 {
        lemma_importers_contains(ps, m, k - 1, i);
        let a = importers(ps, m, k - 1);
        let r = importers(ps, m, k);
        if r.contains(i as usize) {
            let j = choose|j: int| 0 <= j < r.len() && r[j] == i as usize;
            if j >= a.len() {
                assert(r[j] == (k - 1) as usize);
            } else {
                assert(a[j] == r[j]);
            }
        }
        if i < k - 1 && count_of(ps[i].imports, m) > 0 {
            let j = choose|j: int| 0 <= j < a.len() && a[j] == i as usize;
            assert(r[j] == a[j]);
        }
        if i == k - 1 && count_of(ps[i].imports, m) > 0 {
            assert(r[a.len() as int] == (k - 1) as usize);
        }
    }
}

/// The backlinks name exactly the modules of the pages, and list for each
/// of them exactly the pages that import it.
pub proof fn lemma_backlinks_are_importers(ps: Seq<PageView>, m: Seq<char>, i: int)
    requires
        0 <= i < ps.len() <= usize::MAX,
    ensures
        backlinks_spec(ps).contains_key(m) <==> is_module(ps, m),
        is_module(ps, m) ==> (backlinks_spec(ps)[m].contains(i as usize) <==> ps[i].imports.contains(
            m,
        )),
{
    lemma_importers_contains(ps, m, ps.len() as int, i);
    lemma_count_of_pos(ps[i].imports, m);
}

/// Returns a map: module → list of pages that import it.
pub fn compute_backlinks(pages: &Vec<Page>) -> (r: StrMap<Vec<usize>>)
    ensures
        r@ == backlinks_spec(crate::parse::page_views(pages@)),
        backlinks_in_range(r@, pages@.len() as int),
{
    let ghost ps = crate::parse::page_views(pages@);
    let mut r: StrMap<Vec<usize>> = StrMap::new();
    let mut j: usize = 0;
    assert(r@ =~= Map::new(
        |m: Seq<char>| exists|i: int| 0 <= i < 0 && (#[trigger] ps[i]).module == m,
        |m: Seq<char>| importers(ps, m, ps.len() as int),
    ));
    while j < pages.len()
        invariant
            j <= pages.len(),
            ps == crate::parse::page_views(pages@),
            r@ == Map::new(
                |m: Seq<char>| exists|i: int| 0 <= i < j && (#[trigger] ps[i]).module == m,
                |m: Seq<char>| importers(ps, m, ps.len() as int),
            ),
        decreases pages.len() - j,
    {
        let m = &pages[j].module;
        let list = importers_exec(pages, m);
        r.insert(m.clone(), list);
        assert(ps[j as int].module == m@);
        assert(r@ =~= Map::new(
            |m: Seq<char>| exists|i: int| 0 <= i < j + 1 && (#[trigger] ps[i]).module == m,
            |m: Seq<char>| importers(ps, m, ps.len() as int),
        ));
        j = j + 1;
    }
    assert(r@ =~= backlinks_spec(ps));
    assert forall|m: Seq<char>, k: int|
        r@.contains_key(m) && 0 <= k < r@[m].len() implies (#[trigger] r@[m][k]) < pages@.len() by {
        lemma_importers_range(ps, m, ps.len() as int);
    }
    r
}

} // verus!
