//! Reading a leandown-annotated Lean file into a [`Page`].
//!
//! A page starts at a `-- leandown` line; an optional `-- [meta]` section of
//! TOML comment lines follows, then `-- [content]`, after which comment lines
//! are prose and the other lines are code.

use vstd::prelude::*;
use crate::outside::{stripped_path, strip_path_prefix};
use crate::text::{
    chars_of, ends_with, equals_str, extend_str, is_blank, is_blank_exec, is_ws, join, join_exec,
    lines, lines_of, occurs_at_exec, replace_char, skip_word, skip_ws, slice_chars, starts_with,
    starts_with_str, string_of, trim, trim_start, trim_vec, views, word_len,
};

verus! {

broadcast use vstd::string::group_string_axioms;

/// One block of page content.
#[derive(Clone, Debug)]
pub enum Block {
    Prose(String),
    Code(String),
    /// Opens a collapsible section with the given label.
    HiddenOpen(String),
    HiddenClose,
}

/// The content of a [`Block`].
pub enum BlockView {
    Prose(Seq<char>),
    Code(Seq<char>),
    HiddenOpen(Seq<char>),
    HiddenClose,
}

impl View for Block {
    type V = BlockView;

    open spec fn view(&self) -> BlockView {
        match self {
            Block::Prose(t) => BlockView::Prose(t@),
            Block::Code(t) => BlockView::Code(t@),
            Block::HiddenOpen(l) => BlockView::HiddenOpen(l@),
            Block::HiddenClose => BlockView::HiddenClose,
        }
    }
}

/// The blocks of a vector, as values.
pub open spec fn block_views(bs: Seq<Block>) -> Seq<BlockView> {
    bs.map_values(|b: Block| b@)
}

/// The strings of a vector, as character sequences.
pub open spec fn string_views(v: Seq<String>) -> Seq<Seq<char>> {
    v.map_values(|s: String| s@)
}

/// A parsed page.
#[derive(Clone, Debug)]
pub struct Page {
    pub path: String,
    pub module: String,
    pub title: String,
    pub group: String,
    pub imports: Vec<String>,
    pub blocks: Vec<Block>,
    pub raw: String,
}

/// The content of a [`Page`].
pub struct PageView {
    pub path: Seq<char>,
    pub module: Seq<char>,
    pub title: Seq<char>,
    pub group: Seq<char>,
    pub imports: Seq<Seq<char>>,
    pub blocks: Seq<BlockView>,
    pub raw: Seq<char>,
}

impl View for Page {
    type V = PageView;

    open spec fn view(&self) -> PageView {
        PageView {
            path: self.path@,
            module: self.module@,
            title: self.title@,
            group: self.group@,
            imports: string_views(self.imports@),
            blocks: block_views(self.blocks@),
            raw: self.raw@,
        }
    }
}

/// The pages of a vector, as values.
pub open spec fn page_views(ps: Seq<Page>) -> Seq<PageView> {
    ps.map_values(|p: Page| p@)
}

/// The fields of a page's `[meta]` section.
pub struct Meta {
    pub title: Option<String>,
    pub group: Option<String>,
}

impl Default for Meta {
    fn default() -> (m: Meta)
        ensures
            m.title is None,
            m.group is None,
    {
        Meta { title: None, group: None }
    }
}

// ---------------------------------------------------------------------------
// Module and file names
// ---------------------------------------------------------------------------

/// `s` with every trailing occurrence of `suffix` removed.
pub open spec fn trim_suffixes(s: Seq<char>, suffix: Seq<char>) -> Seq<char>
    decreases s.len(),
{
    if suffix.len() > 0 && ends_with(s, suffix) {
        trim_suffixes(s.take(s.len() - suffix.len()), suffix)
    } else {
        s
    }
}

/// The module named by a path relative to the project root: separators
/// become dots and the `.lean` extension goes.
pub open spec fn module_name(rel: Seq<char>) -> Seq<char> {
    trim_suffixes(replace_char(rel, '/', '.'), ".lean"@)
}

/// The module of a file: the path is taken relative to `root` where `root`
/// is a prefix of it, and as it is otherwise.
pub open spec fn module_of_spec(path: Seq<char>, root: Seq<char>) -> Seq<char> {
    match stripped_path(path, root) {
        Some(rel) => module_name(rel),
        None => module_name(path),
    }
}

/// The part of `m` after its last `.` (all of `m` if it has none).
pub open spec fn last_segment(m: Seq<char>) -> Seq<char>
    decreases m.len(),
{
    if m.len() == 0 {
        m
    } else if m.last() == '.' {
        Seq::empty()
    } else {
        last_segment(m.drop_last()).push(m.last())
    }
}

/// The output file of a module: its last segment with `.html` appended.
pub open spec fn page_file_spec(module: Seq<char>) -> Seq<char> {
    last_segment(module) + ".html"@
}

fn replace_slashes(v: &Vec<char>) -> (r: Vec<char>)
    ensures
        r@ == replace_char(v@, '/', '.'),
{
    let mut r: Vec<char> = Vec::new();
    let mut i: usize = 0;
    while i < v.len()
        invariant
            i <= v.len(),
            r@ == replace_char(v@.take(i as int), '/', '.'),
        decreases v.len() - i,
    {
        let c = v[i];
        r.push(if c == '/' { '.' } else { c });
        i = i + 1;
        assert(replace_char(v@.take(i as int), '/', '.') =~= replace_char(
            v@.take((i - 1) as int),
            '/',
            '.',
        ).push(if c == '/' { '.' } else { c }));
    }
    assert(v@.take(v@.len() as int) =~= v@);
    r
}

fn trim_suffixes_exec(v: &Vec<char>, suffix: &str) -> (r: Vec<char>)
    ensures
        r@ == trim_suffixes(v@, suffix@),
{
    let sv = chars_of(suffix);
    let mut end = v.len();
    assert(v@.take(end as int) =~= v@);
    while sv.len() > 0 && sv.len() <= end && occurs_at_exec(v, &sv, end - sv.len())
        invariant
            end <= v.len(),
            sv@ == suffix@,
            trim_suffixes(v@, suffix@) == trim_suffixes(v@.take(end as int), suffix@),
        decreases end,
    {
        let ghost s = v@.take(end as int);
        assert(s.skip(s.len() - sv@.len()) =~= v@.subrange(end - sv@.len(), end as int));
        assert(s.take(s.len() - sv@.len()) =~= v@.take(end - sv@.len()));
        end = end - sv.len();
    }
    proof {
        let s = v@.take(end as int);
        if sv@.len() > 0 && sv@.len() <= end {
            assert(s.skip(s.len() - sv@.len()) =~= v@.subrange(end - sv@.len(), end as int));
        }
    }
    assert(v@.take(end as int) =~= v@.subrange(0, end as int));
    slice_chars(v, 0, end)
}

/// Derive the module name from a file path relative to the project root.
/// e.g. `Onewayf/Foo.lean` → `Onewayf.Foo`
pub fn module_of(path: &str, root: &str) -> (m: String)
    ensures
        m@ == module_of_spec(path@, root@),
{
    let rel = match strip_path_prefix(path, root) {
        Some(r) => r,
        None => String::from_str(path),
    };
    let v = chars_of(rel.as_str());
    let dotted = replace_slashes(&v);
    let t = trim_suffixes_exec(&dotted, ".lean");
    string_of(&t)
}

pub(crate) fn last_segment_exec(v: &Vec<char>) -> (r: Vec<char>)
    ensures
        r@ == last_segment(v@),
{
    let mut start: usize = 0;
    let mut i: usize = 0;
    while i < v.len()
        invariant
            start <= i <= v.len(),
            last_segment(v@.take(i as int)) == v@.subrange(start as int, i as int),
        decreases v.len() - i,
    {
        assert(v@.take(i + 1).drop_last() =~= v@.take(i as int));
        if v[i] == '.' {
            start = i + 1;
            assert(v@.subrange(start as int, i + 1) =~= Seq::<char>::empty());
        } else {
            assert(v@.subrange(start as int, i + 1) =~= v@.subrange(start as int, i as int).push(
                v@[i as int],
            ));
        }
        i = i + 1;
    }
    assert(v@.take(v@.len() as int) =~= v@);
    slice_chars(v, start, v.len())
}

/// Derive the output HTML filename from a module name.
/// e.g. `Onewayf.Foo` → `Foo.html`
pub fn page_file(module: &str) -> (f: String)
    ensures
        f@ == page_file_spec(module@),
{
    let v = chars_of(module);
    let mut seg = last_segment_exec(&v);
    extend_str(&mut seg, ".html");
    string_of(&seg)
}

// ---------------------------------------------------------------------------
// Content blocks
// ---------------------------------------------------------------------------

/// The kind of block being collected.
#[derive(Clone, Copy)]
pub enum Kind {
    Prose,
    Code,
}

/// The state of block collection: the blocks so far, the kind of the block
/// being collected, and its lines.
pub struct BlockScan {
    pub blocks: Seq<BlockView>,
    pub kind: Option<Kind>,
    pub cur: Seq<Seq<char>>,
}

/// `cur` without its trailing blank lines.
pub open spec fn drop_blank_tail(cur: Seq<Seq<char>>) -> Seq<Seq<char>>
    decreases cur.len(),
{
    if cur.len() > 0 && is_blank(cur.last()) {
        drop_blank_tail(cur.drop_last())
    } else {
        cur
    }
}

/// The blocks after the block being collected is closed: it is added,
/// without trailing blank lines, unless nothing is left of it.
pub open spec fn flushed(st: BlockScan) -> Seq<BlockView> {
    let c = drop_blank_tail(st.cur);
    if c.len() == 0 {
        st.blocks
    } else {
        match st.kind {
            Some(Kind::Prose) => st.blocks.push(BlockView::Prose(join(c, seq!['\n']))),
            Some(Kind::Code) => st.blocks.push(BlockView::Code(join(c, seq!['\n']))),
            None => st.blocks,
        }
    }
}

/// The label of a trimmed line `-- [hidden]` or `-- [hidden: label]`
/// (`Details` when none is given), or `None` for any other line.
pub open spec fn hidden_label(s: Seq<char>) -> Option<Seq<char>> {
    let p = "-- [hidden"@;
    if s.len() > p.len() && s.take(p.len() as int) == p && s.last() == ']' {
        let mid = s.subrange(p.len() as int, s.len() - 1);
        if mid.len() == 0 {
            Some("Details"@)
        } else if mid[0] == ':' && mid.len() >= 2 {
            Some(trim(mid.skip(1)))
        } else {
            None
        }
    } else {
        None
    }
}

/// A trimmed line that is a comment: `--` alone or followed by a space.
pub open spec fn is_comment(s: Seq<char>) -> bool {
    starts_with(s, "-- "@) || s == "--"@
}

/// The text of a comment line after `-- `.
pub open spec fn comment_text(s: Seq<char>) -> Seq<char> {
    if starts_with(s, "-- "@) {
        s.skip("-- "@.len() as int)
    } else {
        Seq::empty()
    }
}

/// One line of content added to the scan.
pub open spec fn block_step(st: BlockScan, line: Seq<char>) -> BlockScan {
    let s = trim(line);
    if hidden_label(s) is Some {
        BlockScan {
            blocks: flushed(st).push(BlockView::HiddenOpen(hidden_label(s)->0)),
            kind: None,
            cur: Seq::empty(),
        }
    } else if s == "-- [/hidden]"@ {
        BlockScan { blocks: flushed(st).push(BlockView::HiddenClose), kind: None, cur: Seq::empty() }
    } else if is_comment(s) {
        let base = if st.kind == Some(Kind::Code) {
            BlockScan { blocks: flushed(st), kind: st.kind, cur: Seq::empty() }
        } else {
            st
        };
        BlockScan { blocks: base.blocks, kind: Some(Kind::Prose), cur: base.cur.push(comment_text(s)) }
    } else if s.len() == 0 {
        if st.kind is Some {
            BlockScan { blocks: st.blocks, kind: st.kind, cur: st.cur.push(Seq::empty()) }
        } else {
            st
        }
    } else {
        let base = if st.kind == Some(Kind::Prose) {
            BlockScan { blocks: flushed(st), kind: st.kind, cur: Seq::empty() }
        } else {
            st
        };
        BlockScan { blocks: base.blocks, kind: Some(Kind::Code), cur: base.cur.push(line) }
    }
}

/// The scan after all of `lines`.
pub open spec fn block_scan(lines: Seq<Seq<char>>) -> BlockScan
    decreases lines.len(),
{
    if lines.len() == 0 {
        BlockScan { blocks: Seq::empty(), kind: None, cur: Seq::empty() }
    } else {
        block_step(block_scan(lines.drop_last()), lines.last())
    }
}

/// The blocks of a page's content lines.
pub open spec fn blocks_of(lines: Seq<Seq<char>>) -> Seq<BlockView> {
    flushed(block_scan(lines))
}

/// A content line that, once trimmed, is empty or a comment (`--` alone or
/// followed by a space) other than a hidden-section marker.
pub open spec fn prose_or_blank(l: Seq<char>) -> bool {
    let s = trim(l);
    s.len() == 0 || ((starts_with(s, "-- "@) || s == "--"@) && hidden_label(s) is None && s
        != "-- [/hidden]"@)
}

/// What a prose or blank line contributes to its prose block: the text
/// after `-- `, or nothing.
pub open spec fn prose_text_of(l: Seq<char>) -> Seq<char> {
    let s = trim(l);
    if starts_with(s, "-- "@) {
        s.skip(3)
    } else {
        Seq::empty()
    }
}

/// A run of comment and blank lines that starts with a comment and ends
/// with a comment holding text is one prose block: the texts of its lines in
/// order, blank lines kept as empty lines, joined by newlines.
pub proof fn lemma_prose_run(ls: Seq<Seq<char>>)
    requires
        ls.len() >= 1,
        forall|i: int| 0 <= i < ls.len() ==> prose_or_blank(#[trigger] ls[i]),
        trim(ls[0]).len() > 0,
        !is_blank(prose_text_of(ls.last())),
    ensures
        blocks_of(ls) == seq![
            BlockView::Prose(join(Seq::new(ls.len(), |i: int| prose_text_of(ls[i])), seq!['\n'])),
        ],
{
    let texts = Seq::new(ls.len(), |i: int| prose_text_of(ls[i]));
    lemma_prose_run_scan(ls, ls.len() as int);
    assert(ls.take(ls.len() as int) =~= ls);
    assert(texts.take(ls.len() as int) =~= texts);
    assert(texts.last() == prose_text_of(ls.last()));
}

proof fn lemma_prose_run_scan(ls: Seq<Seq<char>>, n: int)
    requires
        1 <= n <= ls.len(),
        forall|i: int| 0 <= i < ls.len() ==> prose_or_blank(#[trigger] ls[i]),
        trim(ls[0]).len() > 0,
    ensures
        block_scan(ls.take(n)) == (BlockScan {
            blocks: Seq::empty(),
            kind: Some(Kind::Prose),
            cur: Seq::new(ls.len(), |i: int| prose_text_of(ls[i])).take(n),
        }),
    decreases n,
{
    let texts = Seq::new(ls.len(), |i: int| prose_text_of(ls[i]));
    let l = ls[n - 1];
    let s = trim(l);
    reveal_strlit("-- ");
    reveal_strlit("-- [/hidden]");
    reveal_strlit("--");
    assert(prose_or_blank(ls[n - 1]));
    assert(ls.take(n).drop_last() =~= ls.take(n - 1));
    assert(ls.take(n).last() == l);
    assert(texts.take(n) =~= texts.take(n - 1).push(texts[n - 1]));
    if n == 1 {
        assert(ls.take(0) =~= Seq::<Seq<char>>::empty());
        assert(texts.take(0) =~= Seq::<Seq<char>>::empty());
        assert(s.len() > 0);
        assert(comment_text(s) == prose_text_of(l));
    } else {
        lemma_prose_run_scan(ls, n - 1);
        if s.len() == 0 {
            assert(hidden_label(s) is None);
            assert(s != "-- [/hidden]"@);
            assert(!is_comment(s));
            assert(prose_text_of(l) =~= Seq::<char>::empty());
        } else {
            assert(comment_text(s) == prose_text_of(l));
        }
    }
}

/// A content line that, once trimmed, is empty or not a comment.
pub open spec fn code_or_blank(l: Seq<char>) -> bool {
    let s = trim(l);
    s.len() == 0 || !(starts_with(s, "-- "@) || s == "--"@)
}

/// A run of code and blank lines that starts and ends with code is one
/// code block: its lines as they are, blank lines kept as empty lines,
/// joined by newlines.
pub proof fn lemma_code_run(ls: Seq<Seq<char>>)
    requires
        ls.len() >= 1,
        forall|i: int| 0 <= i < ls.len() ==> code_or_blank(#[trigger] ls[i]),
        trim(ls[0]).len() > 0,
        trim(ls.last()).len() > 0,
    ensures
        blocks_of(ls) == seq![
            BlockView::Code(join(Seq::new(ls.len(), |i: int| if trim(ls[i]).len() == 0 {
                Seq::<char>::empty()
            } else {
                ls[i]
            }), seq!['\n'])),
        ],
{
    let texts = Seq::new(ls.len(), |i: int| if trim(ls[i]).len() == 0 {
        Seq::<char>::empty()
    } else {
        ls[i]
    });
    lemma_code_run_scan(ls, ls.len() as int);
    assert(ls.take(ls.len() as int) =~= ls);
    assert(texts.take(ls.len() as int) =~= texts);
    assert(texts.last() == ls.last());
    assert(!is_blank(ls.last())) by {
        if is_blank(ls.last()) {
            crate::text::lemma_trim_start_shape(ls.last());
            crate::text::lemma_trim_end_shape(trim_start(ls.last()));
        }
    }
}

proof fn lemma_code_run_scan(ls: Seq<Seq<char>>, n: int)
    requires
        1 <= n <= ls.len(),
        forall|i: int| 0 <= i < ls.len() ==> code_or_blank(#[trigger] ls[i]),
        trim(ls[0]).len() > 0,
    ensures
        block_scan(ls.take(n)) == (BlockScan {
            blocks: Seq::empty(),
            kind: Some(Kind::Code),
            cur: Seq::new(ls.len(), |i: int| if trim(ls[i]).len() == 0 {
                Seq::<char>::empty()
            } else {
                ls[i]
            }).take(n),
        }),
    decreases n,
{
    let texts = Seq::new(ls.len(), |i: int| if trim(ls[i]).len() == 0 {
        Seq::<char>::empty()
    } else {
        ls[i]
    });
    let l = ls[n - 1];
    let s = trim(l);
    reveal_strlit("-- ");
    reveal_strlit("-- [/hidden]");
    reveal_strlit("--");
    reveal_strlit("-- [hidden");
    assert(code_or_blank(ls[n - 1]));
    assert(ls.take(n).drop_last() =~= ls.take(n - 1));
    assert(ls.take(n).last() == l);
    assert(texts.take(n) =~= texts.take(n - 1).push(texts[n - 1]));
    assert(hidden_label(s) is None) by {
        if s.len() > 10 && s.take(10) == "-- [hidden"@ {
            assert(s.take(10)[0] == s[0]);
            assert(s.take(10)[1] == s[1]);
            assert(s.take(10)[2] == s[2]);
            assert(s.take(3) =~= "-- "@);
        }
    }
    assert(s != "-- [/hidden]"@) by {
        if s == "-- [/hidden]"@ {
            assert(s.take(3) =~= "-- "@);
        }
    }
    if n == 1 {
        assert(ls.take(0) =~= Seq::<Seq<char>>::empty());
        assert(texts.take(0) =~= Seq::<Seq<char>>::empty());
    } else {
        lemma_code_run_scan(ls, n - 1);
    }
}

fn hidden_label_exec(s: &Vec<char>) -> (r: Option<Vec<char>>)
    ensures
        match r {
            Some(l) => hidden_label(s@) == Some(l@),
            None => hidden_label(s@) is None,
        },
{
    let p = chars_of("-- [hidden");
    if s.len() > p.len() && starts_with_str(s, "-- [hidden") && s[s.len() - 1] == ']' {
        let mid = slice_chars(s, p.len(), s.len() - 1);
        if mid.len() == 0 {
            Some(chars_of("Details"))
        } else if mid[0] == ':' && mid.len() >= 2 {
            let rest = slice_chars(&mid, 1, mid.len());
            assert(rest@ =~= mid@.skip(1));
            Some(trim_vec(&rest))
        } else {
            None
        }
    } else {
        None
    }
}

fn drop_blank_tail_exec(cur: &mut Vec<Vec<char>>)
    ensures
        views(final(cur)@) == drop_blank_tail(views(old(cur)@)),
{
    while cur.len() > 0 && is_blank_exec(&cur[cur.len() - 1])
        invariant
            drop_blank_tail(views(cur@)) == drop_blank_tail(views(old(cur)@)),
        decreases cur.len(),
    {
        let ghost before = cur@;
        cur.pop();
        assert(views(cur@) =~= views(before).drop_last());
    }
}

fn make_block(kind: Kind, text: String) -> (b: Block)
    ensures
        b@ == (match kind {
            Kind::Prose => BlockView::Prose(text@),
            Kind::Code => BlockView::Code(text@),
        }),
{
    match kind {
        Kind::Prose => Block::Prose(text),
        Kind::Code => Block::Code(text),
    }
}

fn flush(blocks: &mut Vec<Block>, kind: Option<Kind>, cur: &mut Vec<Vec<char>>)
    ensures
        block_views(final(blocks)@) == flushed(
            BlockScan { blocks: block_views(old(blocks)@), kind, cur: views(old(cur)@) },
        ),
        final(cur)@.len() == 0,
{
    drop_blank_tail_exec(cur);
    if cur.len() > 0 {
        if let Some(k) = kind {
            let nl = chars_of("\n");
            proof {
                reveal_strlit("\n");
            }
            assert(nl@ =~= seq!['\n']);
            let text = join_exec(cur, &nl);
            let ghost before = blocks@;
            blocks.push(make_block(k, string_of(&text)));
            assert(block_views(blocks@) =~= block_views(before).push(blocks@.last()@));
        }
    }
    cur.clear();
}

/// The blocks of the content lines from `start` on.
pub fn blocks_from(lines: &Vec<Vec<char>>, start: usize) -> (r: Vec<Block>)
    requires
        start <= lines.len(),
    ensures
        block_views(r@) == blocks_of(views(lines@).skip(start as int)),
{
    let mut blocks: Vec<Block> = Vec::new();
    let mut kind: Option<Kind> = None;
    let mut cur: Vec<Vec<char>> = Vec::new();
    let mut i = start;
    assert(views(lines@).subrange(start as int, i as int) =~= Seq::<Seq<char>>::empty());
    assert(block_views(blocks@) =~= Seq::<BlockView>::empty());
    assert(views(cur@) =~= Seq::<Seq<char>>::empty());
    while i < lines.len()
        invariant
            start <= i <= lines.len(),
            block_scan(views(lines@).subrange(start as int, i as int)) == (BlockScan {
                blocks: block_views(blocks@),
                kind,
                cur: views(cur@),
            }),
        decreases lines.len() - i,
    {
        let ghost done = views(lines@).subrange(start as int, i as int);
        assert(views(lines@).subrange(start as int, i + 1).drop_last() =~= done);
        let line = &lines[i];
        let s = trim_vec(line);
        let label = hidden_label_exec(&s);
        if let Some(l) = label {
            flush(&mut blocks, kind, &mut cur);
            kind = None;
            let ghost before = blocks@;
            blocks.push(Block::HiddenOpen(string_of(&l)));
            assert(block_views(blocks@) =~= block_views(before).push(blocks@.last()@));
            assert(views(cur@) =~= Seq::<Seq<char>>::empty());
        } else if equals_str(&s, "-- [/hidden]") {
            flush(&mut blocks, kind, &mut cur);
            kind = None;
            let ghost before = blocks@;
            blocks.push(Block::HiddenClose);
            assert(block_views(blocks@) =~= block_views(before).push(blocks@.last()@));
            assert(views(cur@) =~= Seq::<Seq<char>>::empty());
        } else if starts_with_str(&s, "-- ") || equals_str(&s, "--") {
            if matches!(kind, Some(Kind::Code)) {
                flush(&mut blocks, kind, &mut cur);
                assert(views(cur@) =~= Seq::<Seq<char>>::empty());
            }
            kind = Some(Kind::Prose);
            let text = if starts_with_str(&s, "-- ") {
                proof {
                    reveal_strlit("-- ");
                }
                let t = slice_chars(&s, 3, s.len());
                assert(t@ =~= s@.skip("-- "@.len() as int));
                t
            } else {
                Vec::new()
            };
            let ghost before = cur@;
            cur.push(text);
            assert(views(cur@) =~= views(before).push(text@));
        } else if s.len() == 0 {
            if kind.is_some() {
                let ghost before = cur@;
                cur.push(Vec::new());
                assert(views(cur@) =~= views(before).push(Seq::empty()));
            }
        } else {
            if matches!(kind, Some(Kind::Prose)) {
                flush(&mut blocks, kind, &mut cur);
                assert(views(cur@) =~= Seq::<Seq<char>>::empty());
            }
            kind = Some(Kind::Code);
            let ghost before = cur@;
            cur.push(line.clone());
            assert(views(cur@) =~= views(before).push(line@));
        }
        i = i + 1;
    }
    assert(views(lines@).subrange(start as int, lines@.len() as int) =~= views(lines@).skip(
        start as int,
    ));
    flush(&mut blocks, kind, &mut cur);
    blocks
}

/// Split content lines into blocks: runs of comment lines are prose, runs
/// of other lines are code, and `-- [hidden: label]` / `-- [/hidden]` lines
/// open and close collapsible sections.
pub fn parse_blocks(lines: &Vec<String>) -> (r: Vec<Block>)
    ensures
        block_views(r@) == blocks_of(string_views(lines@)),
{
    let mut ls: Vec<Vec<char>> = Vec::new();
    let mut i: usize = 0;
    while i < lines.len()
        invariant
            i <= lines.len(),
            views(ls@) == string_views(lines@).take(i as int),
        decreases lines.len() - i,
    {
        let ghost before = ls@;
        ls.push(chars_of(lines[i].as_str()));
        assert(views(ls@) =~= views(before).push(lines@[i as int]@));
        assert(string_views(lines@).take(i + 1) =~= string_views(lines@).take(i as int).push(
            lines@[i as int]@,
        ));
        i = i + 1;
    }
    assert(string_views(lines@).take(lines@.len() as int) =~= string_views(lines@));
    assert(views(ls@).skip(0) =~= views(ls@));
    blocks_from(&ls, 0)
}

// ---------------------------------------------------------------------------
// Pages
// ---------------------------------------------------------------------------

/// The index of the first line at or after `from` that reads `-- leandown`
/// once trimmed.
pub open spec fn marker_index(ls: Seq<Seq<char>>, from: int) -> Option<int>
    decreases ls.len() - from,
{
    if from < 0 || from >= ls.len() {
        None
    } else if trim(ls[from]) == "-- leandown"@ {
        Some(from)
    } else {
        marker_index(ls, from + 1)
    }
}

/// The module that a line `import <module> ...` names: the word after
/// `import` and at least one white-space character.
pub open spec fn import_name(l: Seq<char>) -> Option<Seq<char>> {
    let p = "import"@;
    if starts_with(l, p) {
        let rest = l.skip(p.len() as int);
        let t = trim_start(rest);
        if rest.len() > 0 && is_ws(rest[0]) && t.len() > 0 {
            Some(t.take(word_len(t) as int))
        } else {
            None
        }
    } else {
        None
    }
}

/// The modules that the import lines among `ls` name, in order.
pub open spec fn imports_in(ls: Seq<Seq<char>>) -> Seq<Seq<char>>
    decreases ls.len(),
{
    if ls.len() == 0 {
        Seq::empty()
    } else {
        imports_in(ls.drop_last()) + match import_name(ls.last()) {
            Some(n) => seq![n],
            None => Seq::empty(),
        }
    }
}

/// A trimmed line of the meta section with its comment marker removed.
pub open spec fn meta_line(s: Seq<char>) -> Seq<char> {
    if starts_with(s, "-- "@) {
        s.skip("-- "@.len() as int)
    } else if s == "--"@ {
        Seq::empty()
    } else {
        s
    }
}

/// From line `i` on (inside the meta section when `in_meta`): the meta lines
/// and the line after `-- [content]`, or `None` when no such line follows.
pub open spec fn meta_scan(ls: Seq<Seq<char>>, i: int, in_meta: bool) -> Option<
    (Seq<Seq<char>>, int),
>
    decreases ls.len() - i,
{
    if i < 0 || i >= ls.len() {
        None
    } else {
        let s = trim(ls[i]);
        if s == "-- [meta]"@ {
            meta_scan(ls, i + 1, true)
        } else if s == "-- [content]"@ {
            Some((Seq::empty(), i + 1))
        } else if in_meta {
            match meta_scan(ls, i + 1, true) {
                Some((m, c)) => Some((seq![meta_line(s)] + m, c)),
                None => None,
            }
        } else {
            meta_scan(ls, i + 1, false)
        }
    }
}

/// The layout of an annotated source: the imports before the marker, the
/// meta lines, and the first content line; `None` when the source has no
/// marker or no `-- [content]` line after it.
pub open spec fn layout(raw: Seq<char>) -> Option<(Seq<Seq<char>>, Seq<Seq<char>>, int)> {
    let ls = lines(raw);
    match marker_index(ls, 0) {
        None => None,
        Some(ld) => match meta_scan(ls, ld + 1, false) {
            None => None,
            Some((m, c)) => Some((imports_in(ls.take(ld)), m, c)),
        },
    }
}

/// The TOML text of a source's meta section, when it has one.
pub open spec fn meta_text_spec(raw: Seq<char>) -> Option<Seq<char>> {
    match layout(raw) {
        Some((_i, m, _c)) => if m.len() > 0 {
            Some(join(m, seq!['\n']))
        } else {
            None
        },
        None => None,
    }
}

/// The page that a source makes, given the title and group that its meta
/// section sets (they count only when it has meta lines).
pub open spec fn parse_spec(
    path: Seq<char>,
    root: Seq<char>,
    raw: Seq<char>,
    title: Option<Seq<char>>,
    group: Option<Seq<char>>,
) -> Option<PageView> {
    match layout(raw) {
        None => None,
        Some((imports, m, c)) => {
            let module = module_of_spec(path, root);
            let title = if m.len() > 0 { title } else { None };
            let group = if m.len() > 0 { group } else { None };
            Some(
                PageView {
                    path,
                    module,
                    title: match title {
                        Some(t) => t,
                        None => last_segment(module),
                    },
                    group: match group {
                        Some(g) => g,
                        None => "Other"@,
                    },
                    imports,
                    blocks: blocks_of(lines(raw).skip(c)),
                    raw,
                },
            )
        },
    }
}

/// An optional string as an optional value.
pub open spec fn opt_view(o: Option<String>) -> Option<Seq<char>> {
    match o {
        Some(s) => Some(s@),
        None => None,
    }
}

fn import_name_exec(l: &Vec<char>) -> (r: Option<Vec<char>>)
    ensures
        match r {
            Some(n) => import_name(l@) == Some(n@),
            None => import_name(l@) is None,
        },
{
    if !starts_with_str(l, "import") {
        return None;
    }
    proof {
        reveal_strlit("import");
    }
    let p: usize = 6;
    if p < l.len() && crate::text::is_white_space(l[p]) {
        let b = skip_ws(l, p);
        let e = skip_word(l, b);
        proof {
            assert(l@.skip(p as int).skip(0) =~= l@.skip(p as int));
            assert(l@.skip(p as int) =~= l@.skip(6));
        }
        if b < l.len() {
            let n = slice_chars(l, b, e);
            proof {
                let t = l@.skip(b as int);
                assert(trim_start(l@.skip(6)) == t);
                assert(t.take(word_len(t) as int) =~= n@);
            }
            Some(n)
        } else {
            assert(trim_start(l@.skip(6)).len() == 0);
            None
        }
    } else {
        None
    }
}

/// The positions and contents that the source lines `ls` lay out:
/// imports, meta lines, and the first content line.
fn scan_layout(ls: &Vec<Vec<char>>) -> (r: Option<(Vec<Vec<char>>, Vec<Vec<char>>, usize)>)
    ensures
        match r {
            Some((imports, meta, c)) => ({
                &&& marker_index(views(ls@), 0) is Some
                &&& meta_scan(views(ls@), marker_index(views(ls@), 0)->0 + 1, false) == Some(
                    (views(meta@), c as int),
                )
                &&& views(imports@) == imports_in(views(ls@).take(marker_index(views(ls@), 0)->0))
                &&& c <= ls@.len()
            }),
            None => marker_index(views(ls@), 0) is None || meta_scan(
                views(ls@),
                marker_index(views(ls@), 0)->0 + 1,
                false,
            ) is None,
        },
{
    let ghost vl = views(ls@);
    // The marker line.
    let mut ld: usize = 0;
    while ld < ls.len()
        invariant
            ld <= ls.len(),
            vl == views(ls@),
            marker_index(vl, 0) == marker_index(vl, ld as int),
        ensures
            ld <= ls.len(),
            marker_index(vl, 0) == marker_index(vl, ld as int),
            ld < ls.len() ==> marker_index(vl, ld as int) == Some(ld as int),
        decreases ls.len() - ld,
    {
        let t = trim_vec(&ls[ld]);
        if equals_str(&t, "-- leandown") {
            break;
        }
        ld = ld + 1;
    }
    if ld == ls.len() {
        return None;
    }
    assert(marker_index(vl, 0) == Some(ld as int));
    // Imports before the marker.
    let mut imports: Vec<Vec<char>> = Vec::new();
    let mut i: usize = 0;
    while i < ld
        invariant
            i <= ld < ls.len(),
            vl == views(ls@),
            views(imports@) == imports_in(vl.take(i as int)),
        decreases ld - i,
    {
        assert(vl.take(i + 1).drop_last() =~= vl.take(i as int));
        let ghost before = imports@;
        match import_name_exec(&ls[i]) {
            Some(n) => {
                imports.push(n);
                assert(views(imports@) =~= views(before) + seq![n@]);
            },
            None => {
                assert(views(imports@) =~= views(before) + Seq::<Seq<char>>::empty());
            },
        }
        i = i + 1;
    }
    // The meta section, up to `-- [content]`.
    let mut meta: Vec<Vec<char>> = Vec::new();
    let mut in_meta = false;
    let mut j: usize = ld + 1;
    while j < ls.len()
        invariant
            ld < j <= ls.len(),
            vl == views(ls@),
            marker_index(vl, 0) == Some(ld as int),
            views(imports@) == imports_in(vl.take(ld as int)),
            meta_scan(vl, ld + 1, false) == match meta_scan(vl, j as int, in_meta) {
                Some((m, c)) => Some((views(meta@) + m, c)),
                None => None,
            },
        decreases ls.len() - j,
    {
        let s = trim_vec(&ls[j]);
        if equals_str(&s, "-- [meta]") {
            in_meta = true;
        } else if equals_str(&s, "-- [content]") {
            assert(views(meta@) + Seq::<Seq<char>>::empty() =~= views(meta@));
            return Some((imports, meta, j + 1));
        } else if in_meta {
            let stripped = if starts_with_str(&s, "-- ") {
                proof {
                    reveal_strlit("-- ");
                }
                let t = slice_chars(&s, 3, s.len());
                assert(t@ =~= s@.skip("-- "@.len() as int));
                t
            } else if equals_str(&s, "--") {
                Vec::new()
            } else {
                s
            };
            assert(stripped@ == meta_line(trim(vl[j as int])));
            let ghost before = meta@;
            meta.push(stripped);
            proof {
                assert(views(meta@) =~= views(before).push(stripped@));
                match meta_scan(vl, j + 1, true) {
                    Some((m, c)) => {
                        assert(views(before) + (seq![stripped@] + m) =~= views(meta@) + m);
                    },
                    None => {},
                }
            }
        }
        j = j + 1;
    }
    None
}

/// The TOML text of a source's `[meta]` section (its comment lines without
/// the `-- ` marker, joined by newlines), when the source is an annotated
/// page with a non-empty meta section.
pub fn meta_text(raw: &str) -> (r: Option<String>)
    ensures
        opt_view(r) == meta_text_spec(raw@),
{
    let rv = chars_of(raw);
    let ls = lines_of(&rv);
    match scan_layout(&ls) {
        Some((_imports, meta, _c)) => {
            if meta.len() > 0 {
                let nl = chars_of("\n");
                proof {
                    reveal_strlit("\n");
                }
                assert(nl@ =~= seq!['\n']);
                let t = join_exec(&meta, &nl);
                Some(string_of(&t))
            } else {
                None
            }
        },
        None => None,
    }
}

fn vec_strings(v: &Vec<Vec<char>>) -> (r: Vec<String>)
    ensures
        string_views(r@) == views(v@),
{
    let mut r: Vec<String> = Vec::new();
    let mut i: usize = 0;
    while i < v.len()
        invariant
            i <= v.len(),
            string_views(r@) == views(v@).take(i as int),
        decreases v.len() - i,
    {
        let ghost before = r@;
        r.push(string_of(&v[i]));
        assert(string_views(r@) =~= string_views(before).push(v@[i as int]@));
        assert(views(v@).take(i + 1) =~= views(v@).take(i as int).push(v@[i as int]@));
        i = i + 1;
    }
    assert(views(v@).take(v@.len() as int) =~= views(v@));
    r
}

/// Parse a leandown-annotated Lean source. Returns None if it has no
/// `-- leandown` marker or no `-- [content]` line after it. `meta` holds the
/// fields decoded from [`meta_text`] of the same source.
pub fn parse(path: &str, root: &str, raw: String, meta: Meta) -> (r: Option<Page>)
    ensures
        match r {
            Some(p) => parse_spec(path@, root@, raw@, opt_view(meta.title), opt_view(meta.group))
                == Some(p@),
            None => parse_spec(path@, root@, raw@, opt_view(meta.title), opt_view(meta.group))
                is None,
        },
{
    let rv = chars_of(raw.as_str());
    let ls = lines_of(&rv);
    let (imports, meta_lines, c) = match scan_layout(&ls) {
        Some(l) => l,
        None => return None,
    };
    let has_meta = meta_lines.len() > 0;
    let module = module_of(path, root);
    let title = match (has_meta, meta.title) {
        (true, Some(t)) => t,
        _ => {
            let mv = chars_of(module.as_str());
            string_of(&last_segment_exec(&mv))
        },
    };
    let group = match (has_meta, meta.group) {
        (true, Some(g)) => g,
        _ => String::from_str("Other"),
    };
    let blocks = blocks_from(&ls, c);
    Some(
        Page {
            path: String::from_str(path),
            module,
            title,
            group,
            imports: vec_strings(&imports),
            blocks,
            raw,
        },
    )
}

} // verus!
