//! Text transformations of page content: title case, prose line breaks,
//! cross-reference links, and code listings.

use vstd::prelude::*;
use crate::maps::{lemma_log_map_dom, log_map, str_entries, StrMap};
use crate::outside::{
    ascii_lower_char, ascii_upper_char, escape_html, html_text, is_ascii_char, is_ascii_text,
    lower_text,
};
use crate::parse::{page_file, page_file_spec};
use crate::text::{
    chars_of, ends_with, extend_chars, extend_str, is_ws, join, join_exec, lines, lines_of,
    occurs_at, occurs_at_exec, occurs_str_at, skip_word, skip_ws, slice_chars, starts_with,
    starts_with_str, string_of, trim, trim_end, trim_end_vec, trim_start, trim_start_vec,
    trim_vec, views, word_len, words, words_of, is_white_space, lemma_trim_start_shape,
    lemma_word_len_bound,
};
use crate::xref::{capitalize_chars, capitalize_spec, lowercase_chars, XrefEntry, XrefEntryView};

verus! {

broadcast use vstd::string::group_string_axioms;

// ---------------------------------------------------------------------------
// Title case
// ---------------------------------------------------------------------------

/// Short words that stay in lower case inside a title.
pub open spec fn is_minor_word(w: Seq<char>) -> bool {
    ||| w == "a"@
    ||| w == "an"@
    ||| w == "the"@
    ||| w == "and"@
    ||| w == "but"@
    ||| w == "or"@
    ||| w == "nor"@
    ||| w == "for"@
    ||| w == "so"@
    ||| w == "yet"@
    ||| w == "in"@
    ||| w == "on"@
    ||| w == "at"@
    ||| w == "to"@
    ||| w == "of"@
    ||| w == "by"@
    ||| w == "up"@
    ||| w == "as"@
    ||| w == "is"@
    ||| w == "it"@
}

/// A word of a title: capitalized when it is first, last, or not a minor
/// word; in lower case otherwise.
pub open spec fn title_word(w: Seq<char>, at_end: bool) -> Seq<char> {
    if at_end || !is_minor_word(lower_text(w)) {
        capitalize_spec(w)
    } else {
        lower_text(w)
    }
}

/// Each word of a title in its case.
pub open spec fn title_words(ws: Seq<Seq<char>>) -> Seq<Seq<char>> {
    Seq::new(ws.len(), |i: int| title_word(ws[i], i == 0 || i == ws.len() - 1))
}

/// The words of `s` in title case, separated by single spaces.
pub open spec fn title_case_spec(s: Seq<char>) -> Seq<char> {
    join(title_words(words(s)), seq![' '])
}

fn is_minor_word_exec(w: &Vec<char>) -> (b: bool)
    ensures
        b == is_minor_word(w@),
{
    crate::text::equals_str(w, "a") || crate::text::equals_str(w, "an") || crate::text::equals_str(
        w,
        "the",
    ) || crate::text::equals_str(w, "and") || crate::text::equals_str(w, "but")
        || crate::text::equals_str(w, "or") || crate::text::equals_str(w, "nor")
        || crate::text::equals_str(w, "for") || crate::text::equals_str(w, "so")
        || crate::text::equals_str(w, "yet") || crate::text::equals_str(w, "in")
        || crate::text::equals_str(w, "on") || crate::text::equals_str(w, "at")
        || crate::text::equals_str(w, "to") || crate::text::equals_str(w, "of")
        || crate::text::equals_str(w, "by") || crate::text::equals_str(w, "up")
        || crate::text::equals_str(w, "as") || crate::text::equals_str(w, "is")
        || crate::text::equals_str(w, "it")
}

pub(crate) fn title_case_chars(v: &Vec<char>) -> (r: Vec<char>)
    ensures
        r@ == title_case_spec(v@),
{
    let ws = words_of(v);
    let ghost wv = views(ws@);
    let n = ws.len();
    let mut parts: Vec<Vec<char>> = Vec::new();
    let mut i: usize = 0;
    while i < n
        invariant
            i <= n == ws@.len() == wv.len(),
            wv == views(ws@),
            views(parts@) == title_words(wv).take(i as int),
        decreases n - i,
    {
        let w = &ws[i];
        let low = lowercase_chars(w);
        let part = if i == 0 || i == n - 1 || !is_minor_word_exec(&low) {
            capitalize_chars(w)
        } else {
            low
        };
        let ghost before = parts@;
        assert(part@ == title_words(wv)[i as int]);
        assert(title_words(wv).take(i + 1) =~= title_words(wv).take(i as int).push(
            title_words(wv)[i as int],
        ));
        parts.push(part);
        assert(views(parts@) =~= views(before).push(part@));
        assert(views(parts@) =~= title_words(wv).take(i + 1));
        i = i + 1;
    }
    let sp = chars_of(" ");
    proof {
        reveal_strlit(" ");
    }
    assert(sp@ =~= seq![' ']);
    assert(views(parts@) =~= title_words(wv));
    join_exec(&parts, &sp)
}

/// Title-case a string: capitalize each word except short minor words in
/// the middle.
pub fn title_case(s: &str) -> (r: String)
    ensures
        r@ == title_case_spec(s@),
{
    let v = chars_of(s);
    string_of(&title_case_chars(&v))
}

proof fn lemma_words_shape(s: Seq<char>)
    ensures
        forall|i: int|
            0 <= i < words(s).len() ==> {
                let w = #[trigger] words(s)[i];
                &&& w.len() >= 1
                &&& forall|j: int| 0 <= j < w.len() ==> !is_ws(#[trigger] w[j])
                &&& is_ascii_text(s) ==> is_ascii_text(w)
            },
    decreases s.len(),
{
    let t = trim_start(s);
    if t.len() > 0 {
        lemma_trim_start_shape(s);
        let k0 = choose|k: int|
            0 <= k <= s.len() && trim_start(s) == s.skip(k) && (forall|i: int|
                0 <= i < k ==> is_ws(#[trigger] s[i]));
        lemma_word_len_bound(t);
        let k = word_len(t) as int;
        let r = t.skip(k);
        lemma_words_shape(r);
        let ws = words(s);
        assert(ws == seq![t.take(k)] + words(r));
        assert forall|i: int| 0 <= i < ws.len() implies {
            let w = #[trigger] ws[i];
            &&& w.len() >= 1
            &&& forall|j: int| 0 <= j < w.len() ==> !is_ws(#[trigger] w[j])
            &&& is_ascii_text(s) ==> is_ascii_text(w)
        } by {
            if i == 0 {
                if is_ascii_text(s) {
                    assert forall|j: int| 0 <= j < ws[i].len() implies is_ascii_char(#[trigger] ws[i][j]) by {
                        assert(ws[i][j] == s[k0 + j]);
                    }
                }
            } else {
                assert(ws[i] == words(r)[i - 1]);
                if is_ascii_text(s) {
                    assert forall|j: int| 0 <= j < r.len() implies is_ascii_char(#[trigger] r[j]) by {
                        assert(r[j] == s[k0 + k + j]);
                    }
                }
            }
        }
    }
}

proof fn lemma_join_front(ws: Seq<Seq<char>>, sep: Seq<char>)
    requires
        ws.len() >= 2,
    ensures
        join(ws, sep) == ws[0] + sep + join(ws.drop_first(), sep),
    decreases ws.len(),
{
    if ws.len() == 2 {
        assert(join(ws.drop_last(), sep) == ws.drop_last()[0]);
        assert(join(ws.drop_first(), sep) == ws.drop_first()[0]);
        assert(ws.drop_last()[0] == ws[0]);
        assert(ws.drop_first()[0] == ws.last());
    } else {
        lemma_join_front(ws.drop_last(), sep);
        assert(ws.drop_last().drop_first() =~= ws.drop_first().drop_last());
        assert(ws.drop_first().last() == ws.last());
        assert(join(ws, sep) == join(ws.drop_last(), sep) + sep + ws.last());
        assert(join(ws.drop_first(), sep) == join(ws.drop_first().drop_last(), sep) + sep
            + ws.drop_first().last());
        assert(join(ws, sep) =~= ws[0] + sep + join(ws.drop_first(), sep));
    }
}

/// A non-empty word without white space, then `rest` starting with white
/// space or empty: the first word is that word.
proof fn lemma_word_then(w: Seq<char>, rest: Seq<char>)
    requires
        forall|j: int| 0 <= j < w.len() ==> !is_ws(#[trigger] w[j]),
        rest.len() == 0 || is_ws(rest[0]),
    ensures
        word_len(w + rest) == w.len(),
    decreases w.len(),
{
    if w.len() > 0 {
        lemma_word_then(w.drop_first(), rest);
        assert((w + rest).drop_first() =~= w.drop_first() + rest);
    } else {
        assert(w + rest =~= rest);
    }
}

proof fn lemma_join_first(ws: Seq<Seq<char>>, sep: Seq<char>)
    requires
        ws.len() >= 1,
        ws[0].len() >= 1,
    ensures
        join(ws, sep).len() >= 1,
        join(ws, sep)[0] == ws[0][0],
{
    if ws.len() >= 2 {
        lemma_join_front(ws, sep);
    }
}

proof fn lemma_words_join(ws: Seq<Seq<char>>)
    requires
        forall|i: int|
            0 <= i < ws.len() ==> {
                let w = #[trigger] ws[i];
                &&& w.len() >= 1
                &&& forall|j: int| 0 <= j < w.len() ==> !is_ws(#[trigger] w[j])
            },
    ensures
        words(join(ws, seq![' '])) == ws,
    decreases ws.len(),
{
    let sp = seq![' '];
    assert(is_ws(' '));
    if ws.len() == 0 {
        assert(words(Seq::<char>::empty()) =~= Seq::<Seq<char>>::empty());
    } else if ws.len() == 1 {
        let w = ws[0];
        assert(w[0] == ws[0][0]);
        assert(trim_start(w) == w);
        lemma_word_then(w, Seq::empty());
        assert(w + Seq::<char>::empty() =~= w);
        assert(w.take(w.len() as int) =~= w);
        assert(w.skip(w.len() as int) =~= Seq::<char>::empty());
        assert(words(Seq::<char>::empty()) =~= Seq::<Seq<char>>::empty());
        assert(words(w) =~= seq![w]);
        assert(ws =~= seq![w]);
    } else {
        let w = ws[0];
        let rest = ws.drop_first();
        lemma_join_front(ws, sp);
        lemma_words_join(rest);
        let j = join(rest, sp);
        assert(rest[0] == ws[1]);
        lemma_join_first(rest, sp);
        let full = w + sp + j;
        assert(full[0] == w[0]);
        assert(trim_start(full) == full);
        lemma_word_then(w, sp + j);
        assert(full =~= w + (sp + j));
        assert(full.take(w.len() as int) =~= w);
        let after = full.skip(w.len() as int);
        assert(after =~= sp + j);
        assert(after.drop_first() =~= j);
        assert(!is_ws(j[0]));
        assert(trim_start(j) == j);
        assert(trim_start(after) == trim_start(j));
        assert(words(after) == words(j));
        assert(words(full) == seq![w] + words(after));
        assert(ws =~= seq![w] + rest);
    }
}

proof fn lemma_ascii_char_cases(c: char)
    requires
        is_ascii_char(c),
        !is_ws(c),
    ensures
        is_ascii_char(ascii_upper_char(c)) && !is_ws(ascii_upper_char(c)),
        is_ascii_char(ascii_lower_char(c)) && !is_ws(ascii_lower_char(c)),
        ascii_upper_char(ascii_upper_char(c)) == ascii_upper_char(c),
        ascii_lower_char(ascii_lower_char(c)) == ascii_lower_char(c),
        ascii_lower_char(ascii_upper_char(c)) == ascii_lower_char(c),
{
}

proof fn lemma_title_word_stable(w: Seq<char>, at_end: bool)
    requires
        w.len() >= 1,
        is_ascii_text(w),
        forall|j: int| 0 <= j < w.len() ==> !is_ws(#[trigger] w[j]),
    ensures
        ({
            let v = title_word(w, at_end);
            &&& v.len() >= 1
            &&& is_ascii_text(v)
            &&& forall|j: int| 0 <= j < v.len() ==> !is_ws(#[trigger] v[j])
            &&& title_word(v, at_end) == v
        }),
{
    let low = w.map_values(|c: char| ascii_lower_char(c));
    assert(lower_text(w) == low);
    assert forall|j: int| 0 <= j < w.len() implies is_ascii_char(#[trigger] low[j]) && !is_ws(low[j])
        && ascii_lower_char(low[j]) == low[j] by {
        lemma_ascii_char_cases(w[j]);
    }
    assert(is_ascii_text(low));
    assert(low.map_values(|c: char| ascii_lower_char(c)) =~= low);
    assert(lower_text(low) == low);
    let cap = capitalize_spec(w);
    lemma_ascii_char_cases(w[0]);
    assert(cap == seq![ascii_upper_char(w[0])] + w.skip(1));
    assert forall|j: int| 0 <= j < cap.len() implies is_ascii_char(#[trigger] cap[j]) && !is_ws(cap[j]) by {
        if j > 0 {
            assert(cap[j] == w[j]);
        }
    }
    assert(is_ascii_text(cap));
    assert(cap.map_values(|c: char| ascii_lower_char(c)) =~= low) by {
        assert forall|j: int| 0 <= j < cap.len() implies ascii_lower_char(cap[j]) == low[j] by {
            if j > 0 {
                assert(cap[j] == w[j]);
            }
        }
    }
    assert(lower_text(cap) == low);
    assert(cap[0] == ascii_upper_char(w[0]));
    assert(capitalize_spec(cap) =~= cap) by {
        assert(cap.skip(1) =~= w.skip(1));
    }
}

/// Title case applied twice to ASCII text gives what it gives once.
pub proof fn lemma_title_case_idempotent(s: Seq<char>)
    requires
        is_ascii_text(s),
    ensures
        title_case_spec(title_case_spec(s)) == title_case_spec(s),
{
    let ws = words(s);
    lemma_words_shape(s);
    let tw = title_words(ws);
    assert forall|i: int| 0 <= i < tw.len() implies {
        let w = #[trigger] tw[i];
        &&& w.len() >= 1
        &&& forall|j: int| 0 <= j < w.len() ==> !is_ws(#[trigger] w[j])
    } by {
        let w = ws[i];
        lemma_title_word_stable(w, i == 0 || i == ws.len() - 1);
    }
    lemma_words_join(tw);
    assert(title_words(tw) =~= tw) by {
        assert forall|i: int| 0 <= i < tw.len() implies title_words(tw)[i] == tw[i] by {
            lemma_title_word_stable(ws[i], i == 0 || i == ws.len() - 1);
        }
    }
}

// ---------------------------------------------------------------------------
// Prose line breaks
// ---------------------------------------------------------------------------

/// A line starting like this continues the line before on a line of its own.
pub open spec fn breaks_before(next: Seq<char>) -> bool {
    starts_with(next, "and "@) || starts_with(next, "so "@) || starts_with(next, "$="@)
}

/// Line `i` of prose with a Markdown hard break (two trailing spaces) where
/// it ends with `:` or the next line starts with `and `, `so ` or `$=`.
pub open spec fn prose_line(ls: Seq<Seq<char>>, i: int) -> Seq<char> {
    let cur = trim_end(ls[i]);
    let next = if i + 1 < ls.len() {
        trim_start(ls[i + 1])
    } else {
        Seq::empty()
    };
    if (ends_with(trim_start(cur), ":"@) || breaks_before(next)) && cur.len() > 0 {
        cur + "  "@
    } else {
        ls[i]
    }
}

/// Each line of prose with its hard break.
pub open spec fn prose_lines(ls: Seq<Seq<char>>) -> Seq<Seq<char>> {
    Seq::new(ls.len(), |i: int| prose_line(ls, i))
}

/// Prose with its hard line breaks inserted.
pub open spec fn format_prose_spec(t: Seq<char>) -> Seq<char> {
    join(prose_lines(lines(t)), seq!['\n'])
}

/// Prose keeps its lines, each line in place; a non-blank line that ends
/// with `:`, or is followed by a line starting (after white space) with
/// `and `, `so ` or `$=`, loses its trailing white space and ends in two
/// spaces, a Markdown hard break; every other line stays as it is.
pub proof fn lemma_prose_hard_breaks(t: Seq<char>)
    ensures
        exists|ls: Seq<Seq<char>>|
            #![trigger join(ls, seq!['\n'])]
            {
                let src = lines(t);
                &&& ls.len() == src.len()
                &&& format_prose_spec(t) == join(ls, seq!['\n'])
                &&& forall|i: int|
                    0 <= i < src.len() ==> #[trigger] ls[i] == if trim_end(src[i]).len() > 0 && (
                    ends_with(trim_start(trim_end(src[i])), ":"@) || (i + 1 < src.len() && (
                    starts_with(trim_start(src[i + 1]), "and "@) || starts_with(
                        trim_start(src[i + 1]),
                        "so "@,
                    ) || starts_with(trim_start(src[i + 1]), "$="@)))) {
                        trim_end(src[i]) + "  "@
                    } else {
                        src[i]
                    }
            },
{
    let src = lines(t);
    let ls = prose_lines(src);
    assert forall|i: int| 0 <= i < src.len() implies #[trigger] ls[i] == if trim_end(src[i]).len() > 0 && (
    ends_with(trim_start(trim_end(src[i])), ":"@) || (i + 1 < src.len() && (starts_with(
        trim_start(src[i + 1]),
        "and "@,
    ) || starts_with(trim_start(src[i + 1]), "so "@) || starts_with(trim_start(src[i + 1]), "$="@)))) {
        trim_end(src[i]) + "  "@
    } else {
        src[i]
    } by {
        if i + 1 >= src.len() {
            reveal_strlit("and ");
            reveal_strlit("so ");
            reveal_strlit("$=");
            assert(!breaks_before(Seq::<char>::empty()));
        }
    }
    assert(format_prose_spec(t) == join(ls, seq!['\n']));
}

fn ends_with_colon(v: &Vec<char>) -> (b: bool)
    ensures
        b == ends_with(v@, ":"@),
{
    proof {
        reveal_strlit(":");
    }
    assert(":"@ =~= seq![':']);
    if v.len() > 0 {
        assert(v@.skip(v@.len() - 1) =~= seq![v@.last()]);
        if v[v.len() - 1] == ':' {
            true
        } else {
            assert(v@.skip(v@.len() - 1)[0] != ":"@[0]);
            false
        }
    } else {
        false
    }
}

pub(crate) fn format_prose_chars(t: &Vec<char>) -> (r: Vec<char>)
    ensures
        r@ == format_prose_spec(t@),
{
    let ls = lines_of(t);
    let ghost lv = views(ls@);
    let n = ls.len();
    let mut parts: Vec<Vec<char>> = Vec::new();
    let mut i: usize = 0;
    while i < n
        invariant
            i <= n == ls@.len() == lv.len(),
            lv == views(ls@),
            views(parts@) == prose_lines(lv).take(i as int),
        decreases n - i,
    {
        let cur = trim_end_vec(&ls[i]);
        let next = if i + 1 < n {
            trim_start_vec(&ls[i + 1])
        } else {
            Vec::new()
        };
        let cur_start = trim_start_vec(&cur);
        let brk = ends_with_colon(&cur_start) || starts_with_str(&next, "and ") || starts_with_str(
            &next,
            "so ",
        ) || starts_with_str(&next, "$=");
        let part = if brk && cur.len() > 0 {
            let mut c = cur;
            extend_str(&mut c, "  ");
            c
        } else {
            ls[i].clone()
        };
        assert(part@ =~= prose_line(lv, i as int));
        let ghost before = parts@;
        assert(prose_lines(lv).take(i + 1) =~= prose_lines(lv).take(i as int).push(
            prose_lines(lv)[i as int],
        ));
        parts.push(part);
        assert(views(parts@) =~= views(before).push(part@));
        assert(views(parts@) =~= prose_lines(lv).take(i + 1));
        i = i + 1;
    }
    let nl = chars_of("\n");
    proof {
        reveal_strlit("\n");
    }
    assert(nl@ =~= seq!['\n']);
    assert(views(parts@) =~= prose_lines(lv));
    join_exec(&parts, &nl)
}

// ---------------------------------------------------------------------------
// Label references `[ref:Theorem 1]`
// ---------------------------------------------------------------------------

/// The index of the first `]` at or after `j` (the length if none).
pub open spec fn close_bracket(t: Seq<char>, j: int) -> int
    decreases t.len() - j,
{
    if j < 0 || j >= t.len() {
        t.len() as int
    } else if t[j] == ']' {
        j
    } else {
        close_bracket(t, j + 1)
    }
}

/// A reference `[ref:<label>]` (a non-empty label without `]`) at `i`: the
/// index of its closing bracket.
pub open spec fn ref_at(t: Seq<char>, i: int) -> Option<int> {
    let p = "[ref:"@;
    if occurs_at(t, p, i) {
        let j = close_bracket(t, i + p.len());
        if j < t.len() && j > i + p.len() {
            Some(j)
        } else {
            None
        }
    } else {
        None
    }
}

/// `t` from position `i` on with each reference to a known label replaced
/// by a Markdown link to it; references to unknown labels stay as they are.
pub open spec fn label_refs_from(t: Seq<char>, i: int, lx: Map<Seq<char>, Seq<char>>) -> Seq<char>
    decreases t.len() - i,
{
    if i < 0 || i >= t.len() {
        Seq::empty()
    } else {
        match ref_at(t, i) {
            Some(j) => {
                let label = trim(t.subrange(i + "[ref:"@.len(), j));
                (if lx.contains_key(label) {
                    "["@ + label + "]("@ + lx[label] + ")"@
                } else {
                    t.subrange(i, j + 1)
                }) + label_refs_from(t, j + 1, lx)
            },
            None => seq![t[i]] + label_refs_from(t, i + 1, lx),
        }
    }
}

fn close_bracket_exec(t: &Vec<char>, j: usize) -> (r: usize)
    requires
        j <= t.len(),
    ensures
        r == close_bracket(t@, j as int),
        j <= r <= t.len(),
{
    let mut k = j;
    while k < t.len() && t[k] != ']'
        invariant
            j <= k <= t.len(),
            close_bracket(t@, j as int) == close_bracket(t@, k as int),
        decreases t.len() - k,
    {
        k = k + 1;
    }
    k
}

pub(crate) fn link_label_refs_chars(t: &Vec<char>, lx: &StrMap<String>) -> (r: Vec<char>)
    ensures
        r@ == label_refs_from(t@, 0, lx@),
{
    let mut out: Vec<char> = Vec::new();
    let mut pos: usize = 0;
    while pos < t.len()
        invariant
            pos <= t.len(),
            out@ + label_refs_from(t@, pos as int, lx@) == label_refs_from(t@, 0, lx@),
        decreases t.len() - pos,
    {
        let ghost rest = label_refs_from(t@, pos as int, lx@);
        proof {
            reveal_strlit("[ref:");
        }
        if occurs_str_at(t, "[ref:", pos) {
            let j = close_bracket_exec(t, pos + 5);
            if j < t.len() && j > pos + 5 {
                let inner = slice_chars(t, pos + 5, j);
                let label = trim_vec(&inner);
                let label_s = string_of(&label);
                let piece = match lx.get(&label_s) {
                    Some(href) => {
                        let mut p = chars_of("[");
                        extend_chars(&mut p, &label);
                        extend_str(&mut p, "](");
                        extend_str(&mut p, href.as_str());
                        extend_str(&mut p, ")");
                        p
                    },
                    None => slice_chars(t, pos, j + 1),
                };
                assert(rest == piece@ + label_refs_from(t@, j + 1, lx@));
                extend_chars(&mut out, &piece);
                assert(out@ + label_refs_from(t@, j + 1, lx@) =~= label_refs_from(t@, 0, lx@));
                pos = j + 1;
                continue;
            }
        }
        assert(rest == seq![t@[pos as int]] + label_refs_from(t@, pos + 1, lx@));
        out.push(t[pos]);
        assert(out@ + label_refs_from(t@, pos + 1, lx@) =~= label_refs_from(t@, 0, lx@));
        pos = pos + 1;
    }
    assert(out@ + Seq::<char>::empty() =~= out@);
    out
}

// ---------------------------------------------------------------------------
// Declaration references in backticks
// ---------------------------------------------------------------------------

/// A name of `dom`, `l` characters long, stands between backticks at `i`.
pub open spec fn tick_candidate(t: Seq<char>, i: int, l: int, dom: Set<Seq<char>>) -> bool {
    &&& 0 <= i
    &&& 0 <= l
    &&& i + l + 2 <= t.len()
    &&& t[i] == '`'
    &&& t[i + l + 1] == '`'
    &&& dom.contains(t.subrange(i + 1, i + 1 + l))
}

/// The length of the longest name of `dom` (at most `l` long) between
/// backticks at `i`, or -1.
pub open spec fn best_tick(t: Seq<char>, i: int, l: int, dom: Set<Seq<char>>) -> int
    decreases l + 1,
{
    if l < 0 {
        -1
    } else if tick_candidate(t, i, l, dom) {
        l
    } else {
        best_tick(t, i, l - 1, dom)
    }
}

/// The Markdown link for a declaration reference.
pub open spec fn xref_link(name: Seq<char>, e: XrefEntryView) -> Seq<char> {
    "[`"@ + name + "`]("@ + e.href + " \""@ + e.page_title + ", "@ + e.label + "\")"@
}

/// `t` from position `i` on with each known declaration name in backticks
/// replaced by a Markdown link to its label (the longest name wins).
pub open spec fn xrefs_from(t: Seq<char>, i: int, x: Map<Seq<char>, XrefEntryView>) -> Seq<char>
    decreases t.len() - i,
{
    if i < 0 || i >= t.len() {
        Seq::empty()
    } else {
        let l = best_tick(t, i, t.len() - i - 2, x.dom());
        if l >= 0 {
            proof {
                lemma_best_tick_found(t, i, t.len() - i - 2, x.dom());
            }
            let n = t.subrange(i + 1, i + 1 + l);
            xref_link(n, x[n]) + xrefs_from(t, i + l + 2, x)
        } else {
            seq![t[i]] + xrefs_from(t, i + 1, x)
        }
    }
}

/// The longest name found between backticks at `i` is a name of `dom`
/// between backticks there.
pub proof fn lemma_best_tick_found(t: Seq<char>, i: int, top: int, dom: Set<Seq<char>>)
    ensures
        best_tick(t, i, top, dom) >= 0 ==> tick_candidate(t, i, best_tick(t, i, top, dom), dom),
    decreases top + 1,
{
    if top >= 0 && !tick_candidate(t, i, top, dom) {
        lemma_best_tick_found(t, i, top - 1, dom);
    }
}

proof fn lemma_best_tick(t: Seq<char>, i: int, top: int, b: int, dom: Set<Seq<char>>)
    requires
        -1 <= b <= top,
        b >= 0 ==> tick_candidate(t, i, b, dom),
        forall|l: int| b < l <= top ==> !tick_candidate(t, i, l, dom),
    ensures
        best_tick(t, i, top, dom) == b,
    decreases top + 1,
{
    if top > b {
        lemma_best_tick(t, i, top - 1, b, dom);
    }
}

/// The link for the longest declaration name between backticks at `pos`,
/// and its length.
fn best_xref_at(t: &Vec<char>, pos: usize, x: &StrMap<XrefEntry>) -> (r: Option<(usize, Vec<char>)>)
    requires
        pos < t.len(),
    ensures
        match r {
            Some((l, link)) => {
                &&& best_tick(t@, pos as int, t@.len() - pos - 2, x@.dom()) == l as int
                &&& l as int >= 0
                &&& pos + l + 2 <= t@.len()
                &&& link@ == xref_link(
                    t@.subrange(pos + 1, pos + 1 + l),
                    x@[t@.subrange(pos + 1, pos + 1 + l)],
                )
            },
            None => best_tick(t@, pos as int, t@.len() - pos - 2, x@.dom()) < 0,
        },
{
    let ghost s = str_entries(x.entries@);
    let ghost top = t@.len() - pos - 2;
    let mut best: Option<usize> = None;
    let mut j: usize = 0;
    if t[pos] == '`' {
        while j < x.entries.len()
            invariant
                j <= x.entries.len(),
                pos < t.len(),
                t@[pos as int] == '`',
                s == str_entries(x.entries@),
                x@ == crate::maps::log_map(s),
                match best {
                    Some(b) => tick_candidate(t@, pos as int, b as int, x@.dom()) && (forall|q: int|
                        0 <= q < j && #[trigger] tick_candidate(t@, pos as int, s[q].0.len() as int, x@.dom())
                            && t@.subrange(pos + 1, pos + 1 + s[q].0.len()) == s[q].0 ==> s[q].0.len() <= b),
                    None => forall|q: int|
                        0 <= q < j ==> !(#[trigger] tick_candidate(t@, pos as int, s[q].0.len() as int, x@.dom())
                            && t@.subrange(pos + 1, pos + 1 + s[q].0.len()) == s[q].0),
                },
            decreases x.entries.len() - j,
        {
            let key = chars_of(x.entries[j].0.as_str());
            let l = key.len();
            let fits = l <= t.len() - pos - 1 && t.len() - pos - 1 - l >= 1;
            if fits && t[pos + 1 + l] == '`' && occurs_at_exec(t, &key, pos + 1) {
                proof {
                    lemma_log_map_dom(s, key@);
                    assert(s[j as int].0 == key@);
                }
                let better = match best {
                    Some(b) => l > b,
                    None => true,
                };
                if better {
                    best = Some(l);
                }
            }
            j = j + 1;
        }
    }
    proof {
        match best {
            Some(b) => {
                assert forall|l: int| b < l <= top implies !tick_candidate(t@, pos as int, l, x@.dom()) by {
                    if tick_candidate(t@, pos as int, l, x@.dom()) {
                        let n = t@.subrange(pos + 1, pos + 1 + l);
                        lemma_log_map_dom(s, n);
                        let q = choose|q: int| 0 <= q < s.len() && s[q].0 == n;
                        assert(tick_candidate(t@, pos as int, s[q].0.len() as int, x@.dom()));
                    }
                }
                lemma_best_tick(t@, pos as int, top, b as int, x@.dom());
                lemma_best_tick_found(t@, pos as int, top, x@.dom());
            },
            None => {
                assert forall|l: int| -1 < l <= top implies !tick_candidate(t@, pos as int, l, x@.dom()) by {
                    if tick_candidate(t@, pos as int, l, x@.dom()) {
                        let n = t@.subrange(pos + 1, pos + 1 + l);
                        lemma_log_map_dom(s, n);
                        let q = choose|q: int| 0 <= q < s.len() && s[q].0 == n;
                        assert(tick_candidate(t@, pos as int, s[q].0.len() as int, x@.dom()));
                    }
                }
                lemma_best_tick(t@, pos as int, top, -1, x@.dom());
            },
        }
    }
    match best {
        Some(b) => {
            let name = slice_chars(t, pos + 1, pos + 1 + b);
            let name_s = string_of(&name);
            match x.get(&name_s) {
                Some(e) => {
                    let mut link = chars_of("[`");
                    extend_chars(&mut link, &name);
                    extend_str(&mut link, "`](");
                    extend_str(&mut link, e.href.as_str());
                    extend_str(&mut link, " \"");
                    extend_str(&mut link, e.page_title.as_str());
                    extend_str(&mut link, ", ");
                    extend_str(&mut link, e.label.as_str());
                    extend_str(&mut link, "\")");
                    Some((b, link))
                },
                None => {
                    assert(false);
                    None
                },
            }
        },
        None => None,
    }
}

pub(crate) fn link_xrefs_chars(t: &Vec<char>, x: &StrMap<XrefEntry>) -> (r: Vec<char>)
    ensures
        r@ == xrefs_from(t@, 0, x@),
{
    let mut out: Vec<char> = Vec::new();
    let mut pos: usize = 0;
    while pos < t.len()
        invariant
            pos <= t.len(),
            out@ + xrefs_from(t@, pos as int, x@) == xrefs_from(t@, 0, x@),
        decreases t.len() - pos,
    {
        match best_xref_at(t, pos, x) {
            Some((l, link)) => {
                extend_chars(&mut out, &link);
                assert(out@ + xrefs_from(t@, pos + l + 2, x@) =~= xrefs_from(t@, 0, x@));
                pos = pos + l + 2;
            },
            None => {
                out.push(t[pos]);
                assert(out@ + xrefs_from(t@, pos + 1, x@) =~= xrefs_from(t@, 0, x@));
                pos = pos + 1;
            },
        }
    }
    assert(out@ + Seq::<char>::empty() =~= out@);
    out
}

// ---------------------------------------------------------------------------
// Declaration names in code
// ---------------------------------------------------------------------------

/// A character that continues an identifier or a qualified name.
pub open spec fn is_ident_char(c: char) -> bool {
    ('A' <= c <= 'Z') || ('a' <= c <= 'z') || ('0' <= c <= '9') || c == '_' || c == '.'
}

/// A non-empty name of `dom`, `l` characters long, stands on its own at `i`:
/// no identifier character touches it on either side.
pub open spec fn code_candidate(t: Seq<char>, i: int, l: int, dom: Set<Seq<char>>) -> bool {
    &&& 0 <= i
    &&& 1 <= l
    &&& i + l <= t.len()
    &&& dom.contains(t.subrange(i, i + l))
    &&& (i == 0 || !is_ident_char(t[i - 1]))
    &&& (i + l == t.len() || !is_ident_char(t[i + l]))
}

/// The length of the longest name of `dom` (at most `l` long) standing on
/// its own at `i`, or 0.
pub open spec fn best_code(t: Seq<char>, i: int, l: int, dom: Set<Seq<char>>) -> int
    decreases l,
{
    if l < 1 {
        0
    } else if code_candidate(t, i, l, dom) {
        l
    } else {
        best_code(t, i, l - 1, dom)
    }
}

/// The HTML link of a declaration name in code.
pub open spec fn code_xref_link(name: Seq<char>, e: XrefEntryView) -> Seq<char> {
    "<a href=\""@ + e.href + "\" title=\""@ + html_text(e.page_title) + ", "@ + e.label
        + "\" class=\"xref\">"@ + name + "</a>"@
}

/// Escaped code `t` from position `i` on with each known declaration name
/// that stands on its own linked to its label (the longest name wins).
pub open spec fn code_xrefs_from(t: Seq<char>, i: int, x: Map<Seq<char>, XrefEntryView>) -> Seq<char>
    decreases t.len() - i,
{
    if i < 0 || i >= t.len() {
        Seq::empty()
    } else {
        let l = best_code(t, i, t.len() - i, x.dom());
        if l >= 1 {
            proof {
                lemma_best_code_found(t, i, t.len() - i, x.dom());
            }
            let n = t.subrange(i, i + l);
            code_xref_link(n, x[n]) + code_xrefs_from(t, i + l, x)
        } else {
            seq![t[i]] + code_xrefs_from(t, i + 1, x)
        }
    }
}

/// The longest name found standing on its own at `i` is a name of `dom`
/// standing on its own there.
pub proof fn lemma_best_code_found(t: Seq<char>, i: int, top: int, dom: Set<Seq<char>>)
    ensures
        best_code(t, i, top, dom) >= 1 ==> code_candidate(t, i, best_code(t, i, top, dom), dom),
        best_code(t, i, top, dom) >= 0,
    decreases top,
{
    if top >= 1 && !code_candidate(t, i, top, dom) {
        lemma_best_code_found(t, i, top - 1, dom);
    }
}

proof fn lemma_best_code(t: Seq<char>, i: int, top: int, b: int, dom: Set<Seq<char>>)
    requires
        0 <= b <= top,
        b >= 1 ==> code_candidate(t, i, b, dom),
        forall|l: int| b < l <= top ==> !code_candidate(t, i, l, dom),
    ensures
        best_code(t, i, top, dom) == b,
    decreases top,
{
    if top > b {
        lemma_best_code(t, i, top - 1, b, dom);
    }
}

/// A name of `x` stands on its own at `p` of `t`, `l` characters long: no
/// letter, digit, `_` or `.` touches it on either side.
pub open spec fn name_at(t: Seq<char>, x: Map<Seq<char>, XrefEntryView>, p: int, l: int) -> bool {
    &&& 0 <= p
    &&& 1 <= l
    &&& p + l <= t.len()
    &&& x.dom().contains(t.subrange(p, p + l))
    &&& (p == 0 || !(('A' <= t[p - 1] <= 'Z') || ('a' <= t[p - 1] <= 'z') || ('0' <= t[p - 1] <= '9')
        || t[p - 1] == '_' || t[p - 1] == '.'))
    &&& (p + l == t.len() || !(('A' <= t[p + l] <= 'Z') || ('a' <= t[p + l] <= 'z') || ('0' <= t[p
        + l] <= '9') || t[p + l] == '_' || t[p + l] == '.'))
}

/// Position `p` lies inside one of the runs `ms` (start, length).
pub open spec fn covered(ms: Seq<(int, int)>, p: int) -> bool {
    exists|j: int| 0 <= j < ms.len() && (#[trigger] ms[j]).0 <= p < ms[j].0 + ms[j].1
}

/// `t` from `i` on with the runs `ms`, in order, replaced by links to the
/// entries of their names.
pub open spec fn with_code_links(
    t: Seq<char>,
    ms: Seq<(int, int)>,
    x: Map<Seq<char>, XrefEntryView>,
    i: int,
) -> Seq<char>
    decreases ms.len(),
{
    if ms.len() == 0 {
        t.subrange(i, t.len() as int)
    } else {
        let (s, l) = ms[0];
        t.subrange(i, s) + code_xref_link(t.subrange(s, s + l), x[t.subrange(s, s + l)])
            + with_code_links(t, ms.drop_first(), x, s + l)
    }
}

/// The runs `ms` are, from `i` on and in order, the names of `x` that stand
/// on their own, each the longest one at its start, and no name stands on
/// its own at a position outside them.
pub open spec fn code_runs(t: Seq<char>, ms: Seq<(int, int)>, x: Map<Seq<char>, XrefEntryView>, i: int) -> bool {
    &&& forall|j: int| 0 <= j < ms.len() ==> i <= (#[trigger] ms[j]).0 && name_at(t, x, ms[j].0, ms[j].1)
    &&& forall|j: int| 0 < j < ms.len() ==> ms[j - 1].0 + ms[j - 1].1 <= (#[trigger] ms[j]).0
    &&& forall|j: int, l: int| 0 <= j < ms.len() && ms[j].1 < l ==> !#[trigger] name_at(t, x, ms[j].0, l)
    &&& forall|p: int, l: int| i <= p && !covered(ms, p) ==> !#[trigger] name_at(t, x, p, l)
}

proof fn lemma_best_code_max(t: Seq<char>, i: int, top: int, dom: Set<Seq<char>>, l: int)
    requires
        best_code(t, i, top, dom) < l <= top,
    ensures
        !code_candidate(t, i, l, dom),
    decreases top,
{
    if top > l {
        lemma_best_code_max(t, i, top - 1, dom, l);
    }
}

proof fn lemma_with_code_links_step(t: Seq<char>, ms: Seq<(int, int)>, x: Map<Seq<char>, XrefEntryView>, i: int)
    requires
        0 <= i < t.len(),
        ms.len() > 0 ==> i + 1 <= ms[0].0 <= t.len(),
    ensures
        with_code_links(t, ms, x, i) == seq![t[i]] + with_code_links(t, ms, x, i + 1),
{
    if ms.len() == 0 {
        assert(t.subrange(i, t.len() as int) =~= seq![t[i]] + t.subrange(i + 1, t.len() as int));
    } else {
        let (s, l) = ms[0];
        assert(t.subrange(i, s) =~= seq![t[i]] + t.subrange(i + 1, s));
        let rest = code_xref_link(t.subrange(s, s + l), x[t.subrange(s, s + l)]) + with_code_links(
            t,
            ms.drop_first(),
            x,
            s + l,
        );
        assert(t.subrange(i, s) + rest =~= seq![t[i]] + (t.subrange(i + 1, s) + rest));
    }
}

proof fn lemma_name_at_candidate(t: Seq<char>, x: Map<Seq<char>, XrefEntryView>, p: int, l: int)
    ensures
        name_at(t, x, p, l) == code_candidate(t, p, l, x.dom()),
{
}

proof fn lemma_code_runs_link(
    t: Seq<char>,
    x: Map<Seq<char>, XrefEntryView>,
    i: int,
    b: int,
    rest: Seq<(int, int)>,
)
    requires
        name_at(t, x, i, b),
        forall|l: int| b < l ==> !#[trigger] name_at(t, x, i, l),
        code_runs(t, rest, x, i + b),
    ensures
        code_runs(t, seq![(i, b)] + rest, x, i),
        with_code_links(t, seq![(i, b)] + rest, x, i) == code_xref_link(
            t.subrange(i, i + b),
            x[t.subrange(i, i + b)],
        ) + with_code_links(t, rest, x, i + b),
{
    let ms = seq![(i, b)] + rest;
    assert(ms.drop_first() =~= rest);
    assert(ms[0] == (i, b));
    assert(t.subrange(i, i) =~= Seq::<char>::empty());
    assert forall|j: int| 0 < j < ms.len() implies #[trigger] ms[j] == rest[j - 1] by {}
    assert forall|p: int, l: int| i <= p && !covered(ms, p) implies !#[trigger] name_at(t, x, p, l) by {
        if p < i + b {
            assert(ms[0].0 <= p < ms[0].0 + ms[0].1);
        } else if covered(rest, p) {
            let j = choose|j: int| 0 <= j < rest.len() && (#[trigger] rest[j]).0 <= p < rest[j].0 + rest[j].1;
            assert(ms[j + 1] == rest[j]);
        }
    }
    assert forall|j: int, l: int| 0 <= j < ms.len() && ms[j].1 < l implies !#[trigger] name_at(t, x, ms[j].0, l) by {
        if j > 0 {
            assert(ms[j] == rest[j - 1]);
        }
    }
    assert forall|j: int| 0 < j < ms.len() implies ms[j - 1].0 + ms[j - 1].1 <= (#[trigger] ms[j]).0 by {
        assert(ms[j] == rest[j - 1]);
        if j > 1 {
            assert(ms[j - 1] == rest[j - 2]);
        }
    }
}

proof fn lemma_code_runs_skip(t: Seq<char>, x: Map<Seq<char>, XrefEntryView>, i: int, ms: Seq<(int, int)>)
    requires
        0 <= i < t.len(),
        forall|l: int| !#[trigger] name_at(t, x, i, l),
        code_runs(t, ms, x, i + 1),
    ensures
        code_runs(t, ms, x, i),
        with_code_links(t, ms, x, i) == seq![t[i]] + with_code_links(t, ms, x, i + 1),
{
    if ms.len() > 0 {
        assert(name_at(t, x, ms[0].0, ms[0].1));
    }
    lemma_with_code_links_step(t, ms, x, i);
}

/// An escaped line of code with its declaration names linked is the line
/// with some runs replaced by links to their entries: from left to right,
/// each run is the longest name of the table that stands on its own (no
/// letter, digit, `_` or `.` right before or after it) where it starts, and
/// no such name starts anywhere outside the runs. Removing the links gives
/// back the line.
pub proof fn lemma_code_links(t: Seq<char>, x: Map<Seq<char>, XrefEntryView>, i: int)
    requires
        0 <= i <= t.len(),
    ensures
        exists|ms: Seq<(int, int)>|
            #![trigger with_code_links(t, ms, x, i)]
            code_runs(t, ms, x, i) && code_xrefs_from(t, i, x) == with_code_links(t, ms, x, i),
    decreases t.len() - i,
{
    if i == t.len() {
        let ms = Seq::<(int, int)>::empty();
        assert(t.subrange(i, t.len() as int) =~= Seq::<char>::empty());
        assert(code_runs(t, ms, x, i));
        assert(code_xrefs_from(t, i, x) == with_code_links(t, ms, x, i));
    } else {
        let b = best_code(t, i, t.len() - i, x.dom());
        lemma_best_code_found(t, i, t.len() - i, x.dom());
        assert forall|l: int| b < l implies !#[trigger] name_at(t, x, i, l) by {
            lemma_name_at_candidate(t, x, i, l);
            if b < l <= t.len() - i {
                lemma_best_code_max(t, i, t.len() - i, x.dom(), l);
            }
        }
        if b >= 1 {
            lemma_code_links(t, x, i + b);
            let rest = choose|ms: Seq<(int, int)>|
                #![trigger with_code_links(t, ms, x, i + b)]
                code_runs(t, ms, x, i + b) && code_xrefs_from(t, i + b, x) == with_code_links(
                    t,
                    ms,
                    x,
                    i + b,
                );
            lemma_name_at_candidate(t, x, i, b);
            lemma_code_runs_link(t, x, i, b, rest);
            let ms = seq![(i, b)] + rest;
            assert(code_xrefs_from(t, i, x) == with_code_links(t, ms, x, i));
        } else {
            lemma_code_links(t, x, i + 1);
            let ms = choose|ms: Seq<(int, int)>|
                #![trigger with_code_links(t, ms, x, i + 1)]
                code_runs(t, ms, x, i + 1) && code_xrefs_from(t, i + 1, x) == with_code_links(
                    t,
                    ms,
                    x,
                    i + 1,
                );
            lemma_code_runs_skip(t, x, i, ms);
            assert(code_xrefs_from(t, i, x) == with_code_links(t, ms, x, i));
        }
    }
}

fn is_ident_char_exec(c: char) -> (b: bool)
    ensures
        b == is_ident_char(c),
{
    ('A' <= c && c <= 'Z') || ('a' <= c && c <= 'z') || ('0' <= c && c <= '9') || c == '_' || c
        == '.'
}

/// The link for the longest declaration name standing on its own at `pos`,
/// and its length.
fn best_code_at(t: &Vec<char>, pos: usize, x: &StrMap<XrefEntry>) -> (r: Option<(usize, Vec<char>)>)
    requires
        pos < t.len(),
    ensures
        match r {
            Some((l, link)) => {
                &&& best_code(t@, pos as int, t@.len() - pos, x@.dom()) == l as int
                &&& l >= 1
                &&& pos + l <= t@.len()
                &&& link@ == code_xref_link(
                    t@.subrange(pos as int, pos + l),
                    x@[t@.subrange(pos as int, pos + l)],
                )
            },
            None => best_code(t@, pos as int, t@.len() - pos, x@.dom()) == 0,
        },
{
    let ghost s = str_entries(x.entries@);
    let ghost top = t@.len() - pos;
    let mut best: usize = 0;
    let mut j: usize = 0;
    let before_ok = pos == 0 || !is_ident_char_exec(t[pos - 1]);
    if before_ok {
        while j < x.entries.len()
            invariant
                j <= x.entries.len(),
                pos < t.len(),
                pos == 0 || !is_ident_char(t@[pos - 1]),
                s == str_entries(x.entries@),
                x@ == crate::maps::log_map(s),
                top == t@.len() - pos,
                best <= top,
                best >= 1 ==> code_candidate(t@, pos as int, best as int, x@.dom()),
                forall|q: int|
                    0 <= q < j && #[trigger] code_candidate(t@, pos as int, s[q].0.len() as int, x@.dom())
                        && t@.subrange(pos as int, pos + s[q].0.len()) == s[q].0 ==> s[q].0.len() <= best,
            decreases x.entries.len() - j,
        {
            let key = chars_of(x.entries[j].0.as_str());
            let l = key.len();
            if l >= 1 && l <= t.len() - pos && occurs_at_exec(t, &key, pos) && (pos + l == t.len()
                || !is_ident_char_exec(t[pos + l])) {
                proof {
                    lemma_log_map_dom(s, key@);
                    assert(s[j as int].0 == key@);
                    assert(t@.subrange(pos as int, pos + l) == key@);
                }
                if l > best {
                    best = l;
                }
            }
            j = j + 1;
        }
    }
    proof {
        assert forall|l: int| best < l <= top implies !code_candidate(t@, pos as int, l, x@.dom()) by {
            if code_candidate(t@, pos as int, l, x@.dom()) {
                let n = t@.subrange(pos as int, pos + l);
                lemma_log_map_dom(s, n);
                let q = choose|q: int| 0 <= q < s.len() && s[q].0 == n;
                assert(code_candidate(t@, pos as int, s[q].0.len() as int, x@.dom()));
            }
        }
        lemma_best_code(t@, pos as int, top, best as int, x@.dom());
    }
    if best >= 1 {
        let name = slice_chars(t, pos, pos + best);
        let name_s = string_of(&name);
        match x.get(&name_s) {
            Some(e) => {
                let mut link = chars_of("<a href=\"");
                extend_str(&mut link, e.href.as_str());
                extend_str(&mut link, "\" title=\"");
                let pt = escape_html(e.page_title.as_str());
                extend_str(&mut link, pt.as_str());
                extend_str(&mut link, ", ");
                extend_str(&mut link, e.label.as_str());
                extend_str(&mut link, "\" class=\"xref\">");
                extend_chars(&mut link, &name);
                extend_str(&mut link, "</a>");
                Some((best, link))
            },
            None => {
                assert(false);
                None
            },
        }
    } else {
        None
    }
}

/// Escaped code with its declaration names linked (see [`code_xrefs_from`]).
pub(crate) fn link_code_xrefs_chars(t: &Vec<char>, x: &StrMap<XrefEntry>) -> (r: Vec<char>)
    ensures
        r@ == code_xrefs_from(t@, 0, x@),
{
    let mut out: Vec<char> = Vec::new();
    let mut pos: usize = 0;
    while pos < t.len()
        invariant
            pos <= t.len(),
            out@ + code_xrefs_from(t@, pos as int, x@) == code_xrefs_from(t@, 0, x@),
        decreases t.len() - pos,
    {
        proof {
            lemma_best_code_found(t@, pos as int, t@.len() - pos, x@.dom());
        }
        match best_code_at(t, pos, x) {
            Some((l, link)) => {
                extend_chars(&mut out, &link);
                assert(out@ + code_xrefs_from(t@, pos + l, x@) =~= code_xrefs_from(t@, 0, x@));
                pos = pos + l;
            },
            None => {
                out.push(t[pos]);
                assert(out@ + code_xrefs_from(t@, pos + 1, x@) =~= code_xrefs_from(t@, 0, x@));
                pos = pos + 1;
            },
        }
    }
    assert(out@ + Seq::<char>::empty() =~= out@);
    out
}

// ---------------------------------------------------------------------------
// Code listings
// ---------------------------------------------------------------------------

/// The pieces of a line `import <module><rest>`: the keyword with the white
/// space after it, the module, and the rest.
pub open spec fn import_parts(line: Seq<char>) -> Option<(Seq<char>, Seq<char>, Seq<char>)> {
    let p = "import"@;
    if starts_with(line, p) {
        let r = line.skip(p.len() as int);
        let t = trim_start(r);
        if r.len() > 0 && is_ws(r[0]) && t.len() > 0 {
            let k = word_len(t) as int;
            Some((line.take(line.len() - t.len()), t.take(k), t.skip(k)))
        } else {
            None
        }
    } else {
        None
    }
}

/// The modules in a list of module names.
pub open spec fn module_set(mods: Seq<String>) -> Set<Seq<char>> {
    Set::new(|m: Seq<char>| exists|i: int| 0 <= i < mods.len() && (#[trigger] mods[i])@ == m)
}

/// A line of code as HTML: an import of a page's module links to that page;
/// any other line is escaped, with its declaration names linked.
pub open spec fn code_line(
    line: Seq<char>,
    mods: Set<Seq<char>>,
    x: Map<Seq<char>, XrefEntryView>,
) -> Seq<char> {
    match import_parts(line) {
        Some((pre, m, suf)) => if mods.contains(m) {
            html_text(pre) + "<a href=\""@ + page_file_spec(m) + "\">"@ + html_text(m) + "</a>"@
                + html_text(suf)
        } else {
            code_xrefs_from(html_text(line), 0, x)
        },
        None => code_xrefs_from(html_text(line), 0, x),
    }
}

/// Each line of code as HTML.
pub open spec fn code_lines(
    ls: Seq<Seq<char>>,
    mods: Set<Seq<char>>,
    x: Map<Seq<char>, XrefEntryView>,
) -> Seq<Seq<char>> {
    Seq::new(ls.len(), |i: int| code_line(ls[i], mods, x))
}

/// The opening tags of a code listing.
pub open spec fn code_open() -> Seq<char> {
    "<pre class=\"bg-gray-50 border-l-4 border-gray-200 px-4 py-3 overflow-x-auto text-sm leading-relaxed my-1 mb-5 rounded-r\"><code>"@
}

/// A code block as an HTML listing.
pub open spec fn code_block_html(
    text: Seq<char>,
    mods: Set<Seq<char>>,
    x: Map<Seq<char>, XrefEntryView>,
) -> Seq<char> {
    code_open() + join(code_lines(lines(text), mods, x), seq!['\n']) + "</code></pre>"@
}

/// `v` with `&`, `<` and `>` escaped.
pub(crate) fn escape_chars(v: &Vec<char>) -> (r: Vec<char>)
    ensures
        r@ == html_text(v@),
{
    let s = string_of(v);
    let e = escape_html(s.as_str());
    chars_of(e.as_str())
}

/// Whether `m` is one of `mods`.
pub(crate) fn has_module(mods: &Vec<String>, m: &String) -> (b: bool)
    ensures
        b == module_set(mods@).contains(m@),
{
    let mut i: usize = 0;
    while i < mods.len()
        invariant
            i <= mods.len(),
            forall|j: int| 0 <= j < i ==> mods@[j]@ != m@,
        decreases mods.len() - i,
    {
        if mods[i] == *m {
            assert(module_set(mods@).contains(m@));
            return true;
        }
        i = i + 1;
    }
    false
}

fn import_parts_exec(l: &Vec<char>) -> (r: Option<(Vec<char>, Vec<char>, Vec<char>)>)
    ensures
        match r {
            Some((a, b, c)) => import_parts(l@) == Some((a@, b@, c@)),
            None => import_parts(l@) is None,
        },
{
    if !starts_with_str(l, "import") {
        return None;
    }
    proof {
        reveal_strlit("import");
    }
    let p: usize = 6;
    if p < l.len() && is_white_space(l[p]) {
        let b = skip_ws(l, p);
        if b < l.len() {
            let e = skip_word(l, b);
            proof {
                assert(l@.skip(p as int).skip(0) =~= l@.skip(p as int));
                assert(l@.skip(p as int) =~= l@.skip(6));
            }
            let pre = slice_chars(l, 0, b);
            let m = slice_chars(l, b, e);
            let suf = slice_chars(l, e, l.len());
            proof {
                let t = l@.skip(b as int);
                assert(trim_start(l@.skip(6)) == t);
                assert(l@.take(l@.len() - t.len()) =~= pre@);
                assert(t.take(word_len(t) as int) =~= m@);
                assert(t.skip(word_len(t) as int) =~= suf@);
            }
            Some((pre, m, suf))
        } else {
            assert(trim_start(l@.skip(6)).len() == 0);
            None
        }
    } else {
        None
    }
}

fn code_line_exec(l: &Vec<char>, mods: &Vec<String>, x: &StrMap<XrefEntry>) -> (r: Vec<char>)
    ensures
        r@ == code_line(l@, module_set(mods@), x@),
{
    if let Some((pre, m, suf)) = import_parts_exec(l) {
        let ms = string_of(&m);
        if has_module(mods, &ms) {
            let mut out = escape_chars(&pre);
            extend_str(&mut out, "<a href=\"");
            let f = page_file(ms.as_str());
            extend_str(&mut out, f.as_str());
            extend_str(&mut out, "\">");
            extend_chars(&mut out, &escape_chars(&m));
            extend_str(&mut out, "</a>");
            extend_chars(&mut out, &escape_chars(&suf));
            return out;
        }
    }
    let e = escape_chars(l);
    link_code_xrefs_chars(&e, x)
}

/// A code block as an HTML listing, linking imports of the given modules to
/// their pages.
pub(crate) fn render_code_block(
    text: &String,
    mods: &Vec<String>,
    x: &StrMap<XrefEntry>,
) -> (r: Vec<char>)
    ensures
        r@ == code_block_html(text@, module_set(mods@), x@),
{
    let t = chars_of(text.as_str());
    let ls = lines_of(&t);
    let ghost lv = views(ls@);
    let ghost ms = module_set(mods@);
    let n = ls.len();
    let mut parts: Vec<Vec<char>> = Vec::new();
    let mut i: usize = 0;
    while i < n
        invariant
            i <= n == ls@.len() == lv.len(),
            lv == views(ls@),
            ms == module_set(mods@),
            views(parts@) == code_lines(lv, ms, x@).take(i as int),
        decreases n - i,
    {
        let part = code_line_exec(&ls[i], mods, x);
        let ghost before = parts@;
        assert(code_lines(lv, ms, x@).take(i + 1) =~= code_lines(lv, ms, x@).take(i as int).push(
            code_lines(lv, ms, x@)[i as int],
        ));
        parts.push(part);
        assert(views(parts@) =~= views(before).push(part@));
        i = i + 1;
    }
    assert(views(parts@) =~= code_lines(lv, ms, x@));
    let nl = chars_of("\n");
    proof {
        reveal_strlit("\n");
    }
    assert(nl@ =~= seq!['\n']);
    let body = join_exec(&parts, &nl);
    let mut out = chars_of("<pre class=\"bg-gray-50 border-l-4 border-gray-200 px-4 py-3 overflow-x-auto text-sm leading-relaxed my-1 mb-5 rounded-r\"><code>");
    extend_chars(&mut out, &body);
    extend_str(&mut out, "</code></pre>");
    out
}

} // verus!
