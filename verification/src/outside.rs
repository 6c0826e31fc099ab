//! Calls into the standard library and outside crates whose results the
//! verified code relies on. Each item's contract is trusted, not proved.

use vstd::prelude::*;
use indexmap::IndexMap;

verus! {

/// ASCII code of a character, if it has one.
pub open spec fn is_ascii_char(c: char) -> bool {
    (c as u32) < 128
}

/// The ASCII lowercase mapping of one character.
pub open spec fn ascii_lower_char(c: char) -> char {
    if 'A' <= c <= 'Z' {
        (((c as u32) + 32) as u32) as char
    } else {
        c
    }
}

/// The ASCII uppercase mapping of one character.
pub open spec fn ascii_upper_char(c: char) -> char {
    if 'a' <= c <= 'z' {
        (((c as u32) - 32) as u32) as char
    } else {
        c
    }
}

/// Every character of `s` is ASCII.
pub open spec fn is_ascii_text(s: Seq<char>) -> bool {
    forall|i: int| 0 <= i < s.len() ==> is_ascii_char(#[trigger] s[i])
}

/// The lowercase form of a text: on ASCII text the ASCII mapping, character
/// by character (what [`to_lowercase`] states of it); otherwise
/// [`lowercase`].
pub open spec fn lower_text(s: Seq<char>) -> Seq<char> {
    if is_ascii_text(s) {
        s.map_values(|c: char| ascii_lower_char(c))
    } else {
        lowercase(s)
    }
}

/// The uppercase form of a character: its ASCII uppercase form for an ASCII
/// character (what [`to_uppercase`] states of it); otherwise [`uppercase`].
pub open spec fn upper_text(c: char) -> Seq<char> {
    if is_ascii_char(c) {
        seq![ascii_upper_char(c)]
    } else {
        uppercase(c)
    }
}

/// An ASCII character of the class `[0-9A-Za-z_]`.
pub open spec fn ascii_word(c: char) -> bool {
    ('0' <= c <= '9') || ('A' <= c <= 'Z') || ('a' <= c <= 'z') || c == '_'
}

/// A word character (the `\w` class): `[0-9A-Za-z_]` among ASCII characters
/// (what [`is_word_char`] states of them); otherwise [`unicode_word`].
pub open spec fn word_char(c: char) -> bool {
    if is_ascii_char(c) {
        ascii_word(c)
    } else {
        unicode_word(c)
    }
}

/// What `str::to_lowercase` returns for a text.
pub uninterp spec fn lowercase(s: Seq<char>) -> Seq<char>;

/// What `char::to_uppercase` yields for a character.
pub uninterp spec fn uppercase(c: char) -> Seq<char>;

/// Whether `regex_syntax::is_word_character` holds of a character (the
/// `\w` class of a regular expression).
pub uninterp spec fn unicode_word(c: char) -> bool;

/// What `Path::strip_prefix` gives for a path and a base.
pub uninterp spec fn stripped_path(path: Seq<char>, base: Seq<char>) -> Option<Seq<char>>;

/// What `Path::extension` gives for a path.
pub uninterp spec fn path_extension(path: Seq<char>) -> Option<Seq<char>>;

/// Whether `Path::starts_with` holds (whole components) of a path and a base.
pub uninterp spec fn path_has_prefix(path: Seq<char>, base: Seq<char>) -> bool;

/// `str::to_lowercase`: the Unicode lowercase mapping of a text, named
/// [`lowercase`]. On ASCII text it is the ASCII mapping, character by character.
/// What it does to other characters is left to the name.
#[verifier::external_body]
pub(crate) fn to_lowercase(s: &str) -> (r: String)
    ensures
        r@ == lowercase(s@),
        (forall|i: int| 0 <= i < s@.len() ==> is_ascii_char(#[trigger] s@[i])) ==> r@
            == s@.map_values(|c: char| ascii_lower_char(c)),
{
    s.to_lowercase()
}

/// `char::to_uppercase`: the Unicode uppercase mapping of a character (one
/// or more characters), named [`uppercase`]. An ASCII character maps to its
/// ASCII uppercase form alone.
#[verifier::external_body]
pub(crate) fn to_uppercase(c: char) -> (r: String)
    ensures
        r@ == uppercase(c),
        is_ascii_char(c) ==> r@ == seq![ascii_upper_char(c)],
{
    c.to_uppercase().to_string()
}

/// `regex_syntax::is_word_character`: whether a character is a Unicode word
/// character, named [`unicode_word`]. For ASCII characters it holds exactly of
/// `[0-9A-Za-z_]` (the crate checks those first). The crate is built with its
/// default features, so `unicode-perl` is on and the call does not panic.
#[verifier::external_body]
pub(crate) fn is_word_char(c: char) -> (b: bool)
    ensures
        b == unicode_word(c),
        is_ascii_char(c) ==> (b <==> ('0' <= c <= '9' || 'A' <= c <= 'Z' || 'a' <= c <= 'z' || c
            == '_')),
{
    regex_syntax::is_word_character(c)
}

/// `html_escape::encode_text`: replaces every `&`, `<` and `>` by its entity
/// and keeps every other character.
#[verifier::external_body]
pub(crate) fn escape_html(s: &str) -> (r: String)
    ensures
        r@ == html_text(s@),
{
    html_escape::encode_text(s).into_owned()
}

/// The HTML text form of one character.
pub open spec fn escape_char(c: char) -> Seq<char> {
    if c == '&' {
        "&amp;"@
    } else if c == '<' {
        "&lt;"@
    } else if c == '>' {
        "&gt;"@
    } else {
        seq![c]
    }
}

/// A text with `&`, `<` and `>` replaced by their entities.
pub open spec fn html_text(s: Seq<char>) -> Seq<char>
    decreases s.len(),
{
    if s.len() == 0 {
        Seq::empty()
    } else {
        html_text(s.drop_last()) + escape_char(s.last())
    }
}

/// `Path::strip_prefix` on Unix paths: the rest of `path` after the whole
/// components of `base`, if `base` is a prefix of it; named [`stripped_path`].
#[verifier::external_body]
pub(crate) fn strip_path_prefix(path: &str, base: &str) -> (r: Option<String>)
    ensures
        match r {
            Some(s) => stripped_path(path@, base@) == Some(s@),
            None => stripped_path(path@, base@) is None,
        },
{
    match std::path::Path::new(path).strip_prefix(base) {
        Ok(rest) => Some(rest.to_string_lossy().into_owned()),
        Err(_) => None,
    }
}

/// `Path::extension` (as text): what follows the last `.` of the file name,
/// unless the name has no `.` other than a leading one; named
/// [`path_extension`].
#[verifier::external_body]
pub(crate) fn extension_of(path: &str) -> (r: Option<String>)
    ensures
        match r {
            Some(s) => path_extension(path@) == Some(s@),
            None => path_extension(path@) is None,
        },
{
    std::path::Path::new(path).extension().map(|e| e.to_string_lossy().into_owned())
}

/// `Path::starts_with`: whether `base` is made of leading whole components of
/// `path`; named [`path_has_prefix`].
#[verifier::external_body]
pub(crate) fn path_starts_with(path: &str, base: &str) -> (b: bool)
    ensures
        b == path_has_prefix(path@, base@),
{
    std::path::Path::new(path).starts_with(base)
}

// ---------------------------------------------------------------------------
// Page groups kept in an `indexmap::IndexMap`
// ---------------------------------------------------------------------------

/// `indexmap::IndexMap`, declared so that signatures can hold it.
#[verifier::external_type_specification]
#[verifier::external_body]
#[verifier::reject_recursive_types(K)]
#[verifier::reject_recursive_types(V)]
#[verifier::reject_recursive_types(S)]
pub struct ExIndexMap<K, V, S>(IndexMap<K, V, S>);

/// The entries of a map from group names to page indices, in the map's order.
pub uninterp spec fn group_entries(m: IndexMap<String, Vec<usize>>) -> Seq<(Seq<char>, Seq<usize>)>;

/// The position of the first entry with key `k` (-1 if none).
pub open spec fn key_pos(es: Seq<(Seq<char>, Seq<usize>)>, k: Seq<char>) -> int
    decreases es.len(),
{
    if es.len() == 0 {
        -1
    } else if key_pos(es.drop_last(), k) >= 0 {
        key_pos(es.drop_last(), k)
    } else if es.last().0 == k {
        es.len() - 1
    } else {
        -1
    }
}

/// The entries after `i` is appended to the list of key `k`: in place when
/// the key is there, as a new last entry otherwise.
pub open spec fn group_added(es: Seq<(Seq<char>, Seq<usize>)>, k: Seq<char>, i: usize) -> Seq<
    (Seq<char>, Seq<usize>),
> {
    let p = key_pos(es, k);
    if p >= 0 {
        es.update(p, (k, es[p].1.push(i)))
    } else {
        es.push((k, seq![i]))
    }
}

/// `a` comes before or equals `b` in the order of `str` (lexicographic by
/// character, which is the order of their UTF-8 bytes).
pub open spec fn text_le(a: Seq<char>, b: Seq<char>) -> bool
    decreases a.len(),
{
    if a.len() == 0 {
        true
    } else if b.len() == 0 {
        false
    } else if a[0] != b[0] {
        (a[0] as u32) < (b[0] as u32)
    } else {
        text_le(a.drop_first(), b.drop_first())
    }
}

/// `IndexMap::new`: an empty map.
#[verifier::external_body]
pub(crate) fn new_groups() -> (m: IndexMap<String, Vec<usize>>)
    ensures
        group_entries(m) == Seq::<(Seq<char>, Seq<usize>)>::empty(),
{
    IndexMap::new()
}

/// `IndexMap::entry(k).or_default().push(i)`: appends `i` to the list of
/// key `k`, which keeps its place; a new key gets an empty list, inserted
/// last.
#[verifier::external_body]
pub(crate) fn add_to_group(m: &mut IndexMap<String, Vec<usize>>, k: String, i: usize)
    ensures
        group_entries(*final(m)) == group_added(group_entries(*old(m)), k@, i),
{
    m.entry(k).or_default().push(i);
}

/// `IndexMap::sort_keys`: the same entries, ordered by key (`String`'s
/// order).
#[verifier::external_body]
pub(crate) fn sort_groups(m: &mut IndexMap<String, Vec<usize>>)
    ensures
        group_entries(*final(m)).to_multiset() == group_entries(*old(m)).to_multiset(),
        forall|i: int, j: int|
            0 <= i < j < group_entries(*final(m)).len() ==> text_le(
                group_entries(*final(m))[i].0,
                group_entries(*final(m))[j].0,
            ),
{
    m.sort_keys();
}

/// `IndexMap::len`: the number of entries.
#[verifier::external_body]
pub(crate) fn group_count(m: &IndexMap<String, Vec<usize>>) -> (n: usize)
    ensures
        n == group_entries(*m).len(),
{
    m.len()
}

/// `IndexMap::get_index`: the entry at position `i`, copied.
#[verifier::external_body]
pub(crate) fn group_at(m: &IndexMap<String, Vec<usize>>, i: usize) -> (r: (String, Vec<usize>))
    requires
        i < group_entries(*m).len(),
    ensures
        (r.0@, r.1@) == group_entries(*m)[i as int],
{
    let (k, v) = m.get_index(i).unwrap();
    (k.clone(), v.clone())
}

} // verus!
