//! Calls into the regex and difflib crates, and into std where vstd gives no
//! specification. Each function here is believed by the verifier as stated.
use difflib::sequencematcher::SequenceMatcher;
use regex::Regex;
use vstd::prelude::*;

verus! {

/// All non-overlapping leftmost matches of a regular expression in a text,
/// in order; empty when the pattern does not compile.
pub uninterp spec fn find_all_of(pattern: Seq<char>, text: Seq<char>) -> Seq<Seq<char>>;

/// Whether a regular expression matches somewhere in a text; false when the
/// pattern does not compile.
pub uninterp spec fn is_match_of(pattern: Seq<char>, text: Seq<char>) -> bool;

/// The capture groups of the leftmost match of a regular expression in a
/// text, group 0 first, each as its text and its start counted in chars;
/// `None` when there is no match or the pattern does not compile.
pub uninterp spec fn captures_of(pattern: Seq<char>, text: Seq<char>) -> Option<
    Seq<Option<(Seq<char>, nat)>>,
>;

/// A text with every match of a regular expression replaced by an expansion
/// of a replacement string; the text unchanged when the pattern does not
/// compile.
pub uninterp spec fn replace_all_of(
    pattern: Seq<char>,
    text: Seq<char>,
    replacement: Seq<char>,
) -> Seq<char>;

/// The matching blocks that difflib's `SequenceMatcher` finds between two
/// sequences of tokens: triples (start in the first, start in the second,
/// length).
pub uninterp spec fn matching_blocks_of(a: Seq<Seq<char>>, b: Seq<Seq<char>>) -> Seq<
    (usize, usize, usize),
>;

/// The characters that `regex::escape` precedes with a backslash.
pub open spec fn is_regex_meta(c: char) -> bool {
    c == '\\' || c == '.' || c == '+' || c == '*' || c == '?' || c == '(' || c == ')' || c
        == '|' || c == '[' || c == ']' || c == '{' || c == '}' || c == '^' || c == '$' || c
        == '#' || c == '&' || c == '-' || c == '~'
}

/// A text with a backslash put before each regex meta character.
pub open spec fn escaped(s: Seq<char>) -> Seq<char>
    decreases s.len(),
{
    if s.len() == 0 {
        Seq::empty()
    } else {
        let c = s.last();
        escaped(s.drop_last()) + if is_regex_meta(c) {
            seq!['\\', c]
        } else {
            seq![c]
        }
    }
}

/// The view of the capture groups that `regex_captures` returns.
pub open spec fn captures_view(v: Seq<Option<(String, usize)>>) -> Seq<Option<(Seq<char>, nat)>> {
    v.map_values(
        |g: Option<(String, usize)>|
            match g {
                None => None,
                Some(p) => Some((p.0@, p.1 as nat)),
            },
    )
}

pub open spec fn string_views(v: Seq<String>) -> Seq<Seq<char>> {
    v.map_values(|s: String| s@)
}

/// Relies on `Regex::new` and `Regex::find_iter`: the texts of all matches.
#[verifier::external_body]
pub(crate) fn regex_find_all(pattern: &str, text: &str) -> (r: Vec<String>)
    ensures
        string_views(r@) == find_all_of(pattern@, text@),
{
    match Regex::new(pattern) {
        Ok(re) => re.find_iter(text).map(|m| m.as_str().to_string()).collect(),
        Err(_) => Vec::new(),
    }
}

/// Relies on `Regex::new` and `Regex::is_match`.
#[verifier::external_body]
pub(crate) fn regex_is_match(pattern: &str, text: &str) -> (r: bool)
    ensures
        r == is_match_of(pattern@, text@),
{
    match Regex::new(pattern) {
        Ok(re) => re.is_match(text),
        Err(_) => false,
    }
}

/// Relies on `Regex::new` and `Regex::captures`: there are captures exactly
/// when the pattern compiles and matches (as `is_match` says), and each
/// group's text is the part of the text between its start and its end (byte
/// offsets, turned into char offsets here).
#[verifier::external_body]
pub(crate) fn regex_captures(pattern: &str, text: &str) -> (r: Option<Vec<Option<(String, usize)>>>)
    ensures
        r is Some <==> is_match_of(pattern@, text@),
        match r {
            None => captures_of(pattern@, text@) is None,
            Some(v) => {
                &&& captures_of(pattern@, text@) == Some(captures_view(v@))
                &&& forall|i: int|
                    0 <= i < v@.len() ==> match #[trigger] v@[i] {
                        None => true,
                        Some(g) => {
                            &&& g.1 + g.0@.len() <= text@.len()
                            &&& text@.subrange(g.1 as int, g.1 + g.0@.len()) == g.0@
                        },
                    }
            },
        },
{
    let re = Regex::new(pattern).ok()?;
    let caps = re.captures(text)?;
    Some(caps.iter().map(|g| g.map(|m| (m.as_str().to_string(), text[..m.start()].chars().count()))).collect())
}

/// Relies on `Regex::new` and `Regex::replace_all`.
#[verifier::external_body]
pub(crate) fn regex_replace_all(pattern: &str, text: &str, replacement: &str) -> (r: String)
    ensures
        r@ == replace_all_of(pattern@, text@, replacement@),
{
    match Regex::new(pattern) {
        Ok(re) => re.replace_all(text, replacement).into_owned(),
        Err(_) => text.to_string(),
    }
}

/// Relies on `regex::escape`, which puts a backslash before each meta
/// character and copies every other character.
#[verifier::external_body]
pub(crate) fn regex_escape(s: &str) -> (r: String)
    ensures
        r@ == escaped(s@),
{
    regex::escape(s)
}

/// Relies on difflib's `SequenceMatcher::get_matching_blocks`: blocks lie
/// inside both sequences, follow each other without overlap in both, and the
/// last one is the empty block at the two ends.
#[verifier::external_body]
pub(crate) fn matching_blocks(a: &Vec<String>, b: &Vec<String>) -> (r: Vec<(usize, usize, usize)>)
    ensures
        r@ == matching_blocks_of(string_views(a@), string_views(b@)),
        r@.len() > 0,
        r@.last() == (a@.len() as usize, b@.len() as usize, 0usize),
        forall|k: int|
            0 <= k < r@.len() ==> #[trigger] r@[k].0 + r@[k].2 <= a@.len() && r@[k].1 + r@[k].2
                <= b@.len(),
        forall|k: int|
            0 <= k < r@.len() - 1 ==> #[trigger] r@[k].0 + r@[k].2 <= r@[k + 1].0 && r@[k].1
                + r@[k].2 <= r@[k + 1].1,
{
    let mut matcher = SequenceMatcher::new(a, b);
    matcher.get_matching_blocks().into_iter().map(|m| (m.first_start, m.second_start, m.size)).collect()
}

/// Relies on `String`'s `FromIterator<&char>`: the characters in order.
#[verifier::external_body]
pub(crate) fn string_from_chars(v: &Vec<char>) -> (r: String)
    ensures
        r@ == v@,
{
    v.iter().collect()
}

} // verus!
