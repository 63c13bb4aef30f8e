//! Text helpers over character sequences.
use crate::trusted::string_views;
use vstd::prelude::*;
use vstd::string::*;

verus! {

/// The concatenation of a sequence of texts.
pub open spec fn join(parts: Seq<Seq<char>>) -> Seq<char>
    decreases parts.len(),
{
    if parts.len() == 0 {
        Seq::empty()
    } else {
        join(parts.drop_last()) + parts.last()
    }
}

pub open spec fn is_ascii_digit(c: char) -> bool {
    '0' <= c && c <= '9'
}

pub open spec fn all_digits(s: Seq<char>) -> bool {
    forall|i: int| 0 <= i < s.len() ==> is_ascii_digit(#[trigger] s[i])
}

/// Whether a text is a non-empty run of ASCII digits: the text of a
/// non-negative integer.
pub open spec fn is_digit_run(s: Seq<char>) -> bool {
    s.len() > 0 && all_digits(s)
}

/// The characters of `s`, in order.
pub(crate) fn chars_of(s: &str) -> (r: Vec<char>)
    ensures
        r@ == s@,
{
    let mut r: Vec<char> = Vec::new();
    for c in it: s.chars()
        invariant
            r@ == it.seq().take(it.index() as int),
            it.seq() == s@,
    {
        r.push(c);
    }
    r
}

/// A copy of each text of a list.
pub(crate) fn copy_strings(v: &Vec<String>) -> (r: Vec<String>)
    ensures
        string_views(r@) == string_views(v@),
{
    let mut r: Vec<String> = Vec::new();
    let mut i: usize = 0;
    while i < v.len()
        invariant
            i <= v.len(),
            r@.len() == i,
            forall|j: int| 0 <= j < i ==> (#[trigger] r@[j])@ == v@[j]@,
        decreases v.len() - i,
    {
        let c = v[i].clone();
        assert(c@ == v@[i as int]@);
        r.push(c);
        i = i + 1;
    }
    assert(string_views(r@) =~= string_views(v@));
    r
}

/// The concatenation of `parts[lo..hi]`.
pub(crate) fn join_range(parts: &Vec<String>, lo: usize, hi: usize) -> (r: String)
    requires
        lo <= hi <= parts@.len(),
    ensures
        r@ == join(string_views(parts@).subrange(lo as int, hi as int)),
{
    let mut r = String::new();
    let mut i: usize = lo;
    while i < hi
        invariant
            lo <= i <= hi <= parts@.len(),
            r@ == join(string_views(parts@).subrange(lo as int, i as int)),
        decreases hi - i,
    {
        r.append(parts[i].as_str());
        i = i + 1;
        assert(string_views(parts@).subrange(lo as int, i as int).drop_last() =~= string_views(
            parts@,
        ).subrange(lo as int, i - 1));
    }
    r
}

/// Whether a text is a non-empty run of ASCII digits.
pub fn is_number_text(s: &str) -> (r: bool)
    ensures
        r == is_digit_run(s@),
{
    let v = chars_of(s);
    if v.len() == 0 {
        return false;
    }
    let mut i: usize = 0;
    while i < v.len()
        invariant
            i <= v@.len(),
            v@ == s@,
            forall|j: int| 0 <= j < i ==> is_ascii_digit(#[trigger] v@[j]),
        decreases v.len() - i,
    {
        let c = v[i];
        if !('0' <= c && c <= '9') {
            assert(!is_ascii_digit(v@[i as int]));
            return false;
        }
        i = i + 1;
    }
    true
}

} // verus!
