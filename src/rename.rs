//! Deriving a rewrite rule from one example rename, and expanding it over
//! the members of a template group.
use crate::templates::{anchor, anchored, full_match, groups_view, members_match, TemplateGroup};
use crate::text::chars_of;
use crate::text_histo::{
    char_dist, histo, histo_of_prefix, lemma_char_dist_bound, lemma_histo_unique, TextHisto,
};
use crate::trusted::{captures_of, captures_view, is_match_of, regex_captures, string_from_chars, string_views};
use vstd::prelude::*;

verus! {

/// Whether positions `[p, p + len)` are not yet taken by a slot.
pub open spec fn all_free(marks: Seq<usize>, p: int, len: int) -> bool {
    forall|t: int| p <= t < p + len ==> marks[t] == 0
}

/// Whether `v` occurs at position `p` of `b` on positions not yet taken.
pub open spec fn fits(b: Seq<char>, marks: Seq<usize>, v: Seq<char>, p: int) -> bool {
    &&& 0 <= p
    &&& p + v.len() <= b.len()
    &&& b.subrange(p, p + v.len()) == v
    &&& all_free(marks, p, v.len() as int)
}

/// The non-overlapping occurrences of `v` on free positions of `b`, scanned
/// left to right from `p`.
pub open spec fn free_occurrences(b: Seq<char>, marks: Seq<usize>, v: Seq<char>, p: int) -> Seq<int>
    decreases b.len() - p,
{
    if v.len() == 0 || p < 0 || p + v.len() > b.len() {
        Seq::empty()
    } else if fits(b, marks, v, p) {
        seq![p] + free_occurrences(b, marks, v, p + v.len())
    } else {
        free_occurrences(b, marks, v, p + 1)
    }
}

/// The scan for the occurrence whose left context is closest to `left`:
/// the first of the occurrences from `p` on with the smallest distance,
/// against the best one found before `p`.
pub open spec fn scan_best(
    left: Seq<char>,
    b: Seq<char>,
    marks: Seq<usize>,
    v: Seq<char>,
    p: int,
    best: Option<(int, nat)>,
) -> Option<(int, nat)>
    decreases b.len() - p,
{
    if v.len() == 0 || p < 0 || p + v.len() > b.len() {
        best
    } else if fits(b, marks, v, p) {
        let d = char_dist(left, b.take(p));
        let next = match best {
            Some(q) => if d < q.1 {
                Some((p, d))
            } else {
                best
            },
            None => Some((p, d)),
        };
        scan_best(left, b, marks, v, p + v.len(), next)
    } else {
        scan_best(left, b, marks, v, p + 1, best)
    }
}

/// `marks` with positions `[p, p + len)` given to slot `slot`.
pub open spec fn take_span(marks: Seq<usize>, p: int, len: int, slot: usize) -> Seq<usize> {
    Seq::new(marks.len(), |t: int| if p <= t < p + len { slot } else { marks[t] })
}

/// The captured values of a match that took part in it, in order, without
/// the whole match.
pub open spec fn present_values(caps: Seq<Option<(Seq<char>, nat)>>) -> Seq<(Seq<char>, nat)>
    decreases caps.len(),
{
    if caps.len() <= 1 {
        Seq::empty()
    } else {
        let p = present_values(caps.drop_last());
        match caps.last() {
            Some(x) => p.push(x),
            None => p,
        }
    }
}

/// Which slot takes each position of the new name (0: none), after the
/// first `vars.len()` captured values were placed.
pub open spec fn slot_marks(vars: Seq<(Seq<char>, nat)>, old: Seq<char>, new: Seq<char>) -> Seq<usize>
    decreases vars.len(),
{
    if vars.len() == 0 {
        Seq::new(new.len(), |t: int| 0usize)
    } else {
        let marks = slot_marks(vars.drop_last(), old, new);
        let (v, start) = vars.last();
        match scan_best(old.take(start as int), new, marks, v, 0, None) {
            Some(q) => take_span(marks, q.0, v.len() as int, vars.len() as usize),
            None => marks,
        }
    }
}

/// Whether `v` occurs at position `p` of `b` on positions not yet taken.
fn fits_at(b: &Vec<char>, marks: &Vec<usize>, v: &Vec<char>, p: usize) -> (r: bool)
    requires
        marks@.len() == b@.len(),
        p + v@.len() <= b@.len(),
    ensures
        r == fits(b@, marks@, v@, p as int),
{
    let n = b.len();
    let mut t: usize = 0;
    while t < v.len()
        invariant
            t <= v@.len(),
            n == b@.len(),
            p + v@.len() <= b@.len(),
            marks@.len() == b@.len(),
            forall|u: int| 0 <= u < t ==> b@[p + u] == #[trigger] v@[u],
            forall|u: int| p <= u < p + t ==> #[trigger] marks@[u] == 0,
        decreases v.len() - t,
    {
        if b[p + t] != v[t] || marks[p + t] != 0 {
            assert(!fits(b@, marks@, v@, p as int)) by {
                if fits(b@, marks@, v@, p as int) {
                    assert(b@.subrange(p as int, p + v@.len())[t as int] == b@[p + t]);
                }
            }
            return false;
        }
        t = t + 1;
    }
    assert(b@.subrange(p as int, p + v@.len()) =~= v@);
    true
}

/// The view of the best occurrence found so far.
pub open spec fn best_view(best: Option<(usize, usize)>) -> Option<(int, nat)> {
    match best {
        None => None,
        Some(q) => Some((q.0 as int, q.1 as nat)),
    }
}

/// The first free occurrence of `v` in `new` whose left context has the
/// histogram closest to that of `old` before `start`.
fn best_occurrence(
    old: &Vec<char>,
    start: usize,
    new: &Vec<char>,
    marks: &Vec<usize>,
    v: &Vec<char>,
) -> (r: Option<usize>)
    requires
        start <= old@.len(),
        marks@.len() == new@.len(),
        old@.len() + new@.len() <= usize::MAX,
    ensures
        match scan_best(old@.take(start as int), new@, marks@, v@, 0, None) {
            None => r is None,
            Some(q) => r == Some(q.0 as usize) && fits(new@, marks@, v@, q.0),
        },
{
    let ghost left = old@.take(start as int);
    if v.len() == 0 || v.len() > new.len() {
        return None;
    }
    let left_histo = histo_of_prefix(old, start);
    proof {
        lemma_histo_unique(left_histo@, left);
    }
    let mut best: Option<(usize, usize)> = None;
    let mut p: usize = 0;
    let last = new.len() - v.len();
    while p <= last
        invariant
            0 < v@.len() <= new@.len(),
            last == new@.len() - v@.len(),
            start <= old@.len(),
            marks@.len() == new@.len(),
            old@.len() + new@.len() <= usize::MAX,
            left == old@.take(start as int),
            left_histo@ == histo(left),
            scan_best(left, new@, marks@, v@, 0, None) == scan_best(left, new@, marks@, v@, p as int, best_view(best)),
            match best_view(best) {
                None => true,
                Some(q) => fits(new@, marks@, v@, q.0),
            },
        decreases new.len() - p,
    {
        if fits_at(new, marks, v, p) {
            let h = histo_of_prefix(new, p);
            proof {
                lemma_histo_unique(h@, new@.take(p as int));
                lemma_char_dist_bound(left, new@.take(p as int));
            }
            let d = left_histo.dist(&h);
            match best {
                Some(q) => {
                    if d < q.1 {
                        best = Some((p, d));
                    }
                },
                None => {
                    best = Some((p, d));
                },
            }
            p = p + v.len();
        } else {
            p = p + 1;
        }
    }
    proof {
        lemma_scan_best_fits(left, new@, marks@, v@, p as int, best_view(best));
    }
    match best {
        Some(q) => Some(q.0),
        None => None,
    }
}

proof fn lemma_scan_best_fits(
    left: Seq<char>,
    b: Seq<char>,
    marks: Seq<usize>,
    v: Seq<char>,
    p: int,
    best: Option<(int, nat)>,
)
    requires
        best matches Some(q) ==> fits(b, marks, v, q.0),
    ensures
        scan_best(left, b, marks, v, p, best) matches Some(q) ==> fits(b, marks, v, q.0),
    decreases b.len() - p,
{
    if v.len() == 0 || p < 0 || p + v.len() > b.len() {
    } else if fits(b, marks, v, p) {
        let d = char_dist(left, b.take(p));
        let next = match best {
            Some(q) => if d < q.1 {
                Some((p, d))
            } else {
                best
            },
            None => Some((p, d)),
        };
        lemma_scan_best_fits(left, b, marks, v, p + v.len(), next);
    } else {
        lemma_scan_best_fits(left, b, marks, v, p + 1, best);
    }
}

/// The view of captured values held as characters.
pub open spec fn vars_view(v: Seq<(Vec<char>, usize)>) -> Seq<(Seq<char>, nat)> {
    v.map_values(|x: (Vec<char>, usize)| (x.0@, x.1 as nat))
}

/// Places each captured value, in order, on its best free occurrence in the
/// new name.
fn place_slots(old: &Vec<char>, new: &Vec<char>, vars: &Vec<(Vec<char>, usize)>) -> (marks: Vec<usize>)
    requires
        forall|i: int| 0 <= i < vars@.len() ==> (#[trigger] vars@[i]).1 <= old@.len(),
        old@.len() + new@.len() <= usize::MAX,
        vars@.len() < usize::MAX,
    ensures
        marks@ == slot_marks(vars_view(vars@), old@, new@),
        marks@.len() == new@.len(),
{
    let ghost vv = vars_view(vars@);
    let mut marks: Vec<usize> = Vec::new();
    let mut t: usize = 0;
    while t < new.len()
        invariant
            t <= new@.len(),
            marks@ == Seq::new(t as nat, |u: int| 0usize),
        decreases new.len() - t,
    {
        marks.push(0);
        t = t + 1;
        assert(marks@ =~= Seq::new(t as nat, |u: int| 0usize));
    }
    assert(marks@ =~= slot_marks(vv.take(0), old@, new@));
    let mut i: usize = 0;
    while i < vars.len()
        invariant
            i <= vars@.len() < usize::MAX,
            vv == vars_view(vars@),
            forall|j: int| 0 <= j < vars@.len() ==> (#[trigger] vars@[j]).1 <= old@.len(),
            old@.len() + new@.len() <= usize::MAX,
            marks@ == slot_marks(vv.take(i as int), old@, new@),
            marks@.len() == new@.len(),
        decreases vars.len() - i,
    {
        assert(vv.take(i + 1).drop_last() =~= vv.take(i as int));
        let ghost before = marks@;
        let value = &vars[i].0;
        let start = vars[i].1;
        match best_occurrence(old, start, new, &marks, value) {
            Some(p) => {
                let end = p + value.len();
                let mut t: usize = p;
                while t < end
                    invariant
                        p <= t <= end == p + value@.len() <= new@.len(),
                        i < vars@.len() < usize::MAX,
                        marks@.len() == new@.len(),
                        forall|u: int| 0 <= u < new@.len() ==> (#[trigger] marks@[u]) == if p <= u < t {
                            (i + 1) as usize
                        } else {
                            before[u]
                        },
                    decreases end - t,
                {
                    marks.set(t, i + 1);
                    t = t + 1;
                }
                assert(marks@ =~= take_span(before, p as int, value@.len() as int, (i + 1) as usize));
            },
            None => {},
        }
        i = i + 1;
    }
    assert(vv.take(i as int) =~= vv);
    marks
}

/// A piece of a rewrite rule: a literal character, or the value of the
/// capture slot with the given number (from 1).
#[derive(Clone, Copy, Debug, PartialEq, Eq, Structural)]
pub enum RulePiece {
    Text(char),
    Slot(usize),
}

/// The character at position `t` of a text, or a space outside it.
pub open spec fn char_at(text: Seq<char>, t: int) -> char {
    if 0 <= t < text.len() {
        text[t]
    } else {
        ' '
    }
}

/// The pieces of the rule for the first `n` characters of the new name:
/// free characters stay literal, each span taken by a slot becomes that slot.
pub open spec fn pieces_upto(text: Seq<char>, marks: Seq<usize>, n: int) -> Seq<RulePiece>
    decreases n,
{
    if n <= 0 {
        Seq::empty()
    } else {
        let p = pieces_upto(text, marks, n - 1);
        let t = n - 1;
        if marks[t] == 0 {
            p.push(RulePiece::Text(char_at(text, t)))
        } else if t == 0 || marks[t - 1] != marks[t] {
            p.push(RulePiece::Slot(marks[t]))
        } else {
            p
        }
    }
}

/// The rewrite rule that turns `old`, matched by `template`, into `new`:
/// `None` when the template does not match `old`.
pub open spec fn rule_spec(template: Seq<char>, old: Seq<char>, new: Seq<char>) -> Option<Seq<RulePiece>> {
    match captures_of(anchored(template), old) {
        None => None,
        Some(caps) => Some(
            pieces_upto(new, slot_marks(present_values(caps), old, new), new.len() as int),
        ),
    }
}

fn pieces_from_marks(new: &Vec<char>, marks: &Vec<usize>) -> (r: Vec<RulePiece>)
    requires
        marks@.len() == new@.len(),
    ensures
        r@ == pieces_upto(new@, marks@, new@.len() as int),
{
    let mut r: Vec<RulePiece> = Vec::new();
    let mut t: usize = 0;
    while t < new.len()
        invariant
            t <= new@.len() == marks@.len(),
            r@ == pieces_upto(new@, marks@, t as int),
        decreases new.len() - t,
    {
        if marks[t] == 0 {
            r.push(RulePiece::Text(new[t]));
        } else if t == 0 || marks[t - 1] != marks[t] {
            r.push(RulePiece::Slot(marks[t]));
        }
        t = t + 1;
    }
    r
}

proof fn lemma_present_values_len(caps: Seq<Option<(Seq<char>, nat)>>)
    ensures
        present_values(caps).len() <= caps.len(),
        caps.len() > 0 ==> present_values(caps).len() < caps.len(),
    decreases caps.len(),
{
    if caps.len() > 1 {
        lemma_present_values_len(caps.drop_last());
    }
}

/// Whether a captured value lies inside a text of length `n`.
pub open spec fn capture_within(g: Option<(String, usize)>, n: nat) -> bool {
    match g {
        None => true,
        Some(p) => p.1 + p.0@.len() <= n,
    }
}

/// The captured values that took part in a match, as characters.
pub(crate) fn present_vars(caps: &Vec<Option<(String, usize)>>, text: &String) -> (r: Vec<(Vec<char>, usize)>)
    requires
        forall|i: int| 0 <= i < caps@.len() ==> capture_within(#[trigger] caps@[i], text@.len()),
    ensures
        vars_view(r@) == present_values(captures_view(caps@)),
        forall|i: int| 0 <= i < r@.len() ==> (#[trigger] r@[i]).1 <= text@.len(),
{
    let ghost cv = captures_view(caps@);
    let mut r: Vec<(Vec<char>, usize)> = Vec::new();
    if caps.len() == 0 {
        return r;
    }
    let mut i: usize = 1;
    assert(vars_view(r@) =~= present_values(cv.take(1)));
    while i < caps.len()
        invariant
            1 <= i <= caps@.len(),
            cv == captures_view(caps@),
            forall|j: int| 0 <= j < caps@.len() ==> capture_within(#[trigger] caps@[j], text@.len()),
            vars_view(r@) == present_values(cv.take(i as int)),
            forall|j: int| 0 <= j < r@.len() ==> (#[trigger] r@[j]).1 <= text@.len(),
        decreases caps.len() - i,
    {
        assert(cv.take(i + 1).drop_last() =~= cv.take(i as int));
        match &caps[i] {
            Some(g) => {
                assert(capture_within(caps@[i as int], text@.len()));
                r.push((chars_of(g.0.as_str()), g.1));
                assert(vars_view(r@) =~= present_values(cv.take(i + 1)));
            },
            None => {},
        }
        i = i + 1;
    }
    assert(cv.take(i as int) =~= cv);
    r
}

/// Derives the rewrite rule that turns `old`, matched by `template`, into
/// `new_name`: each captured value of `old`, in order, takes the free
/// occurrence of itself in `new_name` whose left context is closest in
/// character histogram to its own left context in `old`; a value that does
/// not occur is left out. `None` when the template does not match `old`.
pub fn rewrite_rule(template: &String, old: &String, new_name: &String) -> (r: Option<Vec<RulePiece>>)
    requires
        old@.len() + new_name@.len() <= usize::MAX,
    ensures
        match r {
            None => rule_spec(template@, old@, new_name@) is None,
            Some(pieces) => rule_spec(template@, old@, new_name@) == Some(pieces@),
        },
        is_match_of(anchored(template@), old@) ==> r is Some,
        captures_of(anchored(template@), old@) matches Some(c) ==> c.len() <= usize::MAX,
{
    let pattern = anchor(template);
    let caps = match regex_captures(pattern.as_str(), old.as_str()) {
        None => {
            return None;
        },
        Some(c) => c,
    };
    let n_caps = caps.len();
    let vars = present_vars(&caps, old);
    proof {
        lemma_present_values_len(captures_view(caps@));
        assert(vars_view(vars@).len() == vars@.len());
    }
    let old_chars = chars_of(old.as_str());
    let new_chars = chars_of(new_name.as_str());
    let marks = place_slots(&old_chars, &new_chars, &vars);
    Some(pieces_from_marks(&new_chars, &marks))
}

/// A rule expanded with the captured values of one name: literal pieces are
/// copied, slot `i` becomes the `i`-th value, or nothing if there is none.
pub open spec fn expand_spec(pieces: Seq<RulePiece>, vals: Seq<Seq<char>>) -> Seq<char>
    decreases pieces.len(),
{
    if pieces.len() == 0 {
        Seq::empty()
    } else {
        expand_spec(pieces.drop_last(), vals) + match pieces.last() {
            RulePiece::Text(c) => seq![c],
            RulePiece::Slot(i) => if 1 <= i <= vals.len() {
                vals[i - 1]
            } else {
                Seq::empty()
            },
        }
    }
}

/// The texts of captured values.
pub open spec fn values_of(vars: Seq<(Seq<char>, nat)>) -> Seq<Seq<char>> {
    vars.map_values(|x: (Seq<char>, nat)| x.0)
}

fn expand(pieces: &Vec<RulePiece>, vars: &Vec<(Vec<char>, usize)>) -> (r: Vec<char>)
    ensures
        r@ == expand_spec(pieces@, values_of(vars_view(vars@))),
{
    let ghost vals = values_of(vars_view(vars@));
    let mut r: Vec<char> = Vec::new();
    let mut k: usize = 0;
    while k < pieces.len()
        invariant
            k <= pieces@.len(),
            vals == values_of(vars_view(vars@)),
            r@ == expand_spec(pieces@.take(k as int), vals),
        decreases pieces.len() - k,
    {
        assert(pieces@.take(k + 1).drop_last() =~= pieces@.take(k as int));
        let ghost before = r@;
        match pieces[k] {
            RulePiece::Text(c) => {
                r.push(c);
            },
            RulePiece::Slot(i) => {
                if 1 <= i && i <= vars.len() {
                    let v = &vars[i - 1].0;
                    let mut t: usize = 0;
                    while t < v.len()
                        invariant
                            t <= v@.len(),
                            r@ == before + v@.take(t as int),
                        decreases v.len() - t,
                    {
                        r.push(v[t]);
                        t = t + 1;
                        assert(r@ =~= before + v@.take(t as int));
                    }
                    assert(v@.take(t as int) =~= v@);
                }
            },
        }
        assert(r@ =~= expand_spec(pieces@.take(k + 1), vals));
        k = k + 1;
    }
    assert(pieces@.take(k as int) =~= pieces@);
    r
}

/// Lexicographic order of texts by code point.
pub open spec fn seq_le(x: Seq<char>, y: Seq<char>) -> bool
    decreases x.len(),
{
    if x.len() == 0 {
        true
    } else if y.len() == 0 {
        false
    } else if x[0] != y[0] {
        x[0] < y[0]
    } else {
        seq_le(x.drop_first(), y.drop_first())
    }
}

/// Whether `x` comes before `y` or equals it, by code point.
pub fn text_le(x: &String, y: &String) -> (r: bool)
    ensures
        r == seq_le(x@, y@),
{
    let xs = chars_of(x.as_str());
    let ys = chars_of(y.as_str());
    let mut i: usize = 0;
    assert(xs@.skip(0) =~= xs@);
    assert(ys@.skip(0) =~= ys@);
    while i < xs.len() && i < ys.len()
        invariant
            i <= xs@.len(),
            i <= ys@.len(),
            xs@ == x@,
            ys@ == y@,
            seq_le(xs@, ys@) == seq_le(xs@.skip(i as int), ys@.skip(i as int)),
        decreases xs.len() - i,
    {
        assert(xs@.skip(i as int)[0] == xs@[i as int]);
        assert(ys@.skip(i as int)[0] == ys@[i as int]);
        if xs[i] != ys[i] {
            assert(xs@.skip(i as int).len() > 0 && ys@.skip(i as int).len() > 0);
            return xs[i] < ys[i];
        }
        assert(xs@.skip(i as int).drop_first() =~= xs@.skip(i + 1));
        assert(ys@.skip(i as int).drop_first() =~= ys@.skip(i + 1));
        i = i + 1;
    }
    assert(i == xs@.len() ==> xs@.skip(i as int).len() == 0);
    assert(i < xs@.len() ==> xs@.skip(i as int).len() > 0 && ys@.skip(i as int).len() == 0);
    i == xs.len()
}

/// The views of rename pairs.
pub open spec fn pairs_view(s: Seq<(String, String)>) -> Seq<(Seq<char>, Seq<char>)> {
    s.map_values(|p: (String, String)| (p.0@, p.1@))
}

/// Where `x` goes in `s`: after the last pair whose source is not after its
/// own, scanning back from the end.
pub open spec fn insert_pos(s: Seq<(Seq<char>, Seq<char>)>, x: (Seq<char>, Seq<char>)) -> int
    decreases s.len(),
{
    if s.len() == 0 {
        0
    } else if seq_le(s.last().0, x.0) {
        s.len() as int
    } else {
        insert_pos(s.drop_last(), x)
    }
}

/// Rename pairs ordered by source name, equal sources kept in order.
pub open spec fn sort_pairs(s: Seq<(Seq<char>, Seq<char>)>) -> Seq<(Seq<char>, Seq<char>)>
    decreases s.len(),
{
    if s.len() == 0 {
        Seq::empty()
    } else {
        let sorted = sort_pairs(s.drop_last());
        sorted.insert(insert_pos(sorted, s.last()), s.last())
    }
}

proof fn lemma_insert_pos_bounds(s: Seq<(Seq<char>, Seq<char>)>, x: (Seq<char>, Seq<char>))
    ensures
        0 <= insert_pos(s, x) <= s.len(),
    decreases s.len(),
{
    if s.len() > 0 {
        lemma_insert_pos_bounds(s.drop_last(), x);
    }
}

fn sort_by_source(items: &Vec<(String, String)>) -> (r: Vec<(String, String)>)
    ensures
        pairs_view(r@) == sort_pairs(pairs_view(items@)),
{
    let ghost iv = pairs_view(items@);
    let mut out: Vec<(String, String)> = Vec::new();
    let mut i: usize = 0;
    while i < items.len()
        invariant
            i <= items@.len(),
            iv == pairs_view(items@),
            pairs_view(out@) == sort_pairs(iv.take(i as int)),
        decreases items.len() - i,
    {
        assert(iv.take(i + 1).drop_last() =~= iv.take(i as int));
        let ghost ov = pairs_view(out@);
        let x = (items[i].0.clone(), items[i].1.clone());
        let mut j: usize = out.len();
        assert(ov.take(j as int) =~= ov);
        while j > 0 && !text_le(&out[j - 1].0, &x.0)
            invariant
                j <= out@.len(),
                ov == pairs_view(out@),
                insert_pos(ov, (x.0@, x.1@)) == insert_pos(ov.take(j as int), (x.0@, x.1@)),
            decreases j,
        {
            assert(ov.take(j as int).drop_last() =~= ov.take(j - 1));
            j = j - 1;
        }
        proof {
            if j > 0 {
                assert(ov.take(j as int).last() == ov[j - 1]);
            }
            lemma_insert_pos_bounds(ov, (x.0@, x.1@));
        }
        assert(insert_pos(ov, (x.0@, x.1@)) == j);
        out.insert(j, x);
        assert(pairs_view(out@) =~= ov.insert(j as int, (x.0@, x.1@)));
        i = i + 1;
    }
    assert(iv.take(i as int) =~= iv);
    out
}

/// The index of the first group that holds a name, or -1.
pub open spec fn group_of(groups: Seq<(Seq<char>, Seq<Seq<char>>)>, name: Seq<char>) -> int
    decreases groups.len(),
{
    if groups.len() == 0 {
        -1
    } else {
        let k = group_of(groups.drop_last(), name);
        if k >= 0 {
            k
        } else if groups.last().1.contains(name) {
            groups.len() - 1
        } else {
            -1
        }
    }
}

/// The new name of one member: the rule expanded with its captured values.
pub open spec fn renamed(template: Seq<char>, rule: Seq<RulePiece>, name: Seq<char>) -> Option<Seq<char>> {
    match captures_of(anchored(template), name) {
        None => None,
        Some(caps) => Some(expand_spec(rule, values_of(present_values(caps)))),
    }
}

/// The rename pairs of the members of a group, in member order.
pub open spec fn pairs_for(template: Seq<char>, rule: Seq<RulePiece>, members: Seq<Seq<char>>) -> Seq<
    (Seq<char>, Seq<char>),
>
    decreases members.len(),
{
    if members.len() == 0 {
        Seq::empty()
    } else {
        let p = pairs_for(template, rule, members.drop_last());
        match renamed(template, rule, members.last()) {
            Some(n) => p.push((members.last(), n)),
            None => p,
        }
    }
}

/// The rename plan for the group that holds `old`: each member paired with
/// its new name, ordered by member name; empty when no group holds `old` or
/// its template does not match it.
pub open spec fn plan_spec(
    groups: Seq<(Seq<char>, Seq<Seq<char>>)>,
    old: Seq<char>,
    new: Seq<char>,
) -> Seq<(Seq<char>, Seq<char>)> {
    let g = group_of(groups, old);
    if g < 0 {
        Seq::empty()
    } else {
        match rule_spec(groups[g].0, old, new) {
            None => Seq::empty(),
            Some(rule) => sort_pairs(pairs_for(groups[g].0, rule, groups[g].1)),
        }
    }
}

pub(crate) proof fn lemma_group_of_bounds(groups: Seq<(Seq<char>, Seq<Seq<char>>)>, name: Seq<char>)
    ensures
        -1 <= group_of(groups, name) < groups.len(),
    decreases groups.len(),
{
    if groups.len() > 0 {
        lemma_group_of_bounds(groups.drop_last(), name);
    }
}

proof fn lemma_group_of_member(groups: Seq<(Seq<char>, Seq<Seq<char>>)>, name: Seq<char>)
    ensures
        group_of(groups, name) >= 0 ==> groups[group_of(groups, name)].1.contains(name),
    decreases groups.len(),
{
    if groups.len() > 0 {
        lemma_group_of_member(groups.drop_last(), name);
        lemma_group_of_bounds(groups.drop_last(), name);
    }
}

proof fn lemma_pairs_for_contains(
    template: Seq<char>,
    rule: Seq<RulePiece>,
    members: Seq<Seq<char>>,
    a: Seq<char>,
    n: Seq<char>,
)
    requires
        members.contains(a),
        renamed(template, rule, a) == Some(n),
    ensures
        pairs_for(template, rule, members).contains((a, n)),
    decreases members.len(),
{
    let p = pairs_for(template, rule, members.drop_last());
    if members.last() == a {
        assert(pairs_for(template, rule, members) == p.push((a, n)));
        assert(p.push((a, n))[p.len() as int] == (a, n));
    } else {
        let j = choose|j: int| 0 <= j < members.len() && members[j] == a;
        assert(members.drop_last()[j] == a);
        lemma_pairs_for_contains(template, rule, members.drop_last(), a, n);
        let k = choose|k: int| 0 <= k < p.len() && p[k] == (a, n);
        match renamed(template, rule, members.last()) {
            Some(m) => {
                assert(p.push((members.last(), m))[k] == (a, n));
            },
            None => {},
        }
    }
}

proof fn lemma_sort_contains(s: Seq<(Seq<char>, Seq<char>)>, x: (Seq<char>, Seq<char>))
    requires
        s.contains(x),
    ensures
        sort_pairs(s).contains(x),
    decreases s.len(),
{
    let sorted = sort_pairs(s.drop_last());
    let pos = insert_pos(sorted, s.last());
    lemma_insert_pos_bounds(sorted, s.last());
    let r = sorted.insert(pos, s.last());
    if s.last() == x {
        assert(r[pos] == x);
    } else {
        let j = choose|j: int| 0 <= j < s.len() && s[j] == x;
        assert(s.drop_last()[j] == x);
        lemma_sort_contains(s.drop_last(), x);
        let k = choose|k: int| 0 <= k < sorted.len() && sorted[k] == x;
        if k < pos {
            assert(r[k] == x);
        } else {
            assert(r[k + 1] == x);
        }
    }
}

/// When the template of the group that holds `a` yields a rule, the plan
/// renames `a` itself to exactly `b`.
pub proof fn lemma_plan_holds_example(groups: Seq<(Seq<char>, Seq<Seq<char>>)>, a: Seq<char>, b: Seq<char>)
    requires
        group_of(groups, a) >= 0,
        rule_spec(groups[group_of(groups, a)].0, a, b) is Some,
        captures_of(anchored(groups[group_of(groups, a)].0), a) matches Some(c) ==> c.len() <= usize::MAX,
    ensures
        plan_spec(groups, a, b).contains((a, b)),
{
    let g = group_of(groups, a);
    let t = groups[g].0;
    let rule = rule_spec(t, a, b)->0;
    lemma_group_of_member(groups, a);
    lemma_rule_reproduces_example(t, a, b);
    lemma_pairs_for_contains(t, rule, groups[g].1, a, b);
    lemma_sort_contains(pairs_for(t, rule, groups[g].1), (a, b));
}

proof fn lemma_group_of_prefix(groups: Seq<(Seq<char>, Seq<Seq<char>>)>, name: Seq<char>, t: int)
    requires
        0 <= t <= groups.len(),
        group_of(groups.take(t), name) >= 0,
    ensures
        group_of(groups, name) == group_of(groups.take(t), name),
    decreases groups.len() - t,
{
    if t < groups.len() {
        assert(groups.take(t + 1).drop_last() =~= groups.take(t));
        lemma_group_of_prefix(groups, name, t + 1);
    } else {
        assert(groups.take(t) =~= groups);
    }
}

/// Whether a list of names holds `name`.
fn holds(names: &Vec<String>, name: &String) -> (r: bool)
    ensures
        r == string_views(names@).contains(name@),
{
    let ghost nv = string_views(names@);
    let mut i: usize = 0;
    while i < names.len()
        invariant
            i <= names@.len(),
            nv == string_views(names@),
            forall|j: int| 0 <= j < i ==> nv[j] != name@,
        decreases names.len() - i,
    {
        if names[i] == *name {
            assert(nv[i as int] == name@);
            return true;
        }
        i = i + 1;
    }
    false
}

/// The index of the first group that holds `name`.
pub(crate) fn find_member_group(groups: &Vec<TemplateGroup>, name: &String) -> (r: Option<usize>)
    ensures
        match r {
            None => group_of(groups_view(groups@), name@) < 0,
            Some(g) => group_of(groups_view(groups@), name@) == g as int,
        },
{
    let ghost gv = groups_view(groups@);
    let mut g: usize = 0;
    while g < groups.len()
        invariant
            g <= groups@.len(),
            gv == groups_view(groups@),
            group_of(gv.take(g as int), name@) < 0,
        decreases groups.len() - g,
    {
        assert(gv.take(g + 1).drop_last() =~= gv.take(g as int));
        if holds(&groups[g].members, name) {
            assert(group_of(gv.take(g + 1), name@) == g as int);
            proof {
                lemma_group_of_prefix(gv, name@, g + 1);
            }
            return Some(g);
        }
        g = g + 1;
    }
    assert(gv.take(g as int) =~= gv);
    None
}

/// Builds the rename plan for the group of `a`: every member of the group
/// whose name the group's template matches, paired with the name the rule
/// derived from `a` and `b` gives it, ordered by member name. Empty when no
/// group holds `a`, or its template does not match `a`. When every member
/// matches its group's template, as inferred groups do, the plan renames `a`
/// to exactly `b`.
pub fn rename_map(groups: &Vec<TemplateGroup>, a: &String, b: &String) -> (r: Vec<(String, String)>)
    requires
        a@.len() + b@.len() <= usize::MAX,
    ensures
        pairs_view(r@) == plan_spec(groups_view(groups@), a@, b@),
        members_match(groups_view(groups@)) && group_of(groups_view(groups@), a@) >= 0 ==> pairs_view(
            r@,
        ).contains((a@, b@)),
{
    let ghost gv = groups_view(groups@);
    proof {
        lemma_group_of_bounds(gv, a@);
        lemma_group_of_member(gv, a@);
    }
    let mut res: Vec<(String, String)> = Vec::new();
    let g = match find_member_group(groups, a) {
        None => {
            assert(pairs_view(res@) =~= Seq::<(Seq<char>, Seq<char>)>::empty());
            return res;
        },
        Some(g) => g,
    };
    let template = &groups[g].template;
    let found = rewrite_rule(template, a, b);
    proof {
        if members_match(gv) {
            let m = choose|m: int| 0 <= m < gv[g as int].1.len() && gv[g as int].1[m] == a@;
            assert(full_match(gv[g as int].0, gv[g as int].1[m]));
        }
    }
    let rule = match found {
        None => {
            assert(pairs_view(res@) =~= Seq::<(Seq<char>, Seq<char>)>::empty());
            return res;
        },
        Some(rule) => rule,
    };
    let pattern = anchor(template);
    let members = &groups[g].members;
    let ghost mv = string_views(members@);
    let mut i: usize = 0;
    assert(pairs_view(res@) =~= pairs_for(template@, rule@, mv.take(0)));
    while i < members.len()
        invariant
            i <= members@.len(),
            mv == string_views(members@),
            pattern@ == anchored(template@),
            pairs_view(res@) == pairs_for(template@, rule@, mv.take(i as int)),
        decreases members.len() - i,
    {
        assert(mv.take(i + 1).drop_last() =~= mv.take(i as int));
        let name = &members[i];
        match regex_captures(pattern.as_str(), name.as_str()) {
            Some(caps) => {
                let vars = present_vars(&caps, name);
                let new_chars = expand(&rule, &vars);
                let new_name = string_from_chars(&new_chars);
                res.push((name.clone(), new_name));
                assert(pairs_view(res@) =~= pairs_for(template@, rule@, mv.take(i + 1)));
            },
            None => {},
        }
        i = i + 1;
    }
    assert(mv.take(i as int) =~= mv);
    let r = sort_by_source(&res);
    proof {
        lemma_plan_holds_example(gv, a@, b@);
    }
    r
}

proof fn lemma_scan_best_closest(
    left: Seq<char>,
    b: Seq<char>,
    marks: Seq<usize>,
    v: Seq<char>,
    p: int,
    best: Option<(int, nat)>,
    prior: Seq<int>,
)
    requires
        0 <= p,
        free_occurrences(b, marks, v, 0) == prior + free_occurrences(b, marks, v, p),
        best is None <==> prior.len() == 0,
        forall|k: int| 0 <= k < prior.len() ==> prior[k] < p,
        best matches Some(q) ==> {
            &&& prior.contains(q.0)
            &&& q.1 == char_dist(left, b.take(q.0))
            &&& forall|k: int| 0 <= k < prior.len() ==> q.1 <= char_dist(left, b.take(#[trigger] prior[k]))
            &&& forall|k: int| 0 <= k < prior.len() && prior[k] < q.0 ==> q.1 < char_dist(left, b.take(#[trigger] prior[k]))
        },
    ensures
        ({
            let occ = free_occurrences(b, marks, v, 0);
            match scan_best(left, b, marks, v, p, best) {
                None => occ.len() == 0,
                Some(r) => {
                    &&& occ.contains(r.0)
                    &&& r.1 == char_dist(left, b.take(r.0))
                    &&& forall|k: int| 0 <= k < occ.len() ==> r.1 <= char_dist(left, b.take(#[trigger] occ[k]))
                    &&& forall|k: int| 0 <= k < occ.len() && occ[k] < r.0 ==> r.1 < char_dist(left, b.take(#[trigger] occ[k]))
                },
            }
        }),
    decreases b.len() - p,
{
    if v.len() == 0 || p < 0 || p + v.len() > b.len() {
        assert(free_occurrences(b, marks, v, 0) =~= prior);
    } else if fits(b, marks, v, p) {
        let d = char_dist(left, b.take(p));
        let next = match best {
            Some(q) => if d < q.1 {
                Some((p, d))
            } else {
                best
            },
            None => Some((p, d)),
        };
        let prior2 = prior.push(p);
        assert(prior2 + free_occurrences(b, marks, v, p + v.len()) =~= prior + free_occurrences(b, marks, v, p));
        assert(prior2[prior.len() as int] == p);
        assert forall|k: int| 0 <= k < prior.len() implies prior2[k] == prior[k] by {}
        match next {
            Some(q) => {
                assert(prior2.contains(q.0)) by {
                    if q.0 == p {
                        assert(prior2[prior.len() as int] == q.0);
                    } else {
                        let j = choose|j: int| 0 <= j < prior.len() && prior[j] == q.0;
                        assert(prior2[j] == q.0);
                    }
                }
                assert forall|k: int| 0 <= k < prior2.len() implies q.1 <= char_dist(left, b.take(#[trigger] prior2[k])) by {
                    if k < prior.len() {
                        assert(prior2[k] == prior[k]);
                    }
                }
                assert forall|k: int| 0 <= k < prior2.len() && prior2[k] < q.0 implies q.1 < char_dist(left, b.take(#[trigger] prior2[k])) by {
                    if k < prior.len() {
                        assert(prior2[k] == prior[k]);
                    }
                }
            },
            None => {},
        }
        lemma_scan_best_closest(left, b, marks, v, p + v.len(), next, prior2);
    } else {
        lemma_scan_best_closest(left, b, marks, v, p + 1, best, prior);
    }
}

/// The occurrence that the rule takes for a captured value is, among the
/// free occurrences of the value in the new name, one whose left context has
/// the histogram closest to the value's left context in the old name; every
/// occurrence before it is strictly farther. When there is no occurrence,
/// none is taken.
pub proof fn lemma_chosen_occurrence_closest(left: Seq<char>, b: Seq<char>, marks: Seq<usize>, v: Seq<char>)
    ensures
        ({
            let occ = free_occurrences(b, marks, v, 0);
            match scan_best(left, b, marks, v, 0, None) {
                None => occ.len() == 0,
                Some(r) => {
                    &&& occ.contains(r.0)
                    &&& forall|k: int|
                        0 <= k < occ.len() ==> char_dist(left, b.take(r.0)) <= char_dist(left, b.take(#[trigger] occ[k]))
                    &&& forall|k: int|
                        0 <= k < occ.len() && occ[k] < r.0 ==> char_dist(left, b.take(r.0)) < char_dist(left, b.take(#[trigger] occ[k]))
                },
            }
        }),
{
    assert(free_occurrences(b, marks, v, 0) =~= Seq::<int>::empty() + free_occurrences(b, marks, v, 0));
    lemma_scan_best_closest(left, b, marks, v, 0, None, Seq::empty());
}

/// The decimal digit for `d < 10`.
pub open spec fn digit_char(d: nat) -> char {
    seq!['0', '1', '2', '3', '4', '5', '6', '7', '8', '9'][d as int]
}

/// The decimal text of a number.
pub open spec fn decimal(n: nat) -> Seq<char>
    decreases n,
{
    if n < 10 {
        seq![digit_char(n)]
    } else {
        decimal(n / 10).push(digit_char(n % 10))
    }
}

fn digit(d: usize) -> (c: char)
    requires
        d < 10,
    ensures
        c == digit_char(d as nat),
{
    let digits: Vec<char> = vec!['0', '1', '2', '3', '4', '5', '6', '7', '8', '9'];
    assert(digits@ =~= seq!['0', '1', '2', '3', '4', '5', '6', '7', '8', '9']);
    digits[d]
}

fn push_decimal(out: &mut Vec<char>, n: usize)
    ensures
        final(out)@ == old(out)@ + decimal(n as nat),
    decreases n,
{
    if n < 10 {
        out.push(digit(n));
    } else {
        push_decimal(out, n / 10);
        out.push(digit(n % 10));
    }
}

/// A rule written as text: literal characters, and `${i}` for slot `i`.
pub open spec fn render(pieces: Seq<RulePiece>) -> Seq<char>
    decreases pieces.len(),
{
    if pieces.len() == 0 {
        Seq::empty()
    } else {
        render(pieces.drop_last()) + match pieces.last() {
            RulePiece::Text(c) => seq![c],
            RulePiece::Slot(i) => seq!['$', '{'] + decimal(i as nat) + seq!['}'],
        }
    }
}

/// The rewrite rule that turns `a`, matched by `template`, into `b`,
/// written with a `${i}` placeholder for each placed slot.
pub fn get_rename_str(template: &String, a: &String, b: &String) -> (r: Option<String>)
    requires
        a@.len() + b@.len() <= usize::MAX,
    ensures
        match rule_spec(template@, a@, b@) {
            None => r is None,
            Some(pieces) => r matches Some(text) && text@ == render(pieces),
        },
{
    let pieces = match rewrite_rule(template, a, b) {
        None => {
            return None;
        },
        Some(p) => p,
    };
    let mut out: Vec<char> = Vec::new();
    let mut k: usize = 0;
    while k < pieces.len()
        invariant
            k <= pieces@.len(),
            out@ == render(pieces@.take(k as int)),
        decreases pieces.len() - k,
    {
        assert(pieces@.take(k + 1).drop_last() =~= pieces@.take(k as int));
        let ghost before = out@;
        match pieces[k] {
            RulePiece::Text(c) => {
                out.push(c);
            },
            RulePiece::Slot(i) => {
                out.push('$');
                out.push('{');
                push_decimal(&mut out, i);
                out.push('}');
            },
        }
        assert(out@ =~= render(pieces@.take(k + 1)));
        k = k + 1;
    }
    assert(pieces@.take(k as int) =~= pieces@);
    Some(string_from_chars(&out))
}

/// How many pairs of a plan share their destination with an earlier pair.
pub open spec fn duplicates_upto(plan: Seq<(Seq<char>, Seq<char>)>, k: int) -> nat
    decreases k,
{
    if k <= 0 {
        0
    } else {
        duplicates_upto(plan, k - 1) + if exists|j: int| 0 <= j < k - 1 && #[trigger] plan[j].1 == plan[k - 1].1 {
            1nat
        } else {
            0nat
        }
    }
}

/// Counts the pairs of a plan whose destination an earlier pair already
/// has: renaming them would overwrite files.
pub fn duplicate_destinations(plan: &Vec<(String, String)>) -> (r: usize)
    ensures
        r as nat == duplicates_upto(pairs_view(plan@), plan@.len() as int),
{
    let ghost pv = pairs_view(plan@);
    let mut count: usize = 0;
    let mut k: usize = 0;
    while k < plan.len()
        invariant
            k <= plan@.len(),
            pv == pairs_view(plan@),
            count as nat == duplicates_upto(pv, k as int),
            count <= k,
        decreases plan.len() - k,
    {
        let mut j: usize = 0;
        let mut seen = false;
        while j < k
            invariant
                j <= k < plan@.len(),
                pv == pairs_view(plan@),
                seen <==> exists|t: int| 0 <= t < j && #[trigger] pv[t].1 == pv[k as int].1,
            decreases k - j,
        {
            if plan[j].1 == plan[k].1 {
                assert(pv[j as int].1 == pv[k as int].1);
                seen = true;
            }
            j = j + 1;
        }
        if seen {
            count = count + 1;
        }
        k = k + 1;
    }
    count
}

/// Slot `i` takes exactly the span of `b` from `p` where `v` occurs.
pub open spec fn span_at(marks: Seq<usize>, b: Seq<char>, i: usize, v: Seq<char>, p: int) -> bool {
    &&& 0 <= p
    &&& p + v.len() <= b.len()
    &&& v.len() > 0
    &&& b.subrange(p, p + v.len()) == v
    &&& forall|t: int| 0 <= t < marks.len() ==> (#[trigger] marks[t] == i <==> p <= t < p + v.len())
}

/// Slot `i` takes no position, or exactly one span of `b` where `v` occurs.
pub open spec fn slot_span(marks: Seq<usize>, b: Seq<char>, i: usize, v: Seq<char>) -> bool {
    (forall|t: int| 0 <= t < marks.len() ==> #[trigger] marks[t] != i) || exists|p: int|
        #[trigger] span_at(marks, b, i, v, p)
}

/// The slot marks of a new name are well formed for the captured values.
#[verifier::opaque]
pub open spec fn marks_ok(marks: Seq<usize>, b: Seq<char>, vars: Seq<(Seq<char>, nat)>) -> bool {
    &&& marks.len() == b.len()
    &&& forall|t: int| 0 <= t < marks.len() ==> #[trigger] marks[t] <= vars.len()
    &&& forall|i: int| 1 <= i <= vars.len() ==> slot_span(marks, b, i as usize, #[trigger] vars[i - 1].0)
}

proof fn lemma_slot_marks_ok(vars: Seq<(Seq<char>, nat)>, old: Seq<char>, new: Seq<char>)
    requires
        vars.len() < usize::MAX,
    ensures
        marks_ok(slot_marks(vars, old, new), new, vars),
        slot_marks(vars, old, new).len() == new.len(),
    decreases vars.len(),
{
    reveal(marks_ok);
    if vars.len() == 0 {
    } else {
        let pv = vars.drop_last();
        lemma_slot_marks_ok(pv, old, new);
        let m = slot_marks(pv, old, new);
        let (v, start) = vars.last();
        let k = vars.len() as usize;
        assert forall|i: int| 1 <= i < vars.len() implies #[trigger] vars[i - 1].0 == pv[i - 1].0 by {}
        lemma_scan_best_fits(old.take(start as int), new, m, v, 0, None);
        match scan_best(old.take(start as int), new, m, v, 0, None) {
            Some(q) => {
                assert(v.len() > 0);
                let m2 = take_span(m, q.0, v.len() as int, k);
                assert(slot_span(m2, new, k, v)) by {
                    assert(new.subrange(q.0, q.0 + v.len()) == v);
                    assert(span_at(m2, new, k, v, q.0));
                }
                assert forall|i: int| 1 <= i <= vars.len() implies slot_span(m2, new, i as usize, #[trigger] vars[i - 1].0) by {
                    if i < vars.len() {
                        assert(slot_span(m, new, i as usize, pv[i - 1].0));
                        assert(vars[i - 1].0 == pv[i - 1].0);
                        let vi = pv[i - 1].0;
                        if exists|p: int| #[trigger] span_at(m, new, i as usize, vi, p) {
                            let p = choose|p: int| #[trigger] span_at(m, new, i as usize, vi, p);
                            assert forall|t: int| 0 <= t < m2.len() implies (#[trigger] m2[t] == i as usize <==> p <= t < p + vi.len()) by {
                                if q.0 <= t < q.0 + v.len() {
                                    assert(m[t] == 0);
                                }
                            }
                            assert(span_at(m2, new, i as usize, vi, p));
                        } else {
                            assert forall|t: int| 0 <= t < m2.len() implies #[trigger] m2[t] != i as usize by {
                                if q.0 <= t < q.0 + v.len() {
                                } else {
                                    assert(m[t] != i as usize);
                                }
                            }
                        }
                    }
                }
            },
            None => {
                assert forall|i: int| 1 <= i <= vars.len() implies slot_span(m, new, i as usize, #[trigger] vars[i - 1].0) by {
                    if i == vars.len() {
                        assert forall|t: int| 0 <= t < m.len() implies #[trigger] m[t] != i as usize by {}
                    } else {
                        assert(slot_span(m, new, i as usize, pv[i - 1].0));
                    }
                }
            },
        }
    }
}

/// Where the expansion of the pieces for the first `n` positions ends: at
/// `n`, or at the end of the slot span that position `n - 1` lies in.
pub open spec fn cover(marks: Seq<usize>, b: Seq<char>, vars: Seq<(Seq<char>, nat)>, n: int) -> int {
    if n > 0 && marks[n - 1] != 0 {
        let i = marks[n - 1];
        let v = vars[i - 1].0;
        let p = choose|p: int| #[trigger] span_at(marks, b, i, v, p);
        p + v.len()
    } else {
        n
    }
}

proof fn lemma_span_start(marks: Seq<usize>, b: Seq<char>, i: usize, v: Seq<char>, p: int, t: int)
    requires
        span_at(marks, b, i, v, p),
        0 <= t < marks.len(),
        marks[t] == i,
        t == 0 || marks[t - 1] != i,
    ensures
        p == t,
{
    if t > 0 {
        assert(marks[t - 1] != i);
    }
}

proof fn lemma_pieces_step(b: Seq<char>, marks: Seq<usize>, n: int)
    requires
        0 < n <= b.len(),
        marks.len() == b.len(),
    ensures
        marks[n - 1] == 0 ==> pieces_upto(b, marks, n) == pieces_upto(b, marks, n - 1).push(
            RulePiece::Text(b[n - 1]),
        ),
        marks[n - 1] != 0 && (n - 1 == 0 || marks[n - 2] != marks[n - 1]) ==> pieces_upto(b, marks, n)
            == pieces_upto(b, marks, n - 1).push(RulePiece::Slot(marks[n - 1])),
        marks[n - 1] != 0 && n - 1 > 0 && marks[n - 2] == marks[n - 1] ==> pieces_upto(b, marks, n)
            == pieces_upto(b, marks, n - 1),
{
}

proof fn lemma_cover_step(marks: Seq<usize>, b: Seq<char>, vars: Seq<(Seq<char>, nat)>, n: int)
    requires
        marks_ok(marks, b, vars),
        0 < n <= b.len(),
    ensures
        ({
            let t = n - 1;
            let i = marks[t];
            &&& cover(marks, b, vars, n) <= b.len()
            &&& n <= cover(marks, b, vars, n)
            &&& i == 0 ==> cover(marks, b, vars, n - 1) == t && cover(marks, b, vars, n) == n
            &&& i != 0 && (t == 0 || marks[t - 1] != i) ==> {
                &&& 1 <= i <= vars.len()
                &&& cover(marks, b, vars, n - 1) == t
                &&& cover(marks, b, vars, n) == t + vars[i - 1].0.len()
                &&& b.subrange(t, t + vars[i - 1].0.len()) == vars[i - 1].0
            }
            &&& i != 0 && t > 0 && marks[t - 1] == i ==> cover(marks, b, vars, n) == cover(marks, b, vars, n - 1)
        }),
{
    reveal(marks_ok);
    let t = n - 1;
    if t > 0 && marks[t - 1] != 0 {
        let j = marks[t - 1];
        assert(slot_span(marks, b, j, vars[j - 1].0));
        assert(marks[t - 1] == j);
        let pj = choose|p: int| #[trigger] span_at(marks, b, j, vars[j - 1].0, p);
        assert(span_at(marks, b, j, vars[j - 1].0, pj));
        if marks[t] != j {
            assert(cover(marks, b, vars, n - 1) == t);
        }
    }
    if marks[t] != 0 {
        let i = marks[t];
        let v = vars[i - 1].0;
        assert(slot_span(marks, b, i, v));
        assert(marks[t] == i);
        let p = choose|p: int| #[trigger] span_at(marks, b, i, v, p);
        assert(span_at(marks, b, i, v, p));
        if t == 0 || marks[t - 1] != i {
            lemma_span_start(marks, b, i, v, p, t);
        }
    }
}

proof fn lemma_expand_push(prev: Seq<RulePiece>, x: RulePiece, vals: Seq<Seq<char>>)
    ensures
        expand_spec(prev.push(x), vals) == expand_spec(prev, vals) + match x {
            RulePiece::Text(c) => seq![c],
            RulePiece::Slot(i) => if 1 <= i <= vals.len() {
                vals[i - 1]
            } else {
                Seq::empty()
            },
        },
{
    assert(prev.push(x).drop_last() =~= prev);
}

proof fn lemma_expand_prefix(marks: Seq<usize>, b: Seq<char>, vars: Seq<(Seq<char>, nat)>, n: int)
    requires
        marks_ok(marks, b, vars),
        marks.len() == b.len(),
        0 <= n <= b.len(),
    ensures
        n <= cover(marks, b, vars, n) <= b.len(),
        expand_spec(pieces_upto(b, marks, n), values_of(vars)) == b.take(cover(marks, b, vars, n)),
    decreases n,
{
    let vals = values_of(vars);
    if n == 0 {
        assert(b.take(0) =~= Seq::<char>::empty());
    } else {
        lemma_expand_prefix(marks, b, vars, n - 1);
        lemma_pieces_step(b, marks, n);
        lemma_cover_step(marks, b, vars, n);
        let t = n - 1;
        let prev = pieces_upto(b, marks, n - 1);
        let i = marks[t];
        if i == 0 {
            lemma_expand_push(prev, RulePiece::Text(b[t]), vals);
            assert(b.take(t) + seq![b[t]] =~= b.take(n));
            assert(expand_spec(pieces_upto(b, marks, n), vals) == b.take(n));
        } else if t == 0 || marks[t - 1] != i {
            lemma_expand_push(prev, RulePiece::Slot(i), vals);
            assert(vals[i - 1] == vars[i - 1].0);
            assert(b.take(t) + vars[i - 1].0 =~= b.take(t + vars[i - 1].0.len()));
            assert(vals.len() == vars.len());
            assert(expand_spec(pieces_upto(b, marks, n), vals) == b.take(t + vars[i - 1].0.len()));
        }
    }
}

/// The rule derived from an example renames the example itself to exactly
/// the new name asked for.
pub proof fn lemma_rule_reproduces_example(template: Seq<char>, old: Seq<char>, new: Seq<char>)
    requires
        rule_spec(template, old, new) is Some,
        captures_of(anchored(template), old) matches Some(caps) ==> caps.len() <= usize::MAX,
    ensures
        renamed(template, rule_spec(template, old, new)->0, old) == Some(new),
{
    let caps = captures_of(anchored(template), old)->0;
    let vars = present_values(caps);
    lemma_present_values_len(caps);
    let marks = slot_marks(vars, old, new);
    lemma_slot_marks_ok(vars, old, new);
    lemma_expand_prefix(marks, new, vars, new.len() as int);
    assert(new.take(new.len() as int) =~= new);
}

} // verus!
