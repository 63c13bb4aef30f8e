//! Character histograms of texts, and the distance between two of them.
use crate::text::chars_of;
use std::collections::HashMap;
use vstd::prelude::*;
use vstd::set::fold::{is_fun_commutative, lemma_fold_empty, lemma_fold_insert};
use vstd::std_specs::iter::IteratorSpec;

verus! {

broadcast use vstd::std_specs::hash::group_hash_axioms;

/// How many characters of a text have the code point `k`.
pub open spec fn occurrences(s: Seq<char>, k: u32) -> nat
    decreases s.len(),
{
    if s.len() == 0 {
        0
    } else {
        occurrences(s.drop_last(), k) + if s.last() as u32 == k {
            1nat
        } else {
            0nat
        }
    }
}

/// The histogram of a text: each character that occurs in it, keyed by its
/// code point, mapped to how many times it occurs.
pub open spec fn is_histo_of(m: Map<u32, usize>, s: Seq<char>) -> bool {
    &&& forall|k: u32| #[trigger] m.contains_key(k) <==> occurrences(s, k) > 0
    &&& forall|k: u32| #[trigger] m.contains_key(k) ==> m[k] == occurrences(s, k)
}

/// The count of a key in a histogram, 0 when absent.
pub open spec fn count_in(m: Map<u32, usize>, k: u32) -> nat {
    if m.contains_key(k) {
        m[k] as nat
    } else {
        0
    }
}

pub open spec fn abs_diff(x: nat, y: nat) -> nat {
    if x >= y {
        (x - y) as nat
    } else {
        (y - x) as nat
    }
}

/// The step of a sum over keys of the terms `t`.
pub open spec fn sum_of(t: spec_fn(u32) -> nat) -> spec_fn(nat, u32) -> nat {
    |acc: nat, k: u32| acc + t(k)
}

/// The term that each key adds to the distance between `a` and `b`.
pub open spec fn diff_term(a: Map<u32, usize>, b: Map<u32, usize>) -> spec_fn(u32) -> nat {
    |k: u32| abs_diff(count_in(a, k), count_in(b, k))
}

/// The step of the sum that makes the distance between `a` and `b`.
pub open spec fn dist_term(a: Map<u32, usize>, b: Map<u32, usize>) -> spec_fn(nat, u32) -> nat {
    sum_of(diff_term(a, b))
}

/// The distance between two histograms: over every key present in either,
/// the sum of the absolute differences of the counts.
pub open spec fn histo_dist(a: Map<u32, usize>, b: Map<u32, usize>) -> nat {
    (a.dom() + b.dom()).fold(0nat, dist_term(a, b))
}

/// The histogram of the first `end` characters of `v`.
pub(crate) fn histo_of_prefix(v: &Vec<char>, end: usize) -> (r: HashMap<u32, usize>)
    requires
        end <= v@.len(),
    ensures
        is_histo_of(r@, v@.take(end as int)),
{
    let mut res: HashMap<u32, usize> = HashMap::new();
    let mut i: usize = 0;
    while i < end
        invariant
            i <= end <= v@.len(),
            is_histo_of(res@, v@.take(i as int)),
        decreases end - i,
    {
        let c = v[i];
        let key = c as u32;
        let ghost pre = v@.take(i as int);
        assert(v@.take(i + 1).drop_last() =~= pre);
        proof {
            lemma_occurrences_bound(pre, key);
        }
        let n: usize = match res.get(&key) {
            Some(k) => *k,
            None => 0,
        };
        res.insert(key, n + 1);
        i = i + 1;
    }
    res
}

proof fn lemma_occurrences_bound(s: Seq<char>, c: u32)
    ensures
        occurrences(s, c) <= s.len(),
    decreases s.len(),
{
    if s.len() > 0 {
        lemma_occurrences_bound(s.drop_last(), c);
    }
}

/// The histogram of a text.
pub fn text_histo(text: &str) -> (r: HashMap<u32, usize>)
    ensures
        is_histo_of(r@, text@),
{
    let v = chars_of(text);
    let r = histo_of_prefix(&v, v.len());
    assert(v@.take(v@.len() as int) =~= text@);
    r
}


proof fn lemma_dist_term_commutative(a: Map<u32, usize>, b: Map<u32, usize>)
    ensures
        is_fun_commutative(dist_term(a, b)),
{
    lemma_sum_commutative(diff_term(a, b));
}

proof fn lemma_sum_commutative(t: spec_fn(u32) -> nat)
    ensures
        is_fun_commutative(sum_of(t)),
{
}

proof fn lemma_sum_remove(s: Set<u32>, t: spec_fn(u32) -> nat, x: u32)
    requires
        s.finite(),
        s.contains(x),
    ensures
        s.fold(0nat, sum_of(t)) == s.remove(x).fold(0nat, sum_of(t)) + t(x),
{
    lemma_sum_commutative(t);
    assert(s.remove(x).insert(x) =~= s);
    lemma_fold_insert(s.remove(x), 0nat, sum_of(t), x);
}

proof fn lemma_sum_le(s: Set<u32>, t1: spec_fn(u32) -> nat, t2: spec_fn(u32) -> nat)
    requires
        s.finite(),
        forall|k: u32| s.contains(k) ==> t1(k) <= t2(k),
    ensures
        s.fold(0nat, sum_of(t1)) <= s.fold(0nat, sum_of(t2)),
    decreases s.len(),
{
    if s.len() == 0 {
        assert(s =~= Set::empty());
        lemma_fold_empty(0nat, sum_of(t1));
        lemma_fold_empty(0nat, sum_of(t2));
    } else {
        let x = s.choose();
        lemma_sum_remove(s, t1, x);
        lemma_sum_remove(s, t2, x);
        lemma_sum_le(s.remove(x), t1, t2);
    }
}

proof fn lemma_sum_add(s: Set<u32>, t1: spec_fn(u32) -> nat, t2: spec_fn(u32) -> nat, t3: spec_fn(u32) -> nat)
    requires
        s.finite(),
        forall|k: u32| s.contains(k) ==> t3(k) == t1(k) + t2(k),
    ensures
        s.fold(0nat, sum_of(t3)) == s.fold(0nat, sum_of(t1)) + s.fold(0nat, sum_of(t2)),
    decreases s.len(),
{
    if s.len() == 0 {
        assert(s =~= Set::empty());
        lemma_fold_empty(0nat, sum_of(t1));
        lemma_fold_empty(0nat, sum_of(t2));
        lemma_fold_empty(0nat, sum_of(t3));
    } else {
        let x = s.choose();
        lemma_sum_remove(s, t1, x);
        lemma_sum_remove(s, t2, x);
        lemma_sum_remove(s, t3, x);
        lemma_sum_add(s.remove(x), t1, t2, t3);
    }
}

proof fn lemma_sum_single(s: Set<u32>, t: spec_fn(u32) -> nat, x: u32)
    requires
        s.finite(),
        s.contains(x),
        forall|k: u32| s.contains(k) ==> t(k) == if k == x { 1nat } else { 0nat },
    ensures
        s.fold(0nat, sum_of(t)) == 1,
{
    let z = |k: u32| 0nat;
    lemma_sum_remove(s, t, x);
    lemma_sum_le(s.remove(x), t, z);
    lemma_sum_le(s.remove(x), z, t);
    lemma_sum_zero(s.remove(x));
}

proof fn lemma_sum_zero(s: Set<u32>)
    requires
        s.finite(),
    ensures
        s.fold(0nat, sum_of(|k: u32| 0nat)) == 0,
    decreases s.len(),
{
    if s.len() == 0 {
        assert(s =~= Set::empty());
        lemma_fold_empty(0nat, sum_of(|k: u32| 0nat));
    } else {
        let x = s.choose();
        lemma_sum_remove(s, |k: u32| 0nat, x);
        lemma_sum_zero(s.remove(x));
    }
}

proof fn lemma_fold_monotone(s: Set<u32>, t: Set<u32>, a: Map<u32, usize>, b: Map<u32, usize>)
    requires
        t.finite(),
        s.subset_of(t),
    ensures
        s.fold(0nat, dist_term(a, b)) <= t.fold(0nat, dist_term(a, b)),
    decreases t.len(),
{
    let f = dist_term(a, b);
    lemma_dist_term_commutative(a, b);
    if s != t {
        let x = choose|x: u32| t.contains(x) && !s.contains(x);
        if forall|y: u32| t.contains(y) ==> s.contains(y) {
            assert(s =~= t);
        }
        let t2 = t.remove(x);
        assert(t2.insert(x) =~= t);
        lemma_fold_insert(t2, 0nat, f, x);
        lemma_fold_monotone(s, t2, a, b);
    }
}

/// Counting and comparing character histograms.
pub trait TextHisto: Sized {
    /// How many times a character was counted.
    spec fn count_spec(&self, c: char) -> nat;

    /// The distance to another histogram.
    spec fn dist_spec(&self, other: &Self) -> nat;

    fn count(&self, c: &char) -> (r: usize)
        ensures
            r as nat == self.count_spec(*c),
    ;

    fn dist(&self, other: &Self) -> (r: usize)
        requires
            self.dist_spec(other) <= usize::MAX,
        ensures
            r as nat == self.dist_spec(other),
    ;
}

impl TextHisto for HashMap<u32, usize> {
    open spec fn count_spec(&self, c: char) -> nat {
        count_in(self@, c as u32)
    }

    open spec fn dist_spec(&self, other: &Self) -> nat {
        histo_dist(self@, other@)
    }

    fn count(&self, c: &char) -> (r: usize) {
        match self.get(&(*c as u32)) {
            Some(n) => *n,
            None => 0,
        }
    }

    fn dist(&self, other: &Self) -> (r: usize) {
        let ghost f = dist_term(self@, other@);
        let ghost all = self@.dom() + other@.dom();
        proof {
            lemma_dist_term_commutative(self@, other@);
            lemma_fold_empty(0nat, f);
            vstd::std_specs::hash::axiom_hashmap_view_finite_dom(*self);
            vstd::std_specs::hash::axiom_hashmap_view_finite_dom(*other);
        }
        let mut res: usize = 0;
        let ghost mut seen: Set<u32> = Set::empty();
        let ghost ks1 = vstd::std_specs::hash::spec_keys_iter(other).remaining();
        let ghost mut nit: int = 0;
        for k in it: other.keys()
            invariant
                it.seq() == ks1,
                nit == it.index(),
                forall|j: int| 0 <= j < nit ==> seen.contains(*ks1[j]),
                seen.subset_of(other@.dom()),
                forall|j: int| 0 <= j < it.index() ==> seen.contains(*it.seq()[j]),
                forall|x: u32|
                    seen.contains(x) ==> exists|j: int| 0 <= j < it.index() && *it.seq()[j] == x,
                res as nat == seen.fold(0nat, f),
                all.fold(0nat, f) <= usize::MAX,
                all == self@.dom() + other@.dom(),
                all.finite(),
                other@.dom().finite(),
                f == dist_term(self@, other@),
                is_fun_commutative(f),
        {
            let ghost x = *k;
            assert(!seen.contains(x)) by {
                if seen.contains(x) {
                    let j = choose|j: int| 0 <= j < it.index() && *it.seq()[j] == x;
                    assert(it.seq()[j] == it.seq()[it.index() as int]);
                }
            }
            assert(other@.dom().contains(x)) by {
                assert(it.seq().unref()[it.index() as int] == x);
            }
            let mine: usize = match self.get(k) {
                Some(n) => *n,
                None => 0,
            };
            let theirs: usize = match other.get(k) {
                Some(n) => *n,
                None => 0,
            };
            let d: usize = if mine >= theirs {
                mine - theirs
            } else {
                theirs - mine
            };
            proof {
                lemma_fold_insert(seen, 0nat, f, x);
                vstd::set_lib::lemma_set_subset_finite(other@.dom(), seen);
                lemma_fold_monotone(seen.insert(x), all, self@, other@);
                seen = seen.insert(x);
                nit = nit + 1;
            }
            res = res + d;
        }
        assert(seen =~= other@.dom()) by {
            assert forall|x: u32| other@.dom().contains(x) implies seen.contains(x) by {
                assert(ks1.unref().to_set().contains(x));
                let j = choose|j: int| 0 <= j < ks1.unref().len() && ks1.unref()[j] == x;
                assert(*ks1[j] == x);
            }
        }
        let ghost ks2 = vstd::std_specs::hash::spec_keys_iter(self).remaining();
        let ghost mut nit2: int = 0;
        for k in it2: self.keys()
            invariant
                it2.seq() == ks2,
                nit2 == it2.index(),
                forall|j: int| 0 <= j < nit2 ==> seen.contains(*ks2[j]),
                seen.subset_of(all),
                other@.dom().subset_of(seen),
                forall|j: int| 0 <= j < it2.index() ==> seen.contains(*it2.seq()[j]),
                forall|x: u32|
                    seen.contains(x) ==> other@.dom().contains(x) || exists|j: int|
                        0 <= j < it2.index() && *it2.seq()[j] == x,
                res as nat == seen.fold(0nat, f),
                all.fold(0nat, f) <= usize::MAX,
                all == self@.dom() + other@.dom(),
                all.finite(),
                f == dist_term(self@, other@),
                is_fun_commutative(f),
        {
            let ghost x = *k;
            assert(self@.dom().contains(x)) by {
                assert(it2.seq().unref()[it2.index() as int] == x);
            }
            if !other.contains_key(k) {
                assert(!seen.contains(x)) by {
                    if seen.contains(x) {
                        let j = choose|j: int| 0 <= j < it2.index() && *it2.seq()[j] == x;
                        assert(it2.seq()[j] == it2.seq()[it2.index() as int]);
                    }
                }
                let mine: usize = match self.get(k) {
                    Some(n) => *n,
                    None => 0,
                };
                proof {
                    lemma_fold_insert(seen, 0nat, f, x);
                    vstd::set_lib::lemma_set_subset_finite(all, seen);
                    lemma_fold_monotone(seen.insert(x), all, self@, other@);
                    seen = seen.insert(x);
                }
                res = res + mine;
            }
            proof {
                nit2 = nit2 + 1;
            }
        }
        assert(seen =~= all) by {
            assert forall|x: u32| self@.dom().contains(x) implies seen.contains(x) by {
                assert(ks2.unref().to_set().contains(x));
                let j = choose|j: int| 0 <= j < ks2.unref().len() && ks2.unref()[j] == x;
                assert(*ks2[j] == x);
            }
        }
        res
    }
}

/// The histogram of a text as a map.
pub open spec fn histo(s: Seq<char>) -> Map<u32, usize> {
    Map::new(|k: u32| occurrences(s, k) > 0, |k: u32| occurrences(s, k) as usize)
}

/// The distance between the character histograms of two texts.
pub open spec fn char_dist(s: Seq<char>, t: Seq<char>) -> nat {
    histo_dist(histo(s), histo(t))
}

/// The count of each key of a histogram.
pub open spec fn count_term(m: Map<u32, usize>) -> spec_fn(u32) -> nat {
    |k: u32| count_in(m, k)
}

pub(crate) proof fn lemma_histo_unique(m: Map<u32, usize>, s: Seq<char>)
    requires
        is_histo_of(m, s),
    ensures
        m == histo(s),
{
    assert(m =~= histo(s));
}

proof fn lemma_histo_finite(s: Seq<char>)
    ensures
        histo(s).dom().finite(),
    decreases s.len(),
{
    if s.len() == 0 {
        assert(histo(s).dom() =~= Set::empty());
    } else {
        lemma_histo_finite(s.drop_last());
        assert(histo(s).dom() =~= histo(s.drop_last()).dom().insert(s.last() as u32));
    }
}

proof fn lemma_histo_total(s: Seq<char>, u: Set<u32>)
    requires
        u.finite(),
        histo(s).dom().subset_of(u),
        s.len() <= usize::MAX,
    ensures
        u.fold(0nat, sum_of(count_term(histo(s)))) == s.len(),
    decreases s.len(),
{
    if s.len() == 0 {
        let z = |k: u32| 0nat;
        lemma_sum_le(u, count_term(histo(s)), z);
        lemma_sum_zero(u);
    } else {
        let p = s.drop_last();
        let x = s.last() as u32;
        assert forall|k: u32| histo(p).dom().contains(k) implies u.contains(k) by {
            assert(histo(s).dom().contains(k));
        }
        lemma_histo_total(p, u);
        let d = |k: u32| if k == x { 1nat } else { 0nat };
        assert forall|k: u32| u.contains(k) implies count_term(histo(s))(k) == count_term(histo(p))(k) + d(k) by {
            lemma_occurrences_bound(s, k);
            lemma_occurrences_bound(p, k);
        }
        lemma_sum_add(u, count_term(histo(p)), d, count_term(histo(s)));
        assert(histo(s).dom().contains(x));
        lemma_sum_single(u, d, x);
    }
}

/// The distance between the histograms of two texts is at most the sum of
/// their lengths.
pub proof fn lemma_char_dist_bound(s: Seq<char>, t: Seq<char>)
    requires
        s.len() <= usize::MAX,
        t.len() <= usize::MAX,
    ensures
        char_dist(s, t) <= s.len() + t.len(),
{
    let a = histo(s);
    let b = histo(t);
    let u = a.dom() + b.dom();
    lemma_histo_finite(s);
    lemma_histo_finite(t);
    let both = |k: u32| count_in(a, k) + count_in(b, k);
    lemma_sum_le(u, diff_term(a, b), both);
    lemma_sum_add(u, count_term(a), count_term(b), both);
    lemma_histo_total(s, u);
    lemma_histo_total(t, u);
}

} // verus!
