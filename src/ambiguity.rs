//! Choosing a sample name whose captured values are least ambiguous.
use crate::rename::{group_of, present_values, present_vars, vars_view};
use crate::templates::{anchor, anchored, groups_view, TemplateGroup};
use crate::text::chars_of;
use crate::trusted::{captures_of, regex_captures, string_views};
use vstd::prelude::*;

verus! {

/// How many non-overlapping occurrences of `v` a left-to-right scan of `s`
/// finds.
pub open spec fn count_occ(s: Seq<char>, v: Seq<char>) -> nat
    decreases s.len(),
{
    if v.len() == 0 || s.len() < v.len() {
        0
    } else if s.take(v.len() as int) == v {
        1 + count_occ(s.skip(v.len() as int), v)
    } else {
        count_occ(s.drop_first(), v)
    }
}

/// `s` with the occurrences of `v` that `count_occ` finds taken out.
pub open spec fn remove_occ(s: Seq<char>, v: Seq<char>) -> Seq<char>
    decreases s.len(),
{
    if v.len() == 0 || s.len() < v.len() {
        s
    } else if s.take(v.len() as int) == v {
        remove_occ(s.skip(v.len() as int), v)
    } else {
        seq![s[0]] + remove_occ(s.drop_first(), v)
    }
}

/// Where `x` goes in a list ordered by decreasing length: after the last
/// value at least as long, scanning back from the end.
pub open spec fn len_pos(s: Seq<Seq<char>>, x: Seq<char>) -> int
    decreases s.len(),
{
    if s.len() == 0 {
        0
    } else if s.last().len() >= x.len() {
        s.len() as int
    } else {
        len_pos(s.drop_last(), x)
    }
}

/// Values ordered by decreasing length, equal lengths kept in order.
pub open spec fn by_length(s: Seq<Seq<char>>) -> Seq<Seq<char>>
    decreases s.len(),
{
    if s.len() == 0 {
        Seq::empty()
    } else {
        let sorted = by_length(s.drop_last());
        sorted.insert(len_pos(sorted, s.last()), s.last())
    }
}

/// Counting over values in order: each adds how many more times than once
/// it occurs in what is left of the name, then its occurrences are taken out.
pub open spec fn excess(vals: Seq<Seq<char>>, scratch: Seq<char>) -> nat
    decreases vals.len(),
{
    if vals.len() == 0 {
        0
    } else {
        let v = vals[0];
        let c = count_occ(scratch, v);
        (if c > 0 {
            (c - 1) as nat
        } else {
            0nat
        }) + excess(vals.drop_first(), remove_occ(scratch, v))
    }
}

/// The ambiguity of a name under a template: how often its captured values,
/// longest first, recur beyond their one real occurrence. `None` when the
/// template does not match the name.
pub open spec fn ambiguity(template: Seq<char>, name: Seq<char>) -> Option<nat> {
    match captures_of(anchored(template), name) {
        None => None,
        Some(caps) => Some(
            excess(by_length(present_values(caps).map_values(|x: (Seq<char>, nat)| x.0)), name),
        ),
    }
}

proof fn lemma_len_pos_bounds(s: Seq<Seq<char>>, x: Seq<char>)
    ensures
        0 <= len_pos(s, x) <= s.len(),
    decreases s.len(),
{
    if s.len() > 0 {
        lemma_len_pos_bounds(s.drop_last(), x);
    }
}

fn sort_by_length(vals: &Vec<Vec<char>>) -> (r: Vec<Vec<char>>)
    ensures
        char_views(r@) == by_length(char_views(vals@)),
{
    let ghost vv = char_views(vals@);
    let mut out: Vec<Vec<char>> = Vec::new();
    let mut i: usize = 0;
    while i < vals.len()
        invariant
            i <= vals@.len(),
            vv == char_views(vals@),
            char_views(out@) == by_length(vv.take(i as int)),
        decreases vals.len() - i,
    {
        assert(vv.take(i + 1).drop_last() =~= vv.take(i as int));
        let ghost ov = char_views(out@);
        let x = vals[i].clone();
        assert(x@ == vv[i as int]);
        let mut j: usize = out.len();
        assert(ov.take(j as int) =~= ov);
        while j > 0 && out[j - 1].len() < x.len()
            invariant
                j <= out@.len(),
                ov == char_views(out@),
                len_pos(ov, x@) == len_pos(ov.take(j as int), x@),
            decreases j,
        {
            assert(ov.take(j as int).drop_last() =~= ov.take(j - 1));
            j = j - 1;
        }
        proof {
            if j > 0 {
                assert(ov.take(j as int).last() == ov[j - 1]);
            }
            lemma_len_pos_bounds(ov, x@);
        }
        out.insert(j, x);
        assert(char_views(out@) =~= ov.insert(j as int, x@));
        i = i + 1;
    }
    assert(vv.take(i as int) =~= vv);
    out
}

/// The views of character vectors.
pub open spec fn char_views(v: Seq<Vec<char>>) -> Seq<Seq<char>> {
    v.map_values(|x: Vec<char>| x@)
}

/// Counts the occurrences of `v` in `s` and takes them out.
fn count_and_remove(s: &Vec<char>, v: &Vec<char>) -> (r: (usize, Vec<char>))
    ensures
        r.0 as nat == count_occ(s@, v@),
        r.1@ == remove_occ(s@, v@),
{
    let mut out: Vec<char> = Vec::new();
    let mut count: usize = 0;
    let mut p: usize = 0;
    let n = s.len();
    let k = v.len();
    assert(s@.skip(0) =~= s@);
    while k > 0 && k <= n - p
        invariant
            p <= n == s@.len(),
            k == v@.len(),
            count <= p,
            count_occ(s@, v@) == count + count_occ(s@.skip(p as int), v@),
            remove_occ(s@, v@) == out@ + remove_occ(s@.skip(p as int), v@),
        decreases n - p,
    {
        let ghost rest = s@.skip(p as int);
        let mut t: usize = 0;
        while t < k && s[p + t] == v[t]
            invariant
                t <= k == v@.len(),
                p + k <= n == s@.len(),
                forall|u: int| 0 <= u < t ==> s@[p + u] == v@[u],
            decreases k - t,
        {
            t = t + 1;
        }
        if t == k {
            assert(rest.take(k as int) =~= v@);
            assert(rest.skip(k as int) =~= s@.skip(p + k));
            count = count + 1;
            p = p + k;
        } else {
            assert(rest.take(k as int)[t as int] != v@[t as int]);
            assert(rest.drop_first() =~= s@.skip(p + 1));
            let ghost before = out@;
            out.push(s[p]);
            assert(out@ =~= before + seq![rest[0]]);
            p = p + 1;
        }
    }
    let ghost rest = s@.skip(p as int);
    assert(count_occ(rest, v@) == 0);
    assert(remove_occ(rest, v@) == rest);
    let ghost before = out@;
    let ghost q0 = p as int;
    while p < n
        invariant
            0 <= q0 <= p <= n == s@.len(),
            out@ == before + s@.subrange(q0, p as int),
        decreases n - p,
    {
        out.push(s[p]);
        p = p + 1;
        assert(out@ =~= before + s@.subrange(q0, p as int));
    }
    assert(out@ =~= before + rest);
    (count, out)
}

proof fn lemma_remove_len(s: Seq<char>, v: Seq<char>)
    ensures
        remove_occ(s, v).len() + count_occ(s, v) <= s.len(),
    decreases s.len(),
{
    if v.len() == 0 || s.len() < v.len() {
    } else if s.take(v.len() as int) == v {
        lemma_remove_len(s.skip(v.len() as int), v);
    } else {
        lemma_remove_len(s.drop_first(), v);
    }
}

/// The ambiguity of a name under a template, or `None` when the template
/// does not match it.
pub fn ambiguity_count(template: &String, name: &String) -> (r: Option<usize>)
    ensures
        match r {
            None => ambiguity(template@, name@) is None,
            Some(a) => ambiguity(template@, name@) == Some(a as nat),
        },
{
    let pattern = anchor(template);
    let caps = match regex_captures(pattern.as_str(), name.as_str()) {
        None => {
            return None;
        },
        Some(c) => c,
    };
    let vars = present_vars(&caps, name);
    let ghost values = vars_view(vars@).map_values(|x: (Seq<char>, nat)| x.0);
    let mut vals: Vec<Vec<char>> = Vec::new();
    let mut i: usize = 0;
    while i < vars.len()
        invariant
            i <= vars@.len(),
            values == vars_view(vars@).map_values(|x: (Seq<char>, nat)| x.0),
            values.len() == vars@.len(),
            vals@.len() == i,
            forall|j: int| 0 <= j < i ==> (#[trigger] vals@[j])@ == values[j],
        decreases vars.len() - i,
    {
        assert(values[i as int] == vars_view(vars@)[i as int].0);
        vals.push(copy_chars(&vars[i].0));
        i = i + 1;
    }
    assert(char_views(vals@) =~= values);
    let sorted = sort_by_length(&vals);
    let ghost sv = char_views(sorted@);
    let mut scratch = chars_of(name.as_str());
    let n = scratch.len();
    let mut total: usize = 0;
    let mut k: usize = 0;
    assert(sv.skip(0) =~= sv);
    while k < sorted.len()
        invariant
            k <= sorted@.len(),
            sv == char_views(sorted@),
            excess(sv, name@) == total + excess(sv.skip(k as int), scratch@),
            total + scratch@.len() <= name@.len(),
            name@.len() == n,
        decreases sorted.len() - k,
    {
        assert(sv.skip(k as int)[0] == sv[k as int]);
        assert(sv.skip(k as int).drop_first() =~= sv.skip(k + 1));
        let (c, rest) = count_and_remove(&scratch, &sorted[k]);
        proof {
            lemma_remove_len(scratch@, sv[k as int]);
        }
        if c > 0 {
            total = total + (c - 1);
        }
        scratch = rest;
        k = k + 1;
    }
    Some(total)
}

/// A copy of a character vector.
fn copy_chars(v: &Vec<char>) -> (r: Vec<char>)
    ensures
        r@ == v@,
{
    let mut r: Vec<char> = Vec::new();
    let mut i: usize = 0;
    while i < v.len()
        invariant
            i <= v@.len(),
            r@ == v@.take(i as int),
        decreases v.len() - i,
    {
        r.push(v[i]);
        i = i + 1;
        assert(r@ =~= v@.take(i as int));
    }
    assert(v@.take(i as int) =~= v@);
    r
}

/// One step of the scan over a group's members: a member with a strictly
/// lower ambiguity replaces the best so far, unless that is already 0.
pub open spec fn resolve_step(template: Seq<char>, best: (Seq<char>, nat), m: Seq<char>) -> (Seq<char>, nat) {
    if best.1 == 0 {
        best
    } else {
        match ambiguity(template, m) {
            Some(a) => if a < best.1 {
                (m, a)
            } else {
                best
            },
            None => best,
        }
    }
}

/// The best name after scanning the first `k` members.
pub open spec fn resolve_upto(
    template: Seq<char>,
    members: Seq<Seq<char>>,
    k: int,
    init: (Seq<char>, nat),
) -> (Seq<char>, nat)
    decreases k,
{
    if k <= 0 {
        init
    } else {
        resolve_step(template, resolve_upto(template, members, k - 1, init), members[k - 1])
    }
}

/// The name to show for a sample: the sample itself when no group holds it
/// or its template does not match it; otherwise the member found by scanning
/// the sample's group for a strictly lower ambiguity, stopping at 0.
pub open spec fn representative_spec(groups: Seq<(Seq<char>, Seq<Seq<char>>)>, sample: Seq<char>) -> Seq<char> {
    let g = group_of(groups, sample);
    if g < 0 {
        sample
    } else {
        match ambiguity(groups[g].0, sample) {
            None => sample,
            Some(a0) => resolve_upto(groups[g].0, groups[g].1, groups[g].1.len() as int, (sample, a0)).0,
        }
    }
}

/// Picks the name of the sample's group whose captured values are least
/// ambiguous, starting from the sample itself.
pub fn representative_name(groups: &Vec<TemplateGroup>, sample: &String) -> (r: String)
    ensures
        r@ == representative_spec(groups_view(groups@), sample@),
{
    let ghost gv = groups_view(groups@);
    proof {
        crate::rename::lemma_group_of_bounds(gv, sample@);
    }
    let g = match crate::rename::find_member_group(groups, sample) {
        None => {
            return sample.clone();
        },
        Some(g) => g,
    };
    let template = &groups[g].template;
    let a0 = match ambiguity_count(template, sample) {
        None => {
            return sample.clone();
        },
        Some(a) => a,
    };
    let members = &groups[g].members;
    let ghost mv = string_views(members@);
    let mut best = sample.clone();
    let mut best_amb: usize = a0;
    let mut k: usize = 0;
    while k < members.len()
        invariant
            k <= members@.len(),
            mv == string_views(members@),
            (best@, best_amb as nat) == resolve_upto(template@, mv, k as int, (sample@, a0 as nat)),
        decreases members.len() - k,
    {
        if best_amb != 0 {
            match ambiguity_count(template, &members[k]) {
                Some(a) => {
                    if a < best_amb {
                        best = members[k].clone();
                        best_amb = a;
                    }
                },
                None => {},
            }
        }
        k = k + 1;
    }
    best
}

/// Whether an ambiguity is known and strictly below `a0`.
pub open spec fn below(o: Option<nat>, a0: nat) -> bool {
    match o {
        Some(a) => a < a0,
        None => false,
    }
}

/// Whether some member has an ambiguity strictly below `a0`.
pub open spec fn has_less_ambiguous(template: Seq<char>, members: Seq<Seq<char>>, k: int, a0: nat) -> bool {
    exists|j: int|
        0 <= j < k && below(#[trigger] ambiguity(template, members[j]), a0)
}

proof fn lemma_resolve_upto(template: Seq<char>, members: Seq<Seq<char>>, k: int, sample: Seq<char>, a0: nat)
    requires
        0 <= k <= members.len(),
    ensures
        ({
            let r = resolve_upto(template, members, k, (sample, a0));
            &&& r.1 <= a0
            &&& (r.0 == sample && r.1 == a0) || (members.take(k).contains(r.0) && ambiguity(template, r.0) == Some(r.1) && r.1 < a0)
            &&& has_less_ambiguous(template, members, k, a0) ==> r.1 < a0
        }),
    decreases k,
{
    if k > 0 {
        lemma_resolve_upto(template, members, k - 1, sample, a0);
        let prev = resolve_upto(template, members, k - 1, (sample, a0));
        let m = members[k - 1];
        assert(members.take(k)[k - 1] == m);
        if members.take(k - 1).contains(prev.0) {
            let j = choose|j: int| 0 <= j < k - 1 && #[trigger] members.take(k - 1)[j] == prev.0;
            assert(members.take(k)[j] == prev.0);
        }
        if has_less_ambiguous(template, members, k, a0) {
            let j = choose|j: int|
                0 <= j < k && below(#[trigger] ambiguity(template, members[j]), a0);
            if j < k - 1 {
                assert(has_less_ambiguous(template, members, k - 1, a0));
            }
        }
    }
}

/// The name shown for a sample is a member of the sample's group with a
/// strictly lower ambiguity whenever the group holds one; otherwise it is
/// the sample itself.
pub proof fn lemma_representative_less_ambiguous(groups: Seq<(Seq<char>, Seq<Seq<char>>)>, sample: Seq<char>)
    ensures
        ({
            let g = group_of(groups, sample);
            let r = representative_spec(groups, sample);
            g >= 0 ==> match ambiguity(groups[g].0, sample) {
                None => r == sample,
                Some(a0) => {
                    &&& has_less_ambiguous(groups[g].0, groups[g].1, groups[g].1.len() as int, a0) ==> {
                        &&& groups[g].1.contains(r)
                        &&& below(ambiguity(groups[g].0, r), a0)
                    }
                    &&& !has_less_ambiguous(groups[g].0, groups[g].1, groups[g].1.len() as int, a0) ==> r == sample
                },
            }
        }),
{
    let g = group_of(groups, sample);
    crate::rename::lemma_group_of_bounds(groups, sample);
    if g >= 0 {
        match ambiguity(groups[g].0, sample) {
            None => {},
            Some(a0) => {
                let members = groups[g].1;
                lemma_resolve_upto(groups[g].0, members, members.len() as int, sample, a0);
                assert(members.take(members.len() as int) =~= members);
            },
        }
    }
}

} // verus!
