//! Template inference: tokenizing names, aligning two of them into a
//! template, and grouping a whole listing by the templates found.
use crate::text::{copy_strings, is_digit_run, is_number_text, join, join_range};
use crate::trusted::{
    escaped, find_all_of, is_match_of, matching_blocks, matching_blocks_of, regex_escape,
    regex_find_all, regex_is_match, regex_replace_all, replace_all_of, string_views,
};
use vstd::prelude::*;
use vstd::string::*;

verus! {

/// Runs of letters, runs of ASCII digits, runs of other characters.
pub open spec fn token_pattern() -> Seq<char> {
    "([^\\d\\W]+|[0-9]+|\\W+)"@
}

/// A word character, or a capture slot already written as regex text.
pub open spec fn significant_pattern() -> Seq<char> {
    "\\w|\\(\\.\\+\\)|\\(\\\\d\\+\\)"@
}

/// A backslash before a regex meta character.
pub open spec fn unescape_pattern() -> Seq<char> {
    "\\\\([\\\\\\.\\+\\*\\?\\(\\)\\|\\[\\]\\{\\}\\^\\$\\#\\&\\-\\~])"@
}

/// The tokens of a name.
pub open spec fn tokens_of(name: Seq<char>) -> Seq<Seq<char>> {
    find_all_of(token_pattern(), name)
}

/// Whether a constant part of a template holds something to anchor a slot to.
pub open spec fn is_significant(s: Seq<char>) -> bool {
    is_match_of(significant_pattern(), s)
}

/// A template with its meta-escapes taken off again.
pub open spec fn unescaped(s: Seq<char>) -> Seq<char> {
    replace_all_of(unescape_pattern(), s, "$1"@)
}

/// The regex text of a numeric capture slot.
pub open spec fn numeric_slot() -> Seq<char> {
    seq!['(', '\\', 'd', '+', ')']
}

/// The regex text of a free-text capture slot.
pub open spec fn free_slot() -> Seq<char> {
    seq!['(', '.', '+', ')']
}

/// The sum of the lengths of matching blocks.
pub open spec fn matched_len(blocks: Seq<(usize, usize, usize)>) -> nat
    decreases blocks.len(),
{
    if blocks.len() == 0 {
        0
    } else {
        matched_len(blocks.drop_last()) + blocks.last().2 as nat
    }
}

/// The block before block `k`, or the empty block at the start.
pub open spec fn prev_block(blocks: Seq<(usize, usize, usize)>, k: int) -> (usize, usize, usize) {
    if k == 0 {
        (0usize, 0usize, 0usize)
    } else {
        blocks[k - 1]
    }
}

/// The slot written for an open variable region: none when nothing is open.
pub open spec fn slot_for(open: bool, numeric: bool) -> Seq<char> {
    if !open {
        Seq::empty()
    } else if numeric {
        numeric_slot()
    } else {
        free_slot()
    }
}

/// One step of the walk over the matching blocks, from the template so far
/// and whether a free-text region is still open. The variable region before
/// block `k` opens a region when it is not empty. The block's literal closes
/// the open region with a slot (numeric when the region is a run of digits on
/// both sides) and is written escaped, when it is significant, when the
/// region is numeric, or at the last block. Otherwise the literal holds only
/// punctuation and stays inside the open region, which the next slot covers.
pub open spec fn rule_step(
    a: Seq<Seq<char>>,
    b: Seq<Seq<char>>,
    blocks: Seq<(usize, usize, usize)>,
    k: int,
    prev: (Seq<char>, bool),
) -> Option<(Seq<char>, bool)> {
    let (pi, pj, pn) = prev_block(blocks, k);
    let m = blocks[k];
    let var1 = join(a.subrange(pi + pn, m.0 as int));
    let var2 = join(b.subrange(pj + pn, m.1 as int));
    let cst = block_literal(a, blocks, k);
    if pn != 0 && m.2 != 0 && (var1.len() == 0 || var2.len() == 0) {
        None
    } else {
        let open = prev.1 || var1.len() > 0;
        let numeric = !prev.1 && is_digit_run(var1) && is_digit_run(var2);
        if numeric || is_significant(cst) || k == blocks.len() - 1 {
            Some((prev.0 + slot_for(open, numeric) + escaped(cst), false))
        } else {
            Some((prev.0, true))
        }
    }
}

/// The template text built from the first `k` matching blocks, and whether
/// a region is left open.
pub open spec fn rule_upto(
    a: Seq<Seq<char>>,
    b: Seq<Seq<char>>,
    blocks: Seq<(usize, usize, usize)>,
    k: nat,
) -> Option<(Seq<char>, bool)>
    decreases k,
{
    if k == 0 {
        Some((Seq::empty(), false))
    } else {
        match rule_upto(a, b, blocks, (k - 1) as nat) {
            None => None,
            Some(prev) => rule_step(a, b, blocks, k - 1, prev),
        }
    }
}

proof fn lemma_rule_upto_stays_none(
    a: Seq<Seq<char>>,
    b: Seq<Seq<char>>,
    blocks: Seq<(usize, usize, usize)>,
    k: nat,
    j: nat,
)
    requires
        k <= j,
        rule_upto(a, b, blocks, k) is None,
    ensures
        rule_upto(a, b, blocks, j) is None,
    decreases j - k,
{
    if k < j {
        lemma_rule_upto_stays_none(a, b, blocks, k, (j - 1) as nat);
    }
}

/// Two token sequences are too far apart to share a template when their
/// similarity ratio `2 * matched / total` is below one half.
pub open spec fn too_dissimilar(a: Seq<Seq<char>>, b: Seq<Seq<char>>) -> bool {
    4 * matched_len(matching_blocks_of(a, b)) < a.len() + b.len()
}

/// The literal text of matching block `k`.
pub open spec fn block_literal(a: Seq<Seq<char>>, blocks: Seq<(usize, usize, usize)>, k: int) -> Seq<
    char,
> {
    join(a.subrange(blocks[k].0 as int, blocks[k].0 + blocks[k].2))
}

/// Whether one of the first `k` matching blocks has significant literal text.
pub open spec fn any_significant(a: Seq<Seq<char>>, blocks: Seq<(usize, usize, usize)>, k: int) -> bool {
    exists|j: int| 0 <= j < k && #[trigger] is_significant(block_literal(a, blocks, j))
}

/// The template that two tokenized names share, if any: none when they are
/// too dissimilar, when the walk rejects them, or when no literal part of the
/// template is significant (a template of slots and punctuation alone would
/// match almost anything).
pub open spec fn pair_rule(a: Seq<Seq<char>>, b: Seq<Seq<char>>) -> Option<Seq<char>> {
    if too_dissimilar(a, b) {
        None
    } else {
        let blocks = matching_blocks_of(a, b);
        if any_significant(a, blocks, blocks.len() as int) {
            match rule_upto(a, b, blocks, blocks.len()) {
                Some(r) => Some(r.0),
                None => None,
            }
        } else {
            None
        }
    }
}

/// Appends to `rule` what block `k` contributes; `None` when the step
/// rejects the pair, else whether a region is left open.
fn push_rule_step(
    rule: &mut String,
    pending: bool,
    significant: bool,
    seq1: &Vec<String>,
    seq2: &Vec<String>,
    blocks: &Vec<(usize, usize, usize)>,
    k: usize,
    pi: usize,
    pj: usize,
    pn: usize,
) -> (r: Option<bool>)
    requires
        k < blocks@.len(),
        (pi, pj, pn) == prev_block(blocks@, k as int),
        pi + pn <= blocks@[k as int].0,
        pj + pn <= blocks@[k as int].1,
        blocks@[k as int].0 + blocks@[k as int].2 <= seq1@.len(),
        blocks@[k as int].1 + blocks@[k as int].2 <= seq2@.len(),
        significant == is_significant(block_literal(string_views(seq1@), blocks@, k as int)),
    ensures
        match rule_step(string_views(seq1@), string_views(seq2@), blocks@, k as int, (old(rule)@, pending)) {
            None => r is None,
            Some(next) => r == Some(next.1) && final(rule)@ == next.0,
        },
{
    let ghost prev = rule@;
    let (fi, fj, size) = blocks[k];
    let len1 = seq1.len();
    assert(fi + size <= len1);
    let var1 = join_range(seq1, pi + pn, fi);
    let var2 = join_range(seq2, pj + pn, fj);
    let cst = join_range(seq1, fi, fi + size);
    if pn != 0 && size != 0 && (var1.as_str().is_empty() || var2.as_str().is_empty()) {
        return None;
    }
    let open = pending || !var1.as_str().is_empty();
    let numeric = !pending && is_number_text(var1.as_str()) && is_number_text(var2.as_str());
    if !(numeric || significant || k == blocks.len() - 1) {
        return Some(true);
    }
    if open {
        if numeric {
            rule.append("(\\d+)");
            proof {
                reveal_strlit("(\\d+)");
            }
        } else {
            rule.append("(.+)");
            proof {
                reveal_strlit("(.+)");
            }
        }
    }
    let esc = regex_escape(cst.as_str());
    rule.append(esc.as_str());
    assert(rule@ =~= prev + slot_for(open, numeric) + escaped(cst@));
    Some(false)
}

/// Whether the literal text of block `k` is significant.
fn block_is_significant(seq1: &Vec<String>, blocks: &Vec<(usize, usize, usize)>, k: usize) -> (r: bool)
    requires
        k < blocks@.len(),
        blocks@[k as int].0 + blocks@[k as int].2 <= seq1@.len(),
    ensures
        r == is_significant(block_literal(string_views(seq1@), blocks@, k as int)),
{
    let (fi, _fj, size) = blocks[k];
    let len1 = seq1.len();
    assert(fi + size <= len1);
    let cst = join_range(seq1, fi, fi + size);
    regex_is_match("\\w|\\(\\.\\+\\)|\\(\\\\d\\+\\)", cst.as_str())
}

/// Aligns two tokenized names and writes the template they share: matched
/// tokens become escaped literal text, each non-empty region between matches
/// becomes a capture slot, numeric when both sides are runs of digits.
/// `None` when the two are too dissimilar, when a region between two matches
/// is empty on one side only, or when no literal part is significant.
#[verifier::rlimit(40)]
pub fn extract_rule(seq1: &Vec<String>, seq2: &Vec<String>) -> (r: Option<String>)
    ensures
        match r {
            None => pair_rule(string_views(seq1@), string_views(seq2@)) is None,
            Some(rule) => pair_rule(string_views(seq1@), string_views(seq2@)) == Some(rule@),
        },
        too_dissimilar(string_views(seq1@), string_views(seq2@)) ==> r is None,
{
    let ghost a = string_views(seq1@);
    let ghost b = string_views(seq2@);
    let blocks = matching_blocks(seq1, seq2);
    let n = blocks.len();
    let len1 = seq1.len();
    let mut matched: usize = 0;
    let mut k: usize = 0;
    while k < n
        invariant
            k <= n == blocks@.len(),
            len1 == seq1@.len(),
            blocks@ == matching_blocks_of(a, b),
            forall|t: int|
                0 <= t < blocks@.len() ==> #[trigger] blocks@[t].0 + blocks@[t].2 <= seq1@.len(),
            forall|t: int|
                0 <= t < blocks@.len() - 1 ==> #[trigger] blocks@[t].0 + blocks@[t].2
                    <= blocks@[t + 1].0,
            matched == matched_len(blocks@.take(k as int)),
            k > 0 ==> matched <= blocks@[k - 1].0 + blocks@[k - 1].2,
        decreases n - k,
    {
        assert(blocks@.take(k + 1).drop_last() =~= blocks@.take(k as int));
        assert(blocks@[k as int].0 + blocks@[k as int].2 <= len1);
        assert(k > 0 ==> blocks@[k - 1].0 + blocks@[k - 1].2 <= blocks@[k as int].0);
        matched = matched + blocks[k].2;
        k = k + 1;
    }
    assert(blocks@.take(n as int) =~= blocks@);
    if (matched as u128) * 4 < (seq1.len() as u128) + (seq2.len() as u128) {
        return None;
    }
    let mut rule = String::new();
    let mut pi: usize = 0;
    let mut pj: usize = 0;
    let mut pn: usize = 0;
    let mut significant = false;
    let mut pending = false;
    k = 0;
    while k < n
        invariant
            k <= n == blocks@.len(),
            a == string_views(seq1@),
            b == string_views(seq2@),
            blocks@ == matching_blocks_of(a, b),
            !too_dissimilar(a, b),
            forall|t: int|
                0 <= t < blocks@.len() ==> #[trigger] blocks@[t].0 + blocks@[t].2 <= seq1@.len()
                    && blocks@[t].1 + blocks@[t].2 <= seq2@.len(),
            forall|t: int|
                0 <= t < blocks@.len() - 1 ==> #[trigger] blocks@[t].0 + blocks@[t].2
                    <= blocks@[t + 1].0 && blocks@[t].1 + blocks@[t].2 <= blocks@[t + 1].1,
            (pi, pj, pn) == prev_block(blocks@, k as int),
            rule_upto(a, b, blocks@, k as nat) == Some((rule@, pending)),
            significant == any_significant(a, blocks@, k as int),
        decreases n - k,
    {
        assert(k > 0 ==> blocks@[k - 1].0 + blocks@[k - 1].2 <= blocks@[k as int].0
            && blocks@[k - 1].1 + blocks@[k - 1].2 <= blocks@[k as int].1);
        let sig_k = block_is_significant(seq1, &blocks, k);
        proof {
            if sig_k {
                assert(is_significant(block_literal(a, blocks@, k as int)));
            }
            if any_significant(a, blocks@, k + 1) && !sig_k {
                let j = choose|j: int| 0 <= j < k + 1 && #[trigger] is_significant(block_literal(a, blocks@, j));
                assert(j < k);
            }
        }
        significant = significant || sig_k;
        let ghost prev = rule@;
        let step = push_rule_step(&mut rule, pending, sig_k, seq1, seq2, &blocks, k, pi, pj, pn);
        assert(rule_upto(a, b, blocks@, (k + 1) as nat) == rule_step(a, b, blocks@, k as int, (prev, pending)));
        match step {
            None => {
                proof {
                    lemma_rule_upto_stays_none(a, b, blocks@, (k + 1) as nat, n as nat);
                }
                return None;
            },
            Some(p) => {
                pending = p;
            },
        }
        let (fi, fj, size) = blocks[k];
        pi = fi;
        pj = fj;
        pn = size;
        k = k + 1;
    }
    if !significant {
        return None;
    }
    Some(rule)
}


/// The token views of tokenized names.
pub open spec fn token_views(v: Seq<Vec<String>>) -> Seq<Seq<Seq<char>>> {
    v.map_values(|t: Vec<String>| string_views(t@))
}

/// The first template found when pairs of names are tried in order, from the
/// pair `(i, j)` on: `(0, 1), (0, 2), .., (1, 2), ..`.
pub open spec fn first_rule_from(toks: Seq<Seq<Seq<char>>>, i: int, j: int) -> Option<Seq<char>>
    decreases toks.len() - i, toks.len() - j,
{
    if i < 0 || i >= toks.len() {
        None
    } else if j >= toks.len() {
        first_rule_from(toks, i + 1, i + 2)
    } else {
        match pair_rule(toks[i], toks[j]) {
            Some(r) => Some(r),
            None => first_rule_from(toks, i, j + 1),
        }
    }
}

/// The template of the first pair of names that shares one; none when that
/// template is empty.
pub open spec fn find_rule_spec(toks: Seq<Seq<Seq<char>>>) -> Option<Seq<char>> {
    match first_rule_from(toks, 0, 1) {
        Some(r) => if r.len() > 0 {
            Some(r)
        } else {
            None
        },
        None => None,
    }
}

/// Tries every pair of tokenized names in order and returns the template of
/// the first pair that shares one.
pub fn find_rule(filenames_tok: &Vec<Vec<String>>) -> (r: Option<String>)
    ensures
        match r {
            None => find_rule_spec(token_views(filenames_tok@)) is None,
            Some(rule) => find_rule_spec(token_views(filenames_tok@)) == Some(rule@),
        },
{
    let ghost toks = token_views(filenames_tok@);
    let n = filenames_tok.len();
    let mut i: usize = 0;
    while i < n
        invariant
            n == filenames_tok@.len() == toks.len(),
            toks == token_views(filenames_tok@),
            i <= n,
            first_rule_from(toks, 0, 1) == first_rule_from(toks, i as int, i + 1),
        decreases n - i,
    {
        let mut j: usize = i + 1;
        while j < n
            invariant
                n == filenames_tok@.len() == toks.len(),
                toks == token_views(filenames_tok@),
                i < n,
                i < j <= n,
                first_rule_from(toks, 0, 1) == first_rule_from(toks, i as int, j as int),
            decreases n - j,
        {
            match extract_rule(&filenames_tok[i], &filenames_tok[j]) {
                Some(rule) => {
                    if rule.as_str().is_empty() {
                        return None;
                    }
                    return Some(rule);
                },
                None => {},
            }
            j = j + 1;
        }
        i = i + 1;
    }
    None
}

/// The tokens of a name: runs of letters, of digits, of other characters.
pub fn tokenize(name: &str) -> (r: Vec<String>)
    ensures
        string_views(r@) == tokens_of(name@),
{
    regex_find_all("([^\\d\\W]+|[0-9]+|\\W+)", name)
}

/// A group of names that fully match one template.
pub struct TemplateGroup {
    pub template: String,
    pub members: Vec<String>,
}

impl View for TemplateGroup {
    type V = (Seq<char>, Seq<Seq<char>>);

    open spec fn view(&self) -> (Seq<char>, Seq<Seq<char>>) {
        (self.template@, string_views(self.members@))
    }
}

/// The views of a list of groups.
pub open spec fn groups_view(v: Seq<TemplateGroup>) -> Seq<(Seq<char>, Seq<Seq<char>>)> {
    v.map_values(|g: TemplateGroup| g@)
}

/// A template anchored at both ends of the text.
pub open spec fn anchored(rule: Seq<char>) -> Seq<char> {
    "^"@ + rule + "$"@
}

/// Whether a name matches a template in full.
pub open spec fn full_match(rule: Seq<char>, name: Seq<char>) -> bool {
    is_match_of(anchored(rule), name)
}

/// The names that fully match a template (`keep`), or the others.
pub open spec fn select(rule: Seq<char>, names: Seq<Seq<char>>, keep: bool) -> Seq<Seq<char>>
    decreases names.len(),
{
    if names.len() == 0 {
        Seq::empty()
    } else {
        let p = select(rule, names.drop_last(), keep);
        if full_match(rule, names.last()) == keep {
            p.push(names.last())
        } else {
            p
        }
    }
}

/// The index of the first group with a given template, or -1.
pub open spec fn key_index(groups: Seq<(Seq<char>, Seq<Seq<char>>)>, key: Seq<char>) -> int
    decreases groups.len(),
{
    if groups.len() == 0 {
        -1
    } else {
        let k = key_index(groups.drop_last(), key);
        if k >= 0 {
            k
        } else if groups.last().0 == key {
            groups.len() - 1
        } else {
            -1
        }
    }
}

/// Adds names to the group of a template, opening the group at the end if
/// there is none yet.
pub open spec fn add_members(
    groups: Seq<(Seq<char>, Seq<Seq<char>>)>,
    key: Seq<char>,
    names: Seq<Seq<char>>,
) -> Seq<(Seq<char>, Seq<Seq<char>>)> {
    let k = key_index(groups, key);
    if k >= 0 {
        groups.update(k, (key, groups[k].1 + names))
    } else {
        groups.push((key, names))
    }
}

/// The tokens of each name.
pub open spec fn tokens_of_all(names: Seq<Seq<char>>) -> Seq<Seq<Seq<char>>> {
    names.map_values(|n: Seq<char>| tokens_of(n))
}

/// Rounds of grouping: find a template among the ungrouped names, move every
/// ungrouped name that matches it into its group, and go on with the rest,
/// until no pair shares a template or a round moves nothing.
pub open spec fn aggregate(
    names: Seq<Seq<char>>,
    groups: Seq<(Seq<char>, Seq<Seq<char>>)>,
) -> Seq<(Seq<char>, Seq<Seq<char>>)>
    decreases names.len(),
{
    match find_rule_spec(tokens_of_all(names)) {
        None => groups,
        Some(rule) => {
            let rest = select(rule, names, false);
            if rest.len() < names.len() {
                aggregate(rest, add_members(groups, rule, select(rule, names, true)))
            } else {
                groups
            }
        },
    }
}

proof fn lemma_key_index_bounds(groups: Seq<(Seq<char>, Seq<Seq<char>>)>, key: Seq<char>)
    ensures
        -1 <= key_index(groups, key) < groups.len(),
        key_index(groups, key) >= 0 ==> groups[key_index(groups, key)].0 == key,
        key_index(groups, key) < 0 ==> forall|t: int|
            0 <= t < groups.len() ==> (#[trigger] groups[t]).0 != key,
    decreases groups.len(),
{
    if groups.len() > 0 {
        lemma_key_index_bounds(groups.drop_last(), key);
        assert(forall|t: int| 0 <= t < groups.len() - 1 ==> groups.drop_last()[t] == groups[t]);
    }
}

/// The index of the first group with a given template, if any.
fn find_group(groups: &Vec<TemplateGroup>, key: &String) -> (r: Option<usize>)
    ensures
        match r {
            None => key_index(groups_view(groups@), key@) < 0,
            Some(t) => key_index(groups_view(groups@), key@) == t as int,
        },
{
    let ghost gv = groups_view(groups@);
    let mut t: usize = 0;
    while t < groups.len()
        invariant
            t <= groups@.len(),
            gv == groups_view(groups@),
            key_index(gv.take(t as int), key@) < 0,
        decreases groups.len() - t,
    {
        assert(gv.take(t + 1).drop_last() =~= gv.take(t as int));
        if groups[t].template == *key {
            assert(key_index(gv.take(t + 1), key@) == t as int);
            proof {
                lemma_key_index_prefix(gv, key@, t + 1);
            }
            return Some(t);
        }
        t = t + 1;
    }
    assert(gv.take(t as int) =~= gv);
    None
}

proof fn lemma_key_index_prefix(groups: Seq<(Seq<char>, Seq<Seq<char>>)>, key: Seq<char>, t: int)
    requires
        0 <= t <= groups.len(),
        key_index(groups.take(t), key) >= 0,
    ensures
        key_index(groups, key) == key_index(groups.take(t), key),
    decreases groups.len() - t,
{
    if t < groups.len() {
        assert(groups.take(t + 1).drop_last() =~= groups.take(t));
        lemma_key_index_prefix(groups, key, t + 1);
    } else {
        assert(groups.take(t) =~= groups);
    }
}

/// Adds names to the group of a template, opening the group at the end if
/// there is none yet.
fn add_to_group(groups: &mut Vec<TemplateGroup>, key: String, names: Vec<String>)
    ensures
        groups_view(final(groups)@) == add_members(groups_view(old(groups)@), key@, string_views(names@)),
{
    let ghost gv = groups_view(groups@);
    let ghost nv = string_views(names@);
    proof {
        lemma_key_index_bounds(gv, key@);
    }
    match find_group(groups, &key) {
        Some(t) => {
            let mut names = names;
            groups[t].members.append(&mut names);
            assert(string_views(groups@[t as int].members@) =~= gv[t as int].1 + nv);
            assert(groups_view(groups@) =~= add_members(gv, key@, nv));
        },
        None => {
            groups.push(TemplateGroup { template: key, members: names });
            assert(groups_view(groups@) =~= add_members(gv, key@, string_views(names@)));
        },
    }
}


proof fn lemma_select_len(rule: Seq<char>, names: Seq<Seq<char>>)
    ensures
        select(rule, names, true).len() + select(rule, names, false).len() == names.len(),
    decreases names.len(),
{
    if names.len() > 0 {
        lemma_select_len(rule, names.drop_last());
    }
}

/// `^rule$`.
pub(crate) fn anchor(rule: &String) -> (r: String)
    ensures
        r@ == anchored(rule@),
{
    let mut r = String::from_str("^");
    r.append(rule.as_str());
    r.append("$");
    r
}

/// One round's split of the ungrouped names by a template.
fn split_by_rule(rule: &String, names: &Vec<String>, toks: &Vec<Vec<String>>) -> (r: (
    Vec<String>,
    Vec<String>,
    Vec<Vec<String>>,
))
    requires
        toks@.len() == names@.len(),
        forall|k: int| 0 <= k < names@.len() ==> string_views((#[trigger] toks@[k])@) == tokens_of(names@[k]@),
    ensures
        string_views(r.0@) == select(rule@, string_views(names@), true),
        string_views(r.1@) == select(rule@, string_views(names@), false),
        r.2@.len() == r.1@.len(),
        forall|k: int| 0 <= k < r.1@.len() ==> string_views((#[trigger] r.2@[k])@) == tokens_of(r.1@[k]@),
{
    let ghost nv = string_views(names@);
    let pattern = anchor(rule);
    let mut matched: Vec<String> = Vec::new();
    let mut rest: Vec<String> = Vec::new();
    let mut rest_toks: Vec<Vec<String>> = Vec::new();
    let mut i: usize = 0;
    while i < names.len()
        invariant
            i <= names@.len() == toks@.len(),
            nv == string_views(names@),
            pattern@ == anchored(rule@),
            forall|k: int| 0 <= k < names@.len() ==> string_views((#[trigger] toks@[k])@) == tokens_of(names@[k]@),
            string_views(matched@) == select(rule@, nv.take(i as int), true),
            string_views(rest@) == select(rule@, nv.take(i as int), false),
            rest_toks@.len() == rest@.len(),
            forall|k: int| 0 <= k < rest@.len() ==> string_views((#[trigger] rest_toks@[k])@) == tokens_of(rest@[k]@),
        decreases names.len() - i,
    {
        assert(nv.take(i + 1).drop_last() =~= nv.take(i as int));
        let name = names[i].clone();
        if regex_is_match(pattern.as_str(), name.as_str()) {
            matched.push(name);
            assert(string_views(matched@) =~= select(rule@, nv.take(i + 1), true));
        } else {
            rest.push(name);
            rest_toks.push(copy_strings(&toks[i]));
            assert(string_views(rest@) =~= select(rule@, nv.take(i + 1), false));
        }
        i = i + 1;
    }
    assert(nv.take(i as int) =~= nv);
    (matched, rest, rest_toks)
}

/// Groups names by the templates found among them, round by round, without
/// unifying templates.
pub fn group_names(filenames: &Vec<String>) -> (r: Vec<TemplateGroup>)
    ensures
        groups_view(r@) == aggregate(string_views(filenames@), Seq::empty()),
{
    let mut names = copy_strings(filenames);
    let mut toks: Vec<Vec<String>> = Vec::new();
    let mut i: usize = 0;
    while i < names.len()
        invariant
            i <= names@.len(),
            toks@.len() == i,
            forall|k: int| 0 <= k < i ==> string_views((#[trigger] toks@[k])@) == tokens_of(names@[k]@),
        decreases names.len() - i,
    {
        toks.push(tokenize(names[i].as_str()));
        i = i + 1;
    }
    let mut groups: Vec<TemplateGroup> = Vec::new();
    assert(groups_view(groups@) =~= Seq::<(Seq<char>, Seq<Seq<char>>)>::empty());
    loop
        invariant
            aggregate(string_views(filenames@), Seq::empty()) == aggregate(
                string_views(names@),
                groups_view(groups@),
            ),
            toks@.len() == names@.len(),
            forall|k: int| 0 <= k < names@.len() ==> string_views((#[trigger] toks@[k])@) == tokens_of(names@[k]@),
        decreases names@.len(),
    {
        assert(token_views(toks@) =~= tokens_of_all(string_views(names@)));
        match find_rule(&toks) {
            None => {
                return groups;
            },
            Some(rule) => {
                let (matched, rest, rest_toks) = split_by_rule(&rule, &names, &toks);
                proof {
                    lemma_select_len(rule@, string_views(names@));
                }
                if rest.len() == names.len() {
                    return groups;
                }
                add_to_group(&mut groups, rule, matched);
                names = rest;
                toks = rest_toks;
            },
        }
    }
}

/// Takes the groups of the given templates out of a list, gathering their
/// names in the order the templates are given.
pub open spec fn take_groups(
    groups: Seq<(Seq<char>, Seq<Seq<char>>)>,
    rules: Seq<Seq<char>>,
) -> (Seq<(Seq<char>, Seq<Seq<char>>)>, Seq<Seq<char>>)
    decreases rules.len(),
{
    if rules.len() == 0 {
        (groups, Seq::empty())
    } else {
        let (g1, c1) = take_groups(groups, rules.drop_last());
        let k = key_index(g1, rules.last());
        if k >= 0 {
            (g1.remove(k), c1 + g1[k].1)
        } else {
            (g1, c1)
        }
    }
}

/// Replaces the groups of the templates that one meta-template covers by a
/// single group under the unescaped meta-template, when that template fully
/// matches every name gathered; otherwise the groups stay as they are.
pub open spec fn merge_one(
    groups: Seq<(Seq<char>, Seq<Seq<char>>)>,
    meta: (Seq<char>, Seq<Seq<char>>),
) -> Seq<(Seq<char>, Seq<Seq<char>>)> {
    let (rest, collected) = take_groups(groups, meta.1);
    let key = unescaped(meta.0);
    if all_match(key, collected) {
        add_members(rest, key, collected)
    } else {
        groups
    }
}

/// Whether every name fully matches a template.
pub open spec fn all_match(rule: Seq<char>, names: Seq<Seq<char>>) -> bool {
    forall|m: int| 0 <= m < names.len() ==> full_match(rule, #[trigger] names[m])
}

/// Whether every name fully matches a template.
fn all_fully_match(rule: &String, names: &Vec<String>) -> (r: bool)
    ensures
        r == all_match(rule@, string_views(names@)),
{
    let pattern = anchor(rule);
    let ghost nv = string_views(names@);
    let mut i: usize = 0;
    while i < names.len()
        invariant
            i <= names@.len(),
            nv == string_views(names@),
            pattern@ == anchored(rule@),
            forall|m: int| 0 <= m < i ==> full_match(rule@, #[trigger] nv[m]),
        decreases names.len() - i,
    {
        if !regex_is_match(pattern.as_str(), names[i].as_str()) {
            assert(!full_match(rule@, nv[i as int]));
            return false;
        }
        i = i + 1;
    }
    true
}

/// A copy of a list of groups.
pub(crate) fn copy_groups(groups: &Vec<TemplateGroup>) -> (r: Vec<TemplateGroup>)
    ensures
        groups_view(r@) == groups_view(groups@),
{
    let mut r: Vec<TemplateGroup> = Vec::new();
    let mut i: usize = 0;
    while i < groups.len()
        invariant
            i <= groups@.len(),
            r@.len() == i,
            forall|j: int| 0 <= j < i ==> (#[trigger] r@[j])@ == groups@[j]@,
        decreases groups.len() - i,
    {
        let g = TemplateGroup {
            template: groups[i].template.clone(),
            members: copy_strings(&groups[i].members),
        };
        r.push(g);
        i = i + 1;
    }
    assert(groups_view(r@) =~= groups_view(groups@));
    r
}



/// Applies each meta-template's merge in turn.
pub open spec fn merge_all(
    groups: Seq<(Seq<char>, Seq<Seq<char>>)>,
    metas: Seq<(Seq<char>, Seq<Seq<char>>)>,
) -> Seq<(Seq<char>, Seq<Seq<char>>)>
    decreases metas.len(),
{
    if metas.len() == 0 {
        groups
    } else {
        merge_one(merge_all(groups, metas.drop_last()), metas.last())
    }
}

/// The templates of a group list.
pub open spec fn keys_of(groups: Seq<(Seq<char>, Seq<Seq<char>>)>) -> Seq<Seq<char>> {
    groups.map_values(|g: (Seq<char>, Seq<Seq<char>>)| g.0)
}

/// The template groups of a listing: names grouped round by round, then,
/// when several templates were found, the templates themselves grouped the
/// same way and each group of templates merged under its meta-template.
/// Unification recurses only on fewer strings than it was given.
pub open spec fn templates_spec(names: Seq<Seq<char>>) -> Seq<(Seq<char>, Seq<Seq<char>>)>
    decreases names.len(),
{
    let res = aggregate(names, Seq::empty());
    if 1 < res.len() && res.len() < names.len() {
        merge_all(res, templates_spec(keys_of(res)))
    } else {
        res
    }
}

fn take_groups_exec(groups: &mut Vec<TemplateGroup>, rules: &Vec<String>) -> (collected: Vec<String>)
    ensures
        (groups_view(final(groups)@), string_views(collected@)) == take_groups(
            groups_view(old(groups)@),
            string_views(rules@),
        ),
{
    let ghost g0 = groups_view(groups@);
    let ghost rv = string_views(rules@);
    let mut collected: Vec<String> = Vec::new();
    let mut i: usize = 0;
    while i < rules.len()
        invariant
            i <= rules@.len(),
            rv == string_views(rules@),
            (groups_view(groups@), string_views(collected@)) == take_groups(g0, rv.take(i as int)),
        decreases rules.len() - i,
    {
        assert(rv.take(i + 1).drop_last() =~= rv.take(i as int));
        let ghost gv = groups_view(groups@);
        let ghost cv = string_views(collected@);
        proof {
            lemma_key_index_bounds(gv, rv[i as int]);
        }
        match find_group(groups, &rules[i]) {
            Some(t) => {
                let mut g = groups.remove(t);
                collected.append(&mut g.members);
                assert(groups_view(groups@) =~= gv.remove(t as int));
                assert(string_views(collected@) =~= cv + gv[t as int].1);
            },
            None => {},
        }
        i = i + 1;
    }
    assert(rv.take(i as int) =~= rv);
    collected
}

fn merge_meta(groups: &mut Vec<TemplateGroup>, metas: &Vec<TemplateGroup>)
    ensures
        groups_view(final(groups)@) == merge_all(groups_view(old(groups)@), groups_view(metas@)),
{
    let ghost g0 = groups_view(groups@);
    let ghost mv = groups_view(metas@);
    let mut i: usize = 0;
    while i < metas.len()
        invariant
            i <= metas@.len(),
            mv == groups_view(metas@),
            groups_view(groups@) == merge_all(g0, mv.take(i as int)),
        decreases metas.len() - i,
    {
        assert(mv.take(i + 1).drop_last() =~= mv.take(i as int));
        let key = regex_replace_all(
            "\\\\([\\\\\\.\\+\\*\\?\\(\\)\\|\\[\\]\\{\\}\\^\\$\\#\\&\\-\\~])",
            metas[i].template.as_str(),
            "$1",
        );
        let mut trial = copy_groups(groups);
        let collected = take_groups_exec(&mut trial, &metas[i].members);
        if all_fully_match(&key, &collected) {
            add_to_group(&mut trial, key, collected);
            *groups = trial;
        }
        i = i + 1;
    }
    assert(mv.take(i as int) =~= mv);
}

/// Infers the templates of a listing and the names that each one groups.
/// Names that share no template with another are left out. Every member
/// fully matches its group's template (`lemma_template_members_match`).
pub fn templates(filenames: &Vec<String>) -> (r: Vec<TemplateGroup>)
    ensures
        groups_view(r@) == templates_spec(string_views(filenames@)),
    decreases filenames@.len(),
{
    let mut res = group_names(filenames);
    if 1 < res.len() && res.len() < filenames.len() {
        let mut keys: Vec<String> = Vec::new();
        let mut i: usize = 0;
        while i < res.len()
            invariant
                i <= res@.len(),
                keys@.len() == i,
                forall|k: int| 0 <= k < i ==> (#[trigger] keys@[k])@ == res@[k].template@,
            decreases res.len() - i,
        {
            let t = res[i].template.clone();
            keys.push(t);
            i = i + 1;
        }
        assert(string_views(keys@) =~= keys_of(groups_view(res@)));
        let meta = templates(&keys);
        merge_meta(&mut res, &meta);
    }
    res
}

/// Whether every member of every group fully matches the group's template.
pub open spec fn members_match(groups: Seq<(Seq<char>, Seq<Seq<char>>)>) -> bool {
    forall|g: int, m: int|
        0 <= g < groups.len() && 0 <= m < groups[g].1.len() ==> full_match(
            groups[g].0,
            #[trigger] groups[g].1[m],
        )
}

proof fn lemma_select_matches(rule: Seq<char>, names: Seq<Seq<char>>)
    ensures
        forall|m: int|
            0 <= m < select(rule, names, true).len() ==> full_match(rule, #[trigger] select(rule, names, true)[m]),
    decreases names.len(),
{
    if names.len() > 0 {
        lemma_select_matches(rule, names.drop_last());
        let p = select(rule, names.drop_last(), true);
        if full_match(rule, names.last()) {
            assert forall|m: int| 0 <= m < p.len() + 1 implies full_match(rule, #[trigger] p.push(names.last())[m]) by {
                if m < p.len() {
                    assert(p.push(names.last())[m] == p[m]);
                }
            }
        }
    }
}

proof fn lemma_add_members_match(
    groups: Seq<(Seq<char>, Seq<Seq<char>>)>,
    key: Seq<char>,
    names: Seq<Seq<char>>,
)
    requires
        members_match(groups),
        forall|m: int| 0 <= m < names.len() ==> full_match(key, #[trigger] names[m]),
    ensures
        members_match(add_members(groups, key, names)),
{
    lemma_key_index_bounds(groups, key);
    let k = key_index(groups, key);
    let r = add_members(groups, key, names);
    assert forall|g: int, m: int| 0 <= g < r.len() && 0 <= m < r[g].1.len() implies full_match(
        r[g].0,
        #[trigger] r[g].1[m],
    ) by {
        if k >= 0 && g == k {
            if m < groups[k].1.len() {
                assert(r[g].1[m] == groups[k].1[m]);
            } else {
                assert(r[g].1[m] == names[m - groups[k].1.len()]);
            }
        } else if k < 0 && g == groups.len() {
            assert(r[g].1[m] == names[m]);
        } else {
            assert(r[g] == groups[g]);
        }
    }
}

proof fn lemma_aggregate_match(names: Seq<Seq<char>>, groups: Seq<(Seq<char>, Seq<Seq<char>>)>)
    requires
        members_match(groups),
    ensures
        members_match(aggregate(names, groups)),
    decreases names.len(),
{
    match find_rule_spec(tokens_of_all(names)) {
        None => {},
        Some(rule) => {
            let rest = select(rule, names, false);
            if rest.len() < names.len() {
                lemma_select_matches(rule, names);
                lemma_add_members_match(groups, rule, select(rule, names, true));
                lemma_aggregate_match(rest, add_members(groups, rule, select(rule, names, true)));
            }
        },
    }
}

/// Before templates are unified, every name that the grouping rounds put in
/// a group fully matches that group's template.
pub proof fn lemma_grouped_names_match(names: Seq<Seq<char>>)
    ensures
        members_match(aggregate(names, Seq::empty())),
{
    lemma_aggregate_match(names, Seq::empty());
}

/// The members of all groups, group after group.
pub open spec fn all_members(groups: Seq<(Seq<char>, Seq<Seq<char>>)>) -> Seq<Seq<char>>
    decreases groups.len(),
{
    if groups.len() == 0 {
        Seq::empty()
    } else {
        all_members(groups.drop_last()) + groups.last().1
    }
}

proof fn lemma_all_members_extend(
    groups: Seq<(Seq<char>, Seq<Seq<char>>)>,
    k: int,
    key: Seq<char>,
    names: Seq<Seq<char>>,
)
    requires
        0 <= k < groups.len(),
    ensures
        all_members(groups.update(k, (key, groups[k].1 + names))).to_multiset() == all_members(
            groups,
        ).to_multiset().add(names.to_multiset()),
    decreases groups.len(),
{
    broadcast use vstd::seq_lib::lemma_multiset_commutative;

    let u = groups.update(k, (key, groups[k].1 + names));
    assert(u.drop_last() =~= if k == groups.len() - 1 {
        groups.drop_last()
    } else {
        groups.drop_last().update(k, (key, groups[k].1 + names))
    });
    if k == groups.len() - 1 {
        assert(all_members(u) =~= all_members(groups.drop_last()) + groups.last().1 + names);
        assert(all_members(groups.drop_last()) + groups.last().1 + names =~= all_members(groups.drop_last()) + (groups.last().1 + names));
    } else {
        lemma_all_members_extend(groups.drop_last(), k, key, names);
        assert(groups.drop_last()[k] == groups[k]);
    }
    assert(all_members(u).to_multiset() =~= all_members(groups).to_multiset().add(names.to_multiset()));
}

proof fn lemma_add_members_multiset(
    groups: Seq<(Seq<char>, Seq<Seq<char>>)>,
    key: Seq<char>,
    names: Seq<Seq<char>>,
)
    ensures
        all_members(add_members(groups, key, names)).to_multiset() == all_members(groups).to_multiset().add(
            names.to_multiset(),
        ),
{
    broadcast use vstd::seq_lib::lemma_multiset_commutative;

    lemma_key_index_bounds(groups, key);
    let k = key_index(groups, key);
    if k >= 0 {
        lemma_all_members_extend(groups, k, key, names);
    } else {
        assert(groups.push((key, names)).drop_last() =~= groups);
    }
}

proof fn lemma_select_multiset(rule: Seq<char>, names: Seq<Seq<char>>)
    ensures
        select(rule, names, true).to_multiset().add(select(rule, names, false).to_multiset())
            == names.to_multiset(),
    decreases names.len(),
{
    broadcast use vstd::seq_lib::group_to_multiset_ensures;

    if names.len() == 0 {
        assert(names.to_multiset() =~= vstd::multiset::Multiset::empty());
        assert(select(rule, names, true).to_multiset() =~= vstd::multiset::Multiset::empty());
        assert(select(rule, names, false).to_multiset() =~= vstd::multiset::Multiset::empty());
    } else {
        lemma_select_multiset(rule, names.drop_last());
        assert(names.drop_last().push(names.last()) =~= names);
        assert(select(rule, names, true).to_multiset().add(select(rule, names, false).to_multiset())
            =~= names.to_multiset());
    }
}

proof fn lemma_aggregate_multiset(names: Seq<Seq<char>>, groups: Seq<(Seq<char>, Seq<Seq<char>>)>)
    ensures
        all_members(aggregate(names, groups)).to_multiset().subset_of(
            all_members(groups).to_multiset().add(names.to_multiset()),
        ),
    decreases names.len(),
{
    match find_rule_spec(tokens_of_all(names)) {
        None => {},
        Some(rule) => {
            let rest = select(rule, names, false);
            let picked = select(rule, names, true);
            if rest.len() < names.len() {
                let next = add_members(groups, rule, picked);
                lemma_aggregate_multiset(rest, next);
                lemma_add_members_multiset(groups, rule, picked);
                lemma_select_multiset(rule, names);
                assert(all_members(next).to_multiset().add(rest.to_multiset()) =~= all_members(
                    groups,
                ).to_multiset().add(names.to_multiset()));
            }
        },
    }
}

/// The grouping rounds neither invent names nor put a name in more groups
/// than it is listed: the members of all groups, counted with repetition,
/// are part of the listing.
pub proof fn lemma_grouped_names_from_listing(names: Seq<Seq<char>>)
    ensures
        all_members(aggregate(names, Seq::empty())).to_multiset().subset_of(names.to_multiset()),
{
    lemma_aggregate_multiset(names, Seq::empty());
    assert(all_members(Seq::<(Seq<char>, Seq<Seq<char>>)>::empty()).to_multiset().add(names.to_multiset())
        =~= names.to_multiset()) by {
        broadcast use vstd::seq_lib::group_to_multiset_ensures;

        assert(all_members(Seq::<(Seq<char>, Seq<Seq<char>>)>::empty()) =~= Seq::<Seq<char>>::empty());
    }
}

proof fn lemma_all_members_remove(groups: Seq<(Seq<char>, Seq<Seq<char>>)>, k: int)
    requires
        0 <= k < groups.len(),
    ensures
        all_members(groups.remove(k)).to_multiset().add(groups[k].1.to_multiset()) == all_members(
            groups,
        ).to_multiset(),
    decreases groups.len(),
{
    broadcast use vstd::seq_lib::lemma_multiset_commutative;

    if k == groups.len() - 1 {
        assert(groups.remove(k) =~= groups.drop_last());
    } else {
        let r = groups.remove(k);
        assert(r.drop_last() =~= groups.drop_last().remove(k));
        assert(r.last() == groups.last());
        lemma_all_members_remove(groups.drop_last(), k);
        assert(groups.drop_last()[k] == groups[k]);
    }
    assert(all_members(groups.remove(k)).to_multiset().add(groups[k].1.to_multiset())
        =~= all_members(groups).to_multiset());
}

proof fn lemma_take_groups_multiset(groups: Seq<(Seq<char>, Seq<Seq<char>>)>, rules: Seq<Seq<char>>)
    ensures
        ({
            let (rest, collected) = take_groups(groups, rules);
            all_members(rest).to_multiset().add(collected.to_multiset()) == all_members(groups).to_multiset()
        }),
    decreases rules.len(),
{
    broadcast use vstd::seq_lib::lemma_multiset_commutative;
    broadcast use vstd::seq_lib::group_to_multiset_ensures;

    if rules.len() == 0 {
        assert(Seq::<Seq<char>>::empty().to_multiset() =~= vstd::multiset::Multiset::empty());
        assert(all_members(groups).to_multiset().add(vstd::multiset::Multiset::empty()) =~= all_members(groups).to_multiset());
    } else {
        lemma_take_groups_multiset(groups, rules.drop_last());
        let (g1, c1) = take_groups(groups, rules.drop_last());
        lemma_key_index_bounds(g1, rules.last());
        let k = key_index(g1, rules.last());
        if k >= 0 {
            lemma_all_members_remove(g1, k);
            assert(all_members(g1.remove(k)).to_multiset().add((c1 + g1[k].1).to_multiset())
                =~= all_members(groups).to_multiset());
        }
    }
}

proof fn lemma_merge_all_multiset(
    groups: Seq<(Seq<char>, Seq<Seq<char>>)>,
    metas: Seq<(Seq<char>, Seq<Seq<char>>)>,
)
    ensures
        all_members(merge_all(groups, metas)).to_multiset() == all_members(groups).to_multiset(),
    decreases metas.len(),
{
    if metas.len() > 0 {
        lemma_merge_all_multiset(groups, metas.drop_last());
        let g = merge_all(groups, metas.drop_last());
        let meta = metas.last();
        let (rest, collected) = take_groups(g, meta.1);
        lemma_take_groups_multiset(g, meta.1);
        lemma_add_members_multiset(rest, unescaped(meta.0), collected);
        assert(all_members(merge_one(g, meta)).to_multiset() == all_members(g).to_multiset());
    }
}

/// Inferring templates neither invents names nor puts a name in more groups
/// than it is listed, unification included: the members of all groups,
/// counted with repetition, are part of the listing.
pub proof fn lemma_template_members_from_listing(names: Seq<Seq<char>>)
    ensures
        all_members(templates_spec(names)).to_multiset().subset_of(names.to_multiset()),
{
    lemma_grouped_names_from_listing(names);
    let res = aggregate(names, Seq::empty());
    if 1 < res.len() && res.len() < names.len() {
        lemma_merge_all_multiset(res, templates_spec(keys_of(res)));
    }
}

proof fn lemma_remove_keeps_match(groups: Seq<(Seq<char>, Seq<Seq<char>>)>, k: int)
    requires
        members_match(groups),
        0 <= k < groups.len(),
    ensures
        members_match(groups.remove(k)),
{
    let r = groups.remove(k);
    assert forall|g: int, m: int| 0 <= g < r.len() && 0 <= m < r[g].1.len() implies full_match(
        r[g].0,
        #[trigger] r[g].1[m],
    ) by {
        if g < k {
            assert(r[g] == groups[g]);
        } else {
            assert(r[g] == groups[g + 1]);
        }
    }
}

proof fn lemma_take_groups_match(groups: Seq<(Seq<char>, Seq<Seq<char>>)>, rules: Seq<Seq<char>>)
    requires
        members_match(groups),
    ensures
        members_match(take_groups(groups, rules).0),
    decreases rules.len(),
{
    if rules.len() > 0 {
        lemma_take_groups_match(groups, rules.drop_last());
        let (g1, c1) = take_groups(groups, rules.drop_last());
        lemma_key_index_bounds(g1, rules.last());
        let k = key_index(g1, rules.last());
        if k >= 0 {
            lemma_remove_keeps_match(g1, k);
        }
    }
}

proof fn lemma_merge_all_match(groups: Seq<(Seq<char>, Seq<Seq<char>>)>, metas: Seq<(Seq<char>, Seq<Seq<char>>)>)
    requires
        members_match(groups),
    ensures
        members_match(merge_all(groups, metas)),
    decreases metas.len(),
{
    if metas.len() > 0 {
        lemma_merge_all_match(groups, metas.drop_last());
        let g = merge_all(groups, metas.drop_last());
        let meta = metas.last();
        let (rest, collected) = take_groups(g, meta.1);
        let key = unescaped(meta.0);
        if all_match(key, collected) {
            lemma_take_groups_match(g, meta.1);
            lemma_add_members_match(rest, key, collected);
        }
    }
}

/// Every name that inference puts in a group fully matches the group's
/// template, unification included.
pub proof fn lemma_template_members_match(names: Seq<Seq<char>>)
    ensures
        members_match(templates_spec(names)),
{
    lemma_grouped_names_match(names);
    let res = aggregate(names, Seq::empty());
    if 1 < res.len() && res.len() < names.len() {
        lemma_merge_all_match(res, templates_spec(keys_of(res)));
    }
}

} // verus!
