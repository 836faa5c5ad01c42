//! Counting occurrences of keys, ranked by count (highest first) and, among equal
//! counts, by where each key first occurred. Shared by the contributor and review
//! statistics.

use vstd::prelude::*;

use crate::text::views;

verus! {

/// How many of the first `n` keys equal `k`.
pub open spec fn count_upto(keys: Seq<Seq<char>>, k: Seq<char>, n: int) -> nat
    decreases n,
{
    if n <= 0 {
        0
    } else {
        count_upto(keys, k, n - 1) + if keys[n - 1] == k {
            1nat
        } else {
            0nat
        }
    }
}

/// How many keys equal `k`.
pub open spec fn count_of(keys: Seq<Seq<char>>, k: Seq<char>) -> nat {
    count_upto(keys, k, keys.len() as int)
}

/// How many of the first `n` keys equal `k` with their flag set.
pub open spec fn flagged_upto(keys: Seq<Seq<char>>, flags: Seq<bool>, k: Seq<char>, n: int) -> nat
    decreases n,
{
    if n <= 0 {
        0
    } else {
        flagged_upto(keys, flags, k, n - 1) + if keys[n - 1] == k && flags[n - 1] {
            1nat
        } else {
            0nat
        }
    }
}

/// How many keys equal `k` with their flag set.
pub open spec fn flagged_of(keys: Seq<Seq<char>>, flags: Seq<bool>, k: Seq<char>) -> nat {
    flagged_upto(keys, flags, k, keys.len() as int)
}

/// `i` is where `k` first occurs in `keys`.
pub open spec fn is_first(keys: Seq<Seq<char>>, k: Seq<char>, i: int) -> bool {
    0 <= i < keys.len() && keys[i] == k && forall|j: int| 0 <= j < i ==> keys[j] != k
}

/// Where `k` first occurs in `keys` (meaningful when it occurs).
pub open spec fn first_pos(keys: Seq<Seq<char>>, k: Seq<char>) -> int {
    choose|i: int| is_first(keys, k, i)
}

/// Ranking: more occurrences first; among equal counts, the key seen first comes first.
pub open spec fn ranked_before(
    keys: Seq<Seq<char>>,
    a: Seq<char>,
    count_a: nat,
    b: Seq<char>,
    count_b: nat,
) -> bool {
    count_a > count_b || (count_a == count_b && first_pos(keys, a) < first_pos(keys, b))
}

pub proof fn lemma_first_pos(keys: Seq<Seq<char>>, k: Seq<char>, i: int)
    requires
        is_first(keys, k, i),
    ensures
        first_pos(keys, k) == i,
{
    let f = first_pos(keys, k);
    assert(is_first(keys, k, f));
    if f < i {
        assert(keys[f] == k);
    }
    if i < f {
        assert(keys[i] == k);
    }
}

proof fn lemma_count_bound(keys: Seq<Seq<char>>, flags: Seq<bool>, k: Seq<char>, n: int)
    requires
        0 <= n,
    ensures
        count_upto(keys, k, n) <= n,
        flagged_upto(keys, flags, k, n) <= count_upto(keys, k, n),
    decreases n,
{
    if n > 0 {
        lemma_count_bound(keys, flags, k, n - 1);
    }
}

proof fn lemma_count_monotonic(keys: Seq<Seq<char>>, k: Seq<char>, m: int, n: int)
    requires
        0 <= m <= n,
    ensures
        count_upto(keys, k, m) <= count_upto(keys, k, n),
    decreases n - m,
{
    if m < n {
        lemma_count_monotonic(keys, k, m, n - 1);
    }
}

/// No key occurs more often than there are keys.
pub proof fn lemma_count_at_most_len(keys: Seq<Seq<char>>, k: Seq<char>)
    ensures
        count_of(keys, k) <= keys.len(),
{
    lemma_count_bound(keys, Seq::empty(), k, keys.len() as int);
}

proof fn lemma_count_zero(keys: Seq<Seq<char>>, flags: Seq<bool>, k: Seq<char>, n: int)
    requires
        0 <= n <= keys.len(),
        forall|j: int| 0 <= j < n ==> keys[j] != k,
    ensures
        count_upto(keys, k, n) == 0,
        flagged_upto(keys, flags, k, n) == 0,
    decreases n,
{
    if n > 0 {
        lemma_count_zero(keys, flags, k, n - 1);
    }
}

/// The counts among the first `n` keys of each candidate key, summed.
pub open spec fn total_upto(keys: Seq<Seq<char>>, cands: Seq<Seq<char>>, n: int) -> nat
    decreases cands.len(),
{
    if cands.len() == 0 {
        0
    } else {
        total_upto(keys, cands.drop_last(), n) + count_upto(keys, cands.last(), n)
    }
}

/// How many candidates equal `x`.
pub open spec fn occurrences(cands: Seq<Seq<char>>, x: Seq<char>) -> nat
    decreases cands.len(),
{
    if cands.len() == 0 {
        0
    } else {
        occurrences(cands.drop_last(), x) + if cands.last() == x {
            1nat
        } else {
            0nat
        }
    }
}

/// No candidate occurs twice.
pub open spec fn distinct(cands: Seq<Seq<char>>) -> bool {
    forall|i: int, j: int| 0 <= i < j < cands.len() ==> cands[i] != cands[j]
}

proof fn lemma_total_zero(keys: Seq<Seq<char>>, cands: Seq<Seq<char>>)
    ensures
        total_upto(keys, cands, 0) == 0,
    decreases cands.len(),
{
    if cands.len() > 0 {
        lemma_total_zero(keys, cands.drop_last());
    }
}

proof fn lemma_total_step(keys: Seq<Seq<char>>, cands: Seq<Seq<char>>, n: int)
    requires
        0 <= n,
    ensures
        total_upto(keys, cands, n + 1) == total_upto(keys, cands, n) + occurrences(cands, keys[n]),
    decreases cands.len(),
{
    if cands.len() > 0 {
        lemma_total_step(keys, cands.drop_last(), n);
    }
}

proof fn lemma_occurrences_once(cands: Seq<Seq<char>>, x: Seq<char>)
    requires
        distinct(cands),
        cands.contains(x),
    ensures
        occurrences(cands, x) == 1,
    decreases cands.len(),
{
    let d = cands.drop_last();
    assert(distinct(d));
    if cands.last() == x {
        assert forall|i: int| 0 <= i < d.len() implies d[i] != x by {
            assert(cands[i] != cands[cands.len() - 1]);
        }
        lemma_occurrences_absent(d, x);
    } else {
        let k = choose|k: int| 0 <= k < cands.len() && cands[k] == x;
        assert(k < cands.len() - 1);
        assert(d[k] == x);
        lemma_occurrences_once(d, x);
    }
}

proof fn lemma_occurrences_absent(cands: Seq<Seq<char>>, x: Seq<char>)
    requires
        forall|i: int| 0 <= i < cands.len() ==> cands[i] != x,
    ensures
        occurrences(cands, x) == 0,
    decreases cands.len(),
{
    if cands.len() > 0 {
        let d = cands.drop_last();
        assert forall|i: int| 0 <= i < d.len() implies d[i] != x by {
            assert(d[i] == cands[i]);
        }
        lemma_occurrences_absent(d, x);
        assert(cands[cands.len() - 1] != x);
    }
}

/// Counting is exhaustive: over distinct candidates that include every key, the counts
/// add up to the number of keys.
pub proof fn lemma_counts_add_up(keys: Seq<Seq<char>>, cands: Seq<Seq<char>>)
    requires
        distinct(cands),
        forall|i: int| 0 <= i < keys.len() ==> cands.contains(#[trigger] keys[i]),
    ensures
        total_upto(keys, cands, keys.len() as int) == keys.len(),
{
    lemma_counts_prefix(keys, cands, keys.len() as int);
}

proof fn lemma_counts_prefix(keys: Seq<Seq<char>>, cands: Seq<Seq<char>>, n: int)
    requires
        0 <= n <= keys.len(),
        distinct(cands),
        forall|i: int| 0 <= i < keys.len() ==> cands.contains(#[trigger] keys[i]),
    ensures
        total_upto(keys, cands, n) == n,
    decreases n,
{
    if n == 0 {
        lemma_total_zero(keys, cands);
    } else {
        lemma_counts_prefix(keys, cands, n - 1);
        lemma_total_step(keys, cands, n - 1);
        assert(cands.contains(keys[n - 1]));
        lemma_occurrences_once(cands, keys[n - 1]);
    }
}

/// One counted key: where it first occurred, how often, and how often flagged.
pub struct Tally {
    pub key: String,
    pub first: usize,
    pub count: u32,
    pub flagged: u32,
}

/// The tally `t` is exact for `keys` and `flags`.
pub open spec fn tally_exact(keys: Seq<Seq<char>>, flags: Seq<bool>, t: Tally) -> bool {
    &&& is_first(keys, t.key@, t.first as int)
    &&& t.count == count_of(keys, t.key@)
    &&& t.flagged == flagged_of(keys, flags, t.key@)
}

/// `gs` counts the first `i` keys exactly: each group's key first occurs before `i`,
/// groups are in order of first occurrence, and every one of those keys has a group.
pub open spec fn groups_ok(ks: Seq<Seq<char>>, flags: Seq<bool>, gs: Seq<Tally>, i: int) -> bool {
    &&& forall|q: int|
        0 <= q < gs.len() ==> {
            let g = #[trigger] gs[q];
            &&& is_first(ks, g.key@, g.first as int)
            &&& g.first < i
            &&& g.count == count_upto(ks, g.key@, i)
            &&& g.flagged == flagged_upto(ks, flags, g.key@, i)
        }
    &&& forall|p: int, q: int| 0 <= p < q < gs.len() ==> (#[trigger] gs[p]).first < (#[trigger] gs[q]).first
    &&& forall|j: int|
        0 <= j < i ==> exists|q: int| 0 <= q < gs.len() && (#[trigger] gs[q]).key@ == #[trigger] ks[j]
}

/// `out` is ranked: higher counts first, equal counts by first occurrence.
pub open spec fn ranked(out: Seq<Tally>) -> bool {
    forall|a: int, b: int|
        0 <= a < b < out.len() ==> (#[trigger] out[a]).count > (#[trigger] out[b]).count || (
        out[a].count == out[b].count && out[a].first < out[b].first)
}

fn record_occurrence(groups: &mut Vec<Tally>, keys: &Vec<String>, flags: &Vec<bool>, i: usize)
    requires
        i < keys@.len(),
        flags@.len() == keys@.len(),
        forall|k: Seq<char>| count_of(views(keys@), k) <= u32::MAX,
        groups_ok(views(keys@), flags@, old(groups)@, i as int),
    ensures
        groups_ok(views(keys@), flags@, final(groups)@, i + 1),
{
    let ghost ks = views(keys@);
    let key = &keys[i];
    let flag = flags[i];
    assert(ks[i as int] == key@);
    let m = groups.len();
    let mut q: usize = 0;
    while q < m && groups[q].key != *key
        invariant
            m == groups@.len(),
            q <= m,
            forall|p: int| 0 <= p < q ==> groups@[p].key@ != key@,
        decreases m - q,
    {
        q = q + 1;
    }
    let ghost old_groups = groups@;
    if q < m {
        proof {
            lemma_count_bound(ks, flags@, key@, i as int + 1);
            lemma_count_monotonic(ks, key@, i as int + 1, ks.len() as int);
            assert(count_of(ks, key@) <= u32::MAX);
        }
        let g = &groups[q];
        let bumped = Tally {
            key: g.key.clone(),
            first: g.first,
            count: g.count + 1,
            flagged: if flag {
                g.flagged + 1
            } else {
                g.flagged
            },
        };
        groups.set(q, bumped);
        assert forall|p: int| 0 <= p < old_groups.len() && p != q implies old_groups[p].key@
            != key@ by {
            if old_groups[p].key@ == key@ {
                lemma_first_pos(ks, key@, old_groups[p].first as int);
                lemma_first_pos(ks, key@, old_groups[q as int].first as int);
                if p < q {
                    assert(old_groups[p].first < old_groups[q as int].first);
                } else {
                    assert(old_groups[q as int].first < old_groups[p].first);
                }
            }
        }
        assert forall|p: int| 0 <= p < groups@.len() implies {
            let g = #[trigger] groups@[p];
            &&& is_first(ks, g.key@, g.first as int)
            &&& g.first < i + 1
            &&& g.count == count_upto(ks, g.key@, i + 1)
            &&& g.flagged == flagged_upto(ks, flags@, g.key@, i + 1)
        } by {
            if p != q {
                assert(groups@[p] == old_groups[p]);
            }
        }
        assert forall|j: int| 0 <= j < i + 1 implies exists|p: int|
            0 <= p < groups@.len() && (#[trigger] groups@[p]).key@ == #[trigger] ks[j] by {
            if j < i {
                let p = choose|p: int| 0 <= p < old_groups.len() && (#[trigger] old_groups[p]).key@ == ks[j];
                if p != q {
                    assert(groups@[p] == old_groups[p]);
                } else {
                    assert(groups@[p].key@ == old_groups[p].key@);
                }
            } else {
                assert(groups@[q as int].key@ == ks[j]);
            }
        }
        assert forall|a: int, b: int| 0 <= a < b < groups@.len() implies (#[trigger] groups@[a]).first
            < (#[trigger] groups@[b]).first by {
            assert(groups@[a].first == old_groups[a].first);
            assert(groups@[b].first == old_groups[b].first);
        }
    } else {
        assert forall|j: int| 0 <= j < i implies ks[j] != key@ by {
            if ks[j] == key@ {
                let p = choose|p: int| 0 <= p < old_groups.len() && (#[trigger] old_groups[p]).key@ == ks[j];
            }
        }
        proof {
            lemma_count_zero(ks, flags@, key@, i as int);
        }
        groups.push(
            Tally {
                key: key.clone(),
                first: i,
                count: 1,
                flagged: if flag {
                    1
                } else {
                    0
                },
            },
        );
        assert forall|p: int| 0 <= p < groups@.len() implies {
            let g = #[trigger] groups@[p];
            &&& is_first(ks, g.key@, g.first as int)
            &&& g.first < i + 1
            &&& g.count == count_upto(ks, g.key@, i + 1)
            &&& g.flagged == flagged_upto(ks, flags@, g.key@, i + 1)
        } by {
            if p < m {
                assert(groups@[p] == old_groups[p]);
            }
        }
        assert forall|j: int| 0 <= j < i + 1 implies exists|p: int|
            0 <= p < groups@.len() && (#[trigger] groups@[p]).key@ == #[trigger] ks[j] by {
            if j < i {
                let p = choose|p: int| 0 <= p < old_groups.len() && (#[trigger] old_groups[p]).key@ == ks[j];
                assert(groups@[p] == old_groups[p]);
            } else {
                assert(groups@[m as int].key@ == ks[j]);
            }
        }
        assert forall|a: int, b: int| 0 <= a < b < groups@.len() implies (#[trigger] groups@[a]).first
            < (#[trigger] groups@[b]).first by {
            assert(groups@[a] == old_groups[a]);
            if b < m {
                assert(groups@[b] == old_groups[b]);
            }
        }
    }
}

#[verifier::spinoff_prover]
#[verifier::rlimit(40)]
fn insert_ranked(out: &mut Vec<Tally>, item: Tally)
    requires
        ranked(old(out)@),
        forall|j: int| 0 <= j < old(out)@.len() ==> (#[trigger] old(out)@[j]).first < item.first,
    ensures
        ranked(final(out)@),
        final(out)@.len() == old(out)@.len() + 1,
        forall|j: int|
            0 <= j < old(out)@.len() ==> exists|k: int|
                0 <= k < final(out)@.len() && final(out)@[k] == #[trigger] old(out)@[j],
        exists|k: int| 0 <= k < final(out)@.len() && final(out)@[k] == item,
        forall|k: int|
            0 <= k < final(out)@.len() ==> #[trigger] final(out)@[k] == item || exists|j: int|
                0 <= j < old(out)@.len() && final(out)@[k] == old(out)@[j],
{
    let on = out.len();
    let mut p: usize = 0;
    while p < on && out[p].count >= item.count
        invariant
            on == out@.len(),
            p <= on,
            forall|j: int| 0 <= j < p ==> out@[j].count >= item.count,
        decreases on - p,
    {
        p = p + 1;
    }
    let ghost old_out = out@;
    let ghost it = item;
    out.insert(p, item);
    assert(out@ == old_out.insert(p as int, it));
    assert forall|a: int, b: int| 0 <= a < b < out@.len() implies (#[trigger] out@[a]).count
        > (#[trigger] out@[b]).count || (out@[a].count == out@[b].count && out@[a].first
        < out@[b].first) by {
        if b < p {
            assert(out@[a] == old_out[a] && out@[b] == old_out[b]);
        } else if b == p {
            assert(out@[a] == old_out[a]);
        } else if a == p {
            assert(out@[b] == old_out[b - 1]);
            assert(old_out[p as int].count < it.count);
            if b - 1 > p {
                assert(old_out[p as int].count > old_out[b - 1].count || (old_out[p as int].count
                    == old_out[b - 1].count && old_out[p as int].first < old_out[b - 1].first));
            }
        } else if a < p {
            assert(out@[a] == old_out[a] && out@[b] == old_out[b - 1]);
        } else {
            assert(out@[a] == old_out[a - 1] && out@[b] == old_out[b - 1]);
        }
    }
    assert forall|j: int| 0 <= j < old_out.len() implies exists|k: int|
        0 <= k < out@.len() && out@[k] == #[trigger] old_out[j] by {
        if j < p {
            assert(out@[j] == old_out[j]);
        } else {
            assert(out@[j + 1] == old_out[j]);
        }
    }
    assert(out@[p as int] == it);
    assert forall|k: int| 0 <= k < out@.len() implies #[trigger] out@[k] == it || exists|j: int|
        0 <= j < old_out.len() && out@[k] == old_out[j] by {
        if k < p {
            assert(out@[k] == old_out[k]);
        } else if k > p {
            assert(out@[k] == old_out[k - 1]);
        }
    }
}

/// Count each distinct key of `keys`, with the occurrences whose flag is set, ranked by
/// count and then by first occurrence.
pub fn tally(keys: &Vec<String>, flags: &Vec<bool>) -> (r: Vec<Tally>)
    requires
        flags@.len() == keys@.len(),
        forall|k: Seq<char>| count_of(views(keys@), k) <= u32::MAX,
    ensures
        forall|i: int| 0 <= i < r@.len() ==> tally_exact(views(keys@), flags@, #[trigger] r@[i]),
        forall|k: Seq<char>|
            #[trigger] views(keys@).contains(k) ==> exists|i: int|
                0 <= i < r@.len() && (#[trigger] r@[i]).key@ == k,
        ranked(r@),
{
    let ghost ks = views(keys@);
    let n = keys.len();
    let mut groups: Vec<Tally> = Vec::new();
    let mut i: usize = 0;
    while i < n
        invariant
            n == keys@.len(),
            n == flags@.len(),
            forall|k: Seq<char>| count_of(views(keys@), k) <= u32::MAX,
            i <= n,
            ks == views(keys@),
            groups_ok(ks, flags@, groups@, i as int),
        decreases n - i,
    {
        record_occurrence(&mut groups, keys, flags, i);
        i = i + 1;
    }
    // Groups arrive in order of first occurrence, so inserting each after every group of
    // an equal or higher count ranks equal counts by first occurrence.
    let gn = groups.len();
    let mut out: Vec<Tally> = Vec::new();
    let mut g: usize = 0;
    while g < gn
        invariant
            gn == groups@.len(),
            g <= gn,
            ks == views(keys@),
            n == keys@.len(),
            groups_ok(ks, flags@, groups@, n as int),
            forall|q: int| 0 <= q < out@.len() ==> tally_exact(ks, flags@, #[trigger] out@[q]),
            forall|q: int|
                0 <= q < g ==> exists|j: int|
                    0 <= j < out@.len() && (#[trigger] out@[j]).key@ == (#[trigger] groups@[q]).key@,
            forall|j: int, q: int|
                0 <= j < out@.len() && g <= q < groups@.len() ==> (#[trigger] out@[j]).first < (
                #[trigger] groups@[q]).first,
            ranked(out@),
        decreases gn - g,
    {
        let ghost old_out = out@;
        let cur = &groups[g];
        let item = Tally {
            key: cur.key.clone(),
            first: cur.first,
            count: cur.count,
            flagged: cur.flagged,
        };
        let ghost it = item;
        assert(tally_exact(ks, flags@, it));
        insert_ranked(&mut out, item);
        assert forall|q: int| 0 <= q < out@.len() implies tally_exact(ks, flags@, #[trigger] out@[q]) by {
            if out@[q] != it {
                let j = choose|j: int| 0 <= j < old_out.len() && out@[q] == old_out[j];
            }
        }
        assert forall|q: int| 0 <= q < g + 1 implies exists|j: int|
            0 <= j < out@.len() && (#[trigger] out@[j]).key@ == (#[trigger] groups@[q]).key@ by {
            if q < g {
                let j = choose|j: int| 0 <= j < old_out.len() && (#[trigger] old_out[j]).key@ == groups@[q].key@;
                let k = choose|k: int| 0 <= k < out@.len() && out@[k] == old_out[j];
                assert(out@[k].key@ == groups@[q].key@);
            } else {
                let k = choose|k: int| 0 <= k < out@.len() && out@[k] == it;
                assert(out@[k].key@ == groups@[q].key@);
            }
        }
        assert forall|j: int, q: int|
            0 <= j < out@.len() && g + 1 <= q < groups@.len() implies (#[trigger] out@[j]).first < (
            #[trigger] groups@[q]).first by {
            if out@[j] != it {
                let k = choose|k: int| 0 <= k < old_out.len() && out@[j] == old_out[k];
            }
        }
        g = g + 1;
    }
    assert forall|k: Seq<char>| #[trigger] ks.contains(k) implies exists|i: int|
        0 <= i < out@.len() && (#[trigger] out@[i]).key@ == k by {
        let j = choose|j: int| 0 <= j < ks.len() && ks[j] == k;
        let q = choose|q: int| 0 <= q < groups@.len() && (#[trigger] groups@[q]).key@ == ks[j];
        let i = choose|i: int|
            0 <= i < out@.len() && (#[trigger] out@[i]).key@ == (#[trigger] groups@[q]).key@;
    }
    out
}

} // verus!
