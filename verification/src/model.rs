//! Mathematical model of the flowlet windowing algorithm: run membership,
//! per-run switch sets and hit counts, and the shape of a finished
//! aggregation.

use vstd::prelude::*;

use crate::flows::PacketSnapshot;
use crate::switch::lex_lt;
use crate::switch::MininetSwitch;

verus! {

/// Timestamps appear in non-decreasing order.
pub open spec fn ts_sorted(s: Seq<PacketSnapshot>) -> bool {
    forall|i: int, j: int| 0 <= i <= j < s.len() ==> s[i].timestamp <= s[j].timestamp
}

/// The idle gap between two consecutive observations exceeds the flowlet
/// timeout, so a new run starts at the later one. Equality keeps the run.
pub open spec fn gap_splits(prev: PacketSnapshot, cur: PacketSnapshot, timeout: u64) -> bool {
    cur.timestamp > prev.timestamp + timeout
}

/// Index of the flowlet run that the packet at position `i` of the drained
/// sequence belongs to: the number of run boundaries at or before `i`.
pub open spec fn run_id(s: Seq<PacketSnapshot>, timeout: u64, i: int) -> int
    decreases i,
{
    if i <= 0 {
        0
    } else if gap_splits(s[i - 1], s[i], timeout) {
        run_id(s, timeout, i - 1) + 1
    } else {
        run_id(s, timeout, i - 1)
    }
}

/// How many flowlet runs a drained sequence partitions into.
pub open spec fn num_runs(s: Seq<PacketSnapshot>, timeout: u64) -> int {
    if s.len() == 0 {
        0
    } else {
        run_id(s, timeout, s.len() - 1) + 1
    }
}

/// Run indices are never negative.
pub proof fn lemma_run_id_nonneg(s: Seq<PacketSnapshot>, timeout: u64, i: int)
    ensures
        run_id(s, timeout, i) >= 0,
    decreases i,
{
    if i > 0 {
        lemma_run_id_nonneg(s, timeout, i - 1);
    }
}

/// Run indices never decrease along the sequence.
pub proof fn lemma_run_id_monotone(s: Seq<PacketSnapshot>, timeout: u64, i: int, j: int)
    requires
        i <= j,
    ensures
        run_id(s, timeout, i) <= run_id(s, timeout, j),
    decreases j - i,
{
    if i < j {
        lemma_run_id_monotone(s, timeout, i, j - 1);
    }
}

/// The switch labels seen by run `r` among the first `i` packets.
pub open spec fn run_label_set_upto(
    s: Seq<PacketSnapshot>,
    timeout: u64,
    r: int,
    i: int,
) -> Set<Seq<char>> {
    Set::new(
        |l: Seq<char>|
            exists|j: int|
                0 <= j < i && j < s.len() && run_id(s, timeout, j) == r && s[j].sw_name@ == l,
    )
}

/// All switch labels seen by run `r`.
pub open spec fn run_label_set(s: Seq<PacketSnapshot>, timeout: u64, r: int) -> Set<Seq<char>> {
    run_label_set_upto(s, timeout, r, s.len() as int)
}

/// How many of the first `i` packets belong to run `r`.
pub open spec fn run_hits_upto(s: Seq<PacketSnapshot>, timeout: u64, r: int, i: int) -> int
    decreases i,
{
    if i <= 0 {
        0
    } else {
        run_hits_upto(s, timeout, r, i - 1) + if run_id(s, timeout, i - 1) == r {
            1int
        } else {
            0int
        }
    }
}

/// How many packets run `r` holds in all.
pub open spec fn run_hits(s: Seq<PacketSnapshot>, timeout: u64, r: int) -> int {
    run_hits_upto(s, timeout, r, s.len() as int)
}

/// Total hits of the runs below `rmax` whose switch set is exactly `key`.
pub open spec fn key_hits(
    s: Seq<PacketSnapshot>,
    timeout: u64,
    key: Set<Seq<char>>,
    rmax: int,
) -> int
    decreases rmax,
{
    if rmax <= 0 {
        0
    } else {
        key_hits(s, timeout, key, rmax - 1) + if run_label_set(s, timeout, rmax - 1) == key {
            run_hits(s, timeout, rmax - 1)
        } else {
            0int
        }
    }
}

/// A run's packets all sit before any later packet whose run id is larger,
/// so once a boundary has passed index `i`, run `r`'s switch set and hit
/// count are already complete.
pub proof fn lemma_run_complete(s: Seq<PacketSnapshot>, timeout: u64, r: int, i: int)
    requires
        0 <= i <= s.len(),
        i < s.len() ==> run_id(s, timeout, i) > r,
    ensures
        run_label_set_upto(s, timeout, r, i) == run_label_set(s, timeout, r),
        run_hits_upto(s, timeout, r, i) == run_hits(s, timeout, r),
{
    assert forall|j: int| i <= j < s.len() implies run_id(s, timeout, j) != r by {
        lemma_run_id_monotone(s, timeout, i, j);
    }
    assert(run_label_set_upto(s, timeout, r, i) =~= run_label_set(s, timeout, r));
    lemma_run_hits_stable(s, timeout, r, i, s.len() as int);
}

/// Hit counts of run `r` do not change over a stretch of packets that all
/// belong to other runs.
pub proof fn lemma_run_hits_stable(s: Seq<PacketSnapshot>, timeout: u64, r: int, i: int, j: int)
    requires
        0 <= i <= j,
        forall|k: int| i <= k < j ==> run_id(s, timeout, k) != r,
    ensures
        run_hits_upto(s, timeout, r, j) == run_hits_upto(s, timeout, r, i),
    decreases j - i,
{
    if i < j {
        lemma_run_hits_stable(s, timeout, r, i, j - 1);
    }
}

/// A key that is no completed run's switch set has gathered no hits.
pub proof fn lemma_key_hits_absent(
    s: Seq<PacketSnapshot>,
    timeout: u64,
    key: Set<Seq<char>>,
    rmax: int,
)
    requires
        forall|r: int| 0 <= r < rmax ==> run_label_set(s, timeout, r) != key,
    ensures
        key_hits(s, timeout, key, rmax) == 0,
    decreases rmax,
{
    if rmax > 0 {
        lemma_key_hits_absent(s, timeout, key, rmax - 1);
    }
}

/// Two consecutive drained observations fall into the same flowlet run
/// exactly when their gap stays within the timeout; a larger gap puts a
/// boundary between them.
pub proof fn lemma_adjacent_same_run(s: Seq<PacketSnapshot>, timeout: u64, i: int)
    requires
        0 < i < s.len(),
    ensures
        run_id(s, timeout, i) == run_id(s, timeout, i - 1) <==> !gap_splits(
            s[i - 1],
            s[i],
            timeout,
        ),
        gap_splits(s[i - 1], s[i], timeout) ==> run_id(s, timeout, i) == run_id(s, timeout, i - 1)
            + 1,
{
}

/// The switch labels of a sequence of switches, as a set.
pub open spec fn label_set(p: Seq<MininetSwitch>) -> Set<Seq<char>> {
    Set::new(|l: Seq<char>| exists|i: int| 0 <= i < p.len() && p[i]@ == l)
}

/// The labels of a sequence of switches, in order.
pub open spec fn path_view(p: Seq<MininetSwitch>) -> Seq<Seq<char>> {
    p.map_values(|m: MininetSwitch| m@)
}

/// Strictly ascending in lexicographic label order; such a sequence is
/// duplicate-free and is the canonical form of its label set.
pub open spec fn canonical_path(p: Seq<MininetSwitch>) -> bool {
    forall|i: int, j: int| 0 <= i < j < p.len() ==> lex_lt(p[i]@, p[j]@)
}

/// Both sequences list the same label set in canonical (strictly
/// ascending) order, so they list the same labels in the same places.
pub proof fn lemma_canonical_unique(a: Seq<MininetSwitch>, b: Seq<MininetSwitch>)
    requires
        canonical_path(a),
        canonical_path(b),
        label_set(a) == label_set(b),
    ensures
        path_view(a) == path_view(b),
    decreases a.len(),
{
    if a.len() == 0 {
        if b.len() > 0 {
            assert(label_set(b).contains(b[0]@));
        }
        assert(path_view(a) =~= path_view(b));
    } else if b.len() == 0 {
        assert(label_set(a).contains(a[0]@));
    } else {
        assert(a[0]@ == b[0]@) by {
            assert(label_set(b).contains(a[0]@));
            assert(label_set(a).contains(b[0]@));
            let j = choose|j: int| 0 <= j < b.len() && b[j]@ == a[0]@;
            let k = choose|k: int| 0 <= k < a.len() && a[k]@ == b[0]@;
            if j > 0 && k > 0 {
                assert(lex_lt(b[0]@, b[j]@));
                assert(lex_lt(a[0]@, a[k]@));
                crate::switch::lemma_lex_asymmetric(a[0]@, b[0]@);
            }
        }
        let at = a.drop_first();
        let bt = b.drop_first();
        assert(label_set(at) =~= label_set(bt)) by {
            assert forall|l: Seq<char>| label_set(at).contains(l) implies label_set(
                bt,
            ).contains(l) by {
                let i = choose|i: int| 0 <= i < at.len() && at[i]@ == l;
                assert(a[i + 1]@ == l);
                assert(label_set(a).contains(l));
                let j = choose|j: int| 0 <= j < b.len() && b[j]@ == l;
                assert(l != b[0]@) by {
                    assert(lex_lt(a[0]@, a[i + 1]@));
                    if l == b[0]@ {
                        crate::switch::lemma_lex_irreflexive(a[0]@);
                    }
                }
                assert(bt[j - 1]@ == l);
            }
            assert forall|l: Seq<char>| label_set(bt).contains(l) implies label_set(
                at,
            ).contains(l) by {
                let i = choose|i: int| 0 <= i < bt.len() && bt[i]@ == l;
                assert(b[i + 1]@ == l);
                assert(label_set(b).contains(l));
                let j = choose|j: int| 0 <= j < a.len() && a[j]@ == l;
                assert(l != a[0]@) by {
                    assert(lex_lt(b[0]@, b[i + 1]@));
                    if l == a[0]@ {
                        crate::switch::lemma_lex_irreflexive(b[0]@);
                    }
                }
                assert(at[j - 1]@ == l);
            }
        }
        lemma_canonical_unique(at, bt);
        assert(a.len() == b.len()) by {
            assert(path_view(at).len() == at.len());
            assert(path_view(bt).len() == bt.len());
        }
        assert forall|i: int| 0 <= i < a.len() implies path_view(a)[i] == path_view(b)[i] by {
            if i > 0 {
                assert(at[i - 1] == a[i]);
                assert(bt[i - 1] == b[i]);
                assert(path_view(at)[i - 1] == at[i - 1]@);
                assert(path_view(bt)[i - 1] == bt[i - 1]@);
            }
        }
        assert(path_view(a) =~= path_view(b));
    }
}

/// Sequences with the same labels in the same order have the same label
/// set.
pub proof fn lemma_label_set_from_view(a: Seq<MininetSwitch>, b: Seq<MininetSwitch>)
    requires
        path_view(a) == path_view(b),
    ensures
        label_set(a) == label_set(b),
{
    assert(a.len() == b.len()) by {
        assert(path_view(a).len() == a.len());
        assert(path_view(b).len() == b.len());
    }
    assert forall|l: Seq<char>| label_set(a).contains(l) implies label_set(b).contains(l) by {
        let i = choose|i: int| 0 <= i < a.len() && a[i]@ == l;
        assert(path_view(b)[i] == l);
        assert(b[i]@ == l);
    }
    assert forall|l: Seq<char>| label_set(b).contains(l) implies label_set(a).contains(l) by {
        let i = choose|i: int| 0 <= i < b.len() && b[i]@ == l;
        assert(path_view(a)[i] == l);
        assert(a[i]@ == l);
    }
    assert(label_set(a) =~= label_set(b));
}

/// Some entry of the aggregation carries `key` as its switch set.
pub open spec fn has_key(es: Seq<(Vec<MininetSwitch>, usize)>, key: Set<Seq<char>>) -> bool {
    exists|k: int| 0 <= k < es.len() && label_set(#[trigger] es[k].0@) == key
}

/// No two entries carry the same switch set.
pub open spec fn entries_distinct(es: Seq<(Vec<MininetSwitch>, usize)>) -> bool {
    forall|k1: int, k2: int|
        0 <= k1 < k2 < es.len() ==> label_set(#[trigger] es[k1].0@) != label_set(
            #[trigger] es[k2].0@,
        )
}

/// Every entry's switch path is canonical.
pub open spec fn entries_canonical(es: Seq<(Vec<MininetSwitch>, usize)>) -> bool {
    forall|k: int| 0 <= k < es.len() ==> canonical_path(#[trigger] es[k].0@)
}

/// Sum of the hit counts stored in an aggregation's entries.
pub open spec fn sum_hits(es: Seq<(Vec<MininetSwitch>, usize)>) -> int
    decreases es.len(),
{
    if es.len() == 0 {
        0
    } else {
        sum_hits(es.drop_last()) + es.last().1 as int
    }
}

/// The sum of hit counts is never negative.
pub proof fn lemma_sum_hits_nonneg(es: Seq<(Vec<MininetSwitch>, usize)>)
    ensures
        sum_hits(es) >= 0,
    decreases es.len(),
{
    if es.len() > 0 {
        lemma_sum_hits_nonneg(es.drop_last());
    }
}

/// Each entry's hit count is at most the sum over all entries.
pub proof fn lemma_sum_hits_entry_bound(es: Seq<(Vec<MininetSwitch>, usize)>, k: int)
    requires
        0 <= k < es.len(),
    ensures
        es[k].1 as int <= sum_hits(es),
    decreases es.len(),
{
    if k == es.len() - 1 {
        lemma_sum_hits_nonneg(es.drop_last());
    } else {
        lemma_sum_hits_entry_bound(es.drop_last(), k);
    }
}

/// Removing an entry removes exactly its hit count from the sum.
pub proof fn lemma_sum_hits_remove(es: Seq<(Vec<MininetSwitch>, usize)>, k: int)
    requires
        0 <= k < es.len(),
    ensures
        sum_hits(es.remove(k)) == sum_hits(es) - es[k].1 as int,
    decreases es.len(),
{
    if k == es.len() - 1 {
        assert(es.remove(k) =~= es.drop_last());
    } else {
        assert(es.remove(k).drop_last() =~= es.drop_last().remove(k));
        assert(es.remove(k).last() == es.last());
        lemma_sum_hits_remove(es.drop_last(), k);
    }
}

/// A run that no packet before `i` belongs to is still empty there.
pub proof fn lemma_run_fresh(s: Seq<PacketSnapshot>, timeout: u64, r: int, i: int)
    requires
        0 <= i <= s.len(),
        forall|j: int| 0 <= j < i ==> run_id(s, timeout, j) != r,
    ensures
        run_label_set_upto(s, timeout, r, i) == Set::<Seq<char>>::empty(),
        run_hits_upto(s, timeout, r, i) == 0,
{
    assert(run_label_set_upto(s, timeout, r, i) =~= Set::<Seq<char>>::empty());
    lemma_run_hits_stable(s, timeout, r, 0, i);
}

/// Taking packet `i` into its run adds that packet's switch label to the
/// run's set and one to the run's hit count.
pub proof fn lemma_extend_run(s: Seq<PacketSnapshot>, timeout: u64, i: int)
    requires
        0 <= i < s.len(),
    ensures
        run_label_set_upto(s, timeout, run_id(s, timeout, i), i + 1) == run_label_set_upto(
            s,
            timeout,
            run_id(s, timeout, i),
            i,
        ).insert(s[i].sw_name@),
        run_hits_upto(s, timeout, run_id(s, timeout, i), i + 1) == run_hits_upto(
            s,
            timeout,
            run_id(s, timeout, i),
            i,
        ) + 1,
{
    let r = run_id(s, timeout, i);
    assert forall|l: Seq<char>|
        run_label_set_upto(s, timeout, r, i + 1).contains(l) implies run_label_set_upto(
        s,
        timeout,
        r,
        i,
    ).insert(s[i].sw_name@).contains(l) by {
        let j = choose|j: int|
            0 <= j < i + 1 && j < s.len() && run_id(s, timeout, j) == r && s[j].sw_name@ == l;
        if j < i {
            assert(run_label_set_upto(s, timeout, r, i).contains(l));
        }
    }
    assert forall|l: Seq<char>|
        run_label_set_upto(s, timeout, r, i).insert(s[i].sw_name@).contains(
            l,
        ) implies run_label_set_upto(s, timeout, r, i + 1).contains(l) by {
        if l == s[i].sw_name@ {
            assert(0 <= i < i + 1 && run_id(s, timeout, i) == r && s[i].sw_name@ == l);
        } else {
            let j = choose|j: int|
                0 <= j < i && j < s.len() && run_id(s, timeout, j) == r && s[j].sw_name@ == l;
            assert(0 <= j < i + 1 && run_id(s, timeout, j) == r && s[j].sw_name@ == l);
        }
    }
    assert(run_label_set_upto(s, timeout, r, i + 1) =~= run_label_set_upto(
        s,
        timeout,
        r,
        i,
    ).insert(s[i].sw_name@));
}

/// Before a completed run `r` is folded into the aggregation: the entry
/// matching run `r`'s switch set (if any) carries exactly the hits of the
/// earlier runs with that set, and that amount is within the stored sum.
pub proof fn lemma_bump_pre(
    d: Seq<PacketSnapshot>,
    timeout: u64,
    es: Seq<(Vec<MininetSwitch>, usize)>,
    r: int,
)
    requires
        forall|rr: int| 0 <= rr < r ==> has_key(es, #[trigger] run_label_set(d, timeout, rr)),
        forall|k: int|
            0 <= k < es.len() ==> #[trigger] es[k].1 as int == key_hits(
                d,
                timeout,
                label_set(es[k].0@),
                r,
            ),
    ensures
        forall|k: int|
            0 <= k < es.len() && label_set(#[trigger] es[k].0@) == run_label_set(d, timeout, r)
                ==> es[k].1 as int == key_hits(d, timeout, run_label_set(d, timeout, r), r),
        !has_key(es, run_label_set(d, timeout, r)) ==> key_hits(
            d,
            timeout,
            run_label_set(d, timeout, r),
            r,
        ) == 0,
        0 <= key_hits(d, timeout, run_label_set(d, timeout, r), r) <= sum_hits(es),
{
    let s = run_label_set(d, timeout, r);
    if !has_key(es, s) {
        assert forall|rr: int| 0 <= rr < r implies run_label_set(d, timeout, rr) != s by {
            if run_label_set(d, timeout, rr) == s {
                assert(has_key(es, run_label_set(d, timeout, rr)));
            }
        }
        lemma_key_hits_absent(d, timeout, s, r);
        lemma_sum_hits_nonneg(es);
    } else {
        let k0 = choose|k0: int| 0 <= k0 < es.len() && label_set(#[trigger] es[k0].0@) == s;
        assert(es[k0].1 as int == key_hits(d, timeout, s, r));
        lemma_sum_hits_entry_bound(es, k0);
    }
}

/// After a completed run `r` has been folded into the aggregation, the
/// entries describe the runs up to and including `r`.
pub proof fn lemma_bump_post(
    d: Seq<PacketSnapshot>,
    timeout: u64,
    pre: Seq<(Vec<MininetSwitch>, usize)>,
    post: Seq<(Vec<MininetSwitch>, usize)>,
    r: int,
)
    requires
        0 <= r,
        forall|rr: int| 0 <= rr < r ==> has_key(pre, #[trigger] run_label_set(d, timeout, rr)),
        forall|k: int|
            0 <= k < pre.len() ==> exists|rr: int|
                0 <= rr < r && run_label_set(d, timeout, rr) == label_set(#[trigger] pre[k].0@),
        forall|k: int|
            0 <= k < pre.len() ==> #[trigger] pre[k].1 as int == key_hits(
                d,
                timeout,
                label_set(pre[k].0@),
                r,
            ),
        has_key(post, run_label_set(d, timeout, r)),
        forall|k: int|
            0 <= k < post.len() && label_set(#[trigger] post[k].0@) != run_label_set(
                d,
                timeout,
                r,
            ) ==> exists|k0: int| 0 <= k0 < pre.len() && post[k] == pre[k0],
        forall|k0: int|
            0 <= k0 < pre.len() && label_set(#[trigger] pre[k0].0@) != run_label_set(
                d,
                timeout,
                r,
            ) ==> exists|k: int| 0 <= k < post.len() && post[k] == pre[k0],
        forall|k: int|
            0 <= k < post.len() && label_set(#[trigger] post[k].0@) == run_label_set(
                d,
                timeout,
                r,
            ) ==> post[k].1 as int == key_hits(d, timeout, run_label_set(d, timeout, r), r)
                + run_hits(d, timeout, r),
    ensures
        forall|rr: int| 0 <= rr < r + 1 ==> has_key(post, #[trigger] run_label_set(d, timeout, rr)),
        forall|k: int|
            0 <= k < post.len() ==> exists|rr: int|
                0 <= rr < r + 1 && run_label_set(d, timeout, rr) == label_set(
                    #[trigger] post[k].0@,
                ),
        forall|k: int|
            0 <= k < post.len() ==> #[trigger] post[k].1 as int == key_hits(
                d,
                timeout,
                label_set(post[k].0@),
                r + 1,
            ),
{
    let s = run_label_set(d, timeout, r);
    assert forall|rr: int| 0 <= rr < r + 1 implies has_key(
        post,
        #[trigger] run_label_set(d, timeout, rr),
    ) by {
        if rr < r {
            let t_ = run_label_set(d, timeout, rr);
            if t_ != s {
                assert(has_key(pre, t_));
                let k0 = choose|k0: int|
                    0 <= k0 < pre.len() && label_set(#[trigger] pre[k0].0@) == t_;
                let k = choose|k: int| 0 <= k < post.len() && post[k] == pre[k0];
                assert(label_set(post[k].0@) == t_);
            }
        }
    }
    assert forall|k: int| 0 <= k < post.len() implies exists|rr: int|
        0 <= rr < r + 1 && run_label_set(d, timeout, rr) == label_set(#[trigger] post[k].0@) by {
        if label_set(post[k].0@) == s {
            assert(0 <= r < r + 1 && run_label_set(d, timeout, r) == label_set(post[k].0@));
        } else {
            let k0 = choose|k0: int| 0 <= k0 < pre.len() && post[k] == pre[k0];
            assert(exists|rr: int|
                0 <= rr < r && run_label_set(d, timeout, rr) == label_set(#[trigger] pre[k0].0@));
        }
    }
    assert forall|k: int| 0 <= k < post.len() implies #[trigger] post[k].1 as int == key_hits(
        d,
        timeout,
        label_set(post[k].0@),
        r + 1,
    ) by {
        if label_set(post[k].0@) != s {
            let k0 = choose|k0: int| 0 <= k0 < pre.len() && post[k] == pre[k0];
            assert(post[k].1 as int == key_hits(d, timeout, label_set(pre[k0].0@), r));
        }
    }
}

/// `es` aggregates the flowlets of some ascending arrangement of the
/// buffered observations `pre`. The arrangement is quantified because the
/// order among equal timestamps is unspecified by design.
pub open spec fn aggregation_of(
    pre: Seq<PacketSnapshot>,
    timeout: u64,
    es: Seq<(Vec<MininetSwitch>, usize)>,
) -> bool {
    exists|dr: Seq<PacketSnapshot>|
        ts_sorted(dr) && dr.to_multiset() == pre.to_multiset()
            && #[trigger] is_flowlet_aggregation(dr, timeout, es) && sum_hits(es) == pre.len()
}

/// What it means for `es` to be the flowlet aggregation of the drained,
/// ascending sequence `s` under `timeout`: every entry is a canonical
/// switch path carrying the total hits of the runs with exactly that
/// switch set, every run's switch set has exactly one entry, and no two
/// entries share a switch set.
pub open spec fn is_flowlet_aggregation(
    s: Seq<PacketSnapshot>,
    timeout: u64,
    es: Seq<(Vec<MininetSwitch>, usize)>,
) -> bool {
    &&& entries_canonical(es)
    &&& entries_distinct(es)
    &&& forall|k: int|
        0 <= k < es.len() ==> exists|r: int|
            0 <= r < num_runs(s, timeout) && run_label_set(s, timeout, r) == label_set(
                #[trigger] es[k].0@,
            )
    &&& forall|k: int|
        0 <= k < es.len() ==> #[trigger] es[k].1 as int == key_hits(
            s,
            timeout,
            label_set(es[k].0@),
            num_runs(s, timeout),
        )
    &&& forall|r: int|
        0 <= r < num_runs(s, timeout) ==> has_key(es, #[trigger] run_label_set(s, timeout, r))
}

} // verus!
