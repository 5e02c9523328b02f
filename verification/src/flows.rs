//! Per-flow packet logs and the flowlet windowing algorithm.

use vstd::prelude::*;

use crate::model;
use crate::model::canonical_path;
use crate::model::entries_canonical;
use crate::model::entries_distinct;
use crate::model::gap_splits;
use crate::model::is_flowlet_aggregation;
use crate::model::label_set;
use crate::model::lemma_sum_hits_remove;
use crate::model::path_view;
use crate::model::sum_hits;
use crate::model::ts_sorted;
use crate::switch::lex_lt;
use crate::switch::MininetSwitch;

verus! {

/// The canonical switch path of one flowlet: its switch labels sorted
/// lexicographically, without duplicates.
pub type FlowletPath = Vec<MininetSwitch>;

/// The metadata held for each observation on an (address, address) flow.
#[derive(Debug, PartialEq, Eq)]
pub struct PacketSnapshot {
    /// Capture time in nanoseconds.
    pub timestamp: u64,
    /// Name of the transport protocol the decoder reported.
    pub ip_protocol: String,
    pub tcp_src_port: u16,
    pub tcp_dst_port: u16,
    /// The switch whose capture file this observation came from.
    pub sw_name: MininetSwitch,
}

/// The ordered packet buffer of one flow. Insertion is cheap; draining
/// hands the observations out in ascending-timestamp order.
#[derive(Debug)]
pub struct FlowLogs {
    packets: Vec<PacketSnapshot>,
}

impl View for FlowLogs {
    type V = Seq<PacketSnapshot>;

    closed spec fn view(&self) -> Seq<PacketSnapshot> {
        self.packets@
    }
}

impl Default for FlowLogs {
    fn default() -> (r: Self)
        ensures
            r@ == Seq::<PacketSnapshot>::empty(),
    {
        FlowLogs { packets: Vec::new() }
    }
}

impl FlowLogs {
    pub fn new() -> (r: Self)
        ensures
            r@ == Seq::<PacketSnapshot>::empty(),
    {
        FlowLogs { packets: Vec::new() }
    }

    /// The observations currently buffered, without draining them. The
    /// order carries no meaning; callers may only count over it.
    pub fn inspect_packets(&self) -> (r: &Vec<PacketSnapshot>)
        ensures
            r@ == self@,
    {
        &self.packets
    }

    /// Adds the given packet to the internal log tracker.
    pub fn add_packet(&mut self, pkt: PacketSnapshot)
        ensures
            final(self)@ == old(self)@.push(pkt),
    {
        self.packets.push(pkt)
    }

    /// Empties the buffer, returning every observation in ascending
    /// timestamp order. Observations with equal timestamps come out in an
    /// unspecified order.
    pub fn drain_ascending(&mut self) -> (r: Vec<PacketSnapshot>)
        ensures
            ts_sorted(r@),
            r@.to_multiset() == old(self)@.to_multiset(),
            final(self)@.len() == 0,
    {
        let mut out: Vec<PacketSnapshot> = Vec::new();
        proof {
            broadcast use vstd::multiset::group_multiset_axioms;

            vstd::seq_lib::to_multiset_len(out@);
            vstd::multiset::lemma_multiset_empty_len(out@.to_multiset());
            assert(out@.to_multiset().add(self.packets@.to_multiset()) =~= self.packets@.to_multiset());
        }
        while self.packets.len() != 0
            invariant
                ts_sorted(out@),
                out@.to_multiset().add(self.packets@.to_multiset()) == old(self)@.to_multiset(),
                forall|m: int, k: int|
                    0 <= m < out@.len() && 0 <= k < self.packets@.len() ==> out@[m].timestamp
                        <= self.packets@[k].timestamp,
            decreases self.packets.len(),
        {
            let ghost pre_packets = self.packets@;
            let ghost pre_out = out@;
            let mut mi: usize = 0;
            let mut i: usize = 1;
            while i < self.packets.len()
                invariant
                    0 < self.packets@.len(),
                    mi < i,
                    i <= self.packets@.len(),
                    forall|k: int|
                        0 <= k < i ==> self.packets@[mi as int].timestamp
                            <= self.packets@[k].timestamp,
                decreases self.packets@.len() - i,
            {
                if self.packets[i].timestamp < self.packets[mi].timestamp {
                    mi = i;
                }
                i += 1;
            }
            let pkt = self.packets.remove(mi);
            out.push(pkt);
            proof {
                broadcast use vstd::multiset::group_multiset_axioms;

                assert(pre_packets.contains(pre_packets[mi as int]));
                assert(pkt == pre_packets[mi as int]);
                assert(self.packets@ == pre_packets.remove(mi as int));
                vstd::seq_lib::to_multiset_remove(pre_packets, mi as int);
                assert(out@ == pre_out.push(pkt));
                vstd::seq_lib::to_multiset_build(pre_out, pkt);
                vstd::seq_lib::to_multiset_contains(pre_packets, pkt);
                assert(pre_packets.to_multiset().count(pkt) >= 1);
                assert(out@.to_multiset().add(self.packets@.to_multiset()) =~= pre_out.to_multiset().add(
                    pre_packets.to_multiset(),
                ));
                assert(forall|k: int|
                    0 <= k < self.packets@.len() ==> self.packets@[k] == if k < mi as int {
                        pre_packets[k]
                    } else {
                        pre_packets[k + 1]
                    });
                assert forall|x: int, y: int|
                    0 <= x <= y < out@.len() implies out@[x].timestamp <= out@[y].timestamp by {
                    if y == pre_out.len() && x < y {
                        assert(out@[x] == pre_out[x]);
                        assert(out@[y] == pre_packets[mi as int]);
                    }
                }
            }
        }
        proof {
            broadcast use vstd::multiset::group_multiset_axioms;

            vstd::seq_lib::to_multiset_len(self.packets@);
            vstd::multiset::lemma_multiset_empty_len(self.packets@.to_multiset());
            assert(out@.to_multiset() =~= out@.to_multiset().add(self.packets@.to_multiset()));
        }
        out
    }

    /// Drains the buffered observations in ascending-timestamp order and
    /// partitions them into flowlets: `None` when the log was empty,
    /// otherwise one entry per distinct canonical switch path, carrying
    /// the total hits of the runs that traversed exactly those switches.
    pub fn aggregate_flowlets(&mut self, timeout: u64) -> (r: Option<Vec<(FlowletPath, usize)>>)
        ensures
            r is None <==> old(self)@.len() == 0,
            r is None ==> final(self)@ == old(self)@,
            r is Some ==> final(self)@.len() == 0,
            r is Some ==> model::aggregation_of(old(self)@, timeout, r->Some_0@),
    {
        if self.packets.len() == 0 {
            return None;
        }
        let dr = self.drain_ascending();
        let es = aggregate_flowlets_sorted(&dr, timeout);
        proof {
            vstd::seq_lib::to_multiset_len(dr@);
            vstd::seq_lib::to_multiset_len(old(self)@);
            assert(ts_sorted(dr@) && dr@.to_multiset() == old(self)@.to_multiset()
                && is_flowlet_aggregation(dr@, timeout, es@) && sum_hits(es@) == old(self)@.len());
            assert(model::aggregation_of(old(self)@, timeout, es@));
        }
        Some(es)
    }

    /// Hands out the current run's canonical switch path and resets the
    /// tracker for the next run.
    pub fn finish_flowlet(flows: &mut FlowletPath) -> (r: FlowletPath)
        ensures
            r == *old(flows),
            final(flows)@.len() == 0,
    {
        let mut out: FlowletPath = Vec::new();
        core::mem::swap(flows, &mut out);
        out
    }
}

/// Label-wise equality of two switch paths.
fn path_eq(a: &FlowletPath, b: &FlowletPath) -> (r: bool)
    ensures
        r == (path_view(a@) == path_view(b@)),
{
    if a.len() != b.len() {
        proof {
            assert(path_view(a@).len() != path_view(b@).len());
        }
        return false;
    }
    let mut i: usize = 0;
    while i < a.len()
        invariant
            i <= a@.len(),
            a@.len() == b@.len(),
            forall|j: int| 0 <= j < i ==> a@[j]@ == b@[j]@,
        decreases a@.len() - i,
    {
        if !a[i].same_label(&b[i]) {
            proof {
                assert(path_view(a@)[i as int] != path_view(b@)[i as int]);
            }
            return false;
        }
        i += 1;
    }
    proof {
        assert(path_view(a@) =~= path_view(b@));
    }
    true
}

/// Adds a switch's label to a canonical path, keeping it sorted and free
/// of duplicates.
fn insert_label(path: &mut FlowletPath, sw: &MininetSwitch)
    requires
        canonical_path(old(path)@),
    ensures
        canonical_path(final(path)@),
        label_set(final(path)@) == label_set(old(path)@).insert(sw@),
{
    let ghost pre = path@;
    let mut i: usize = 0;
    loop
        invariant_except_break
            i <= path@.len(),
            path@ == pre,
            canonical_path(path@),
            forall|j: int| 0 <= j < i ==> lex_lt(#[trigger] path@[j]@, sw@),
        ensures
            path@ == pre,
            i <= path@.len(),
            forall|j: int| 0 <= j < i ==> lex_lt(#[trigger] path@[j]@, sw@),
            i < path@.len() ==> !lex_lt(path@[i as int]@, sw@),
        decreases path@.len() - i,
    {
        if i == path.len() {
            break;
        }
        if !path[i].label_lt(sw) {
            break;
        }
        i += 1;
    }
    if i < path.len() && path[i].same_label(sw) {
        proof {
            assert(label_set(path@).contains(sw@));
            assert(label_set(path@) =~= label_set(pre).insert(sw@));
        }
        return;
    }
    path.insert(i, sw.clone());
    proof {
        assert(forall|j: int|
            0 <= j < path@.len() ==> path@[j] == (if j < i as int {
                pre[j]
            } else if j == i as int {
                path@[i as int]
            } else {
                pre[j - 1]
            }));
        assert(path@[i as int]@ == sw@);
        assert forall|x: int, y: int| 0 <= x < y < path@.len() implies lex_lt(
            path@[x]@,
            path@[y]@,
        ) by {
            if y == i as int {
                // x < i: already below the new label
            } else if x == i as int {
                // the entry at i in the old path sits above the new label
                assert(y - 1 >= i as int);
                if (i as int) < pre.len() {
                    assert(!lex_lt(pre[i as int]@, sw@));
                    assert(pre[i as int]@ != sw@);
                    assert(lex_lt(sw@, pre[i as int]@)) by {
                        if !lex_lt(sw@, pre[i as int]@) {
                            crate::switch::lemma_lex_connected(pre[i as int]@, sw@);
                        }
                    }
                    if y - 1 > i as int {
                        assert(lex_lt(pre[i as int]@, pre[y - 1]@));
                        crate::switch::lemma_lex_transitive(sw@, pre[i as int]@, pre[y - 1]@);
                    }
                }
            }
        }
        assert forall|l: Seq<char>|
            label_set(path@).contains(l) == label_set(pre).insert(sw@).contains(l) by {
            if label_set(path@).contains(l) {
                let j = choose|j: int| 0 <= j < path@.len() && path@[j]@ == l;
                if j != i as int {
                    let j0: int = if j < i as int {
                        j
                    } else {
                        j - 1
                    };
                    assert(pre[j0]@ == l);
                    assert(label_set(pre).contains(l));
                }
            }
            if label_set(pre).insert(sw@).contains(l) {
                if l == sw@ {
                    assert(path@[i as int]@ == l);
                } else {
                    let j0 = choose|j0: int| 0 <= j0 < pre.len() && pre[j0]@ == l;
                    let j: int = if j0 < i as int {
                        j0
                    } else {
                        j0 + 1
                    };
                    assert(path@[j]@ == l);
                }
                assert(label_set(path@).contains(l));
            }
        }
        assert(label_set(path@) =~= label_set(pre).insert(sw@));
    }
}

/// Adds `hits` to the aggregation entry whose switch set matches `path`,
/// creating the entry when that set is new. `old_val` names the hit count
/// the matching entry held before, zero when there was none.
#[verifier::rlimit(100)]
fn bump_entry(
    entries: &mut Vec<(FlowletPath, usize)>,
    path: FlowletPath,
    hits: usize,
    Ghost(old_val): Ghost<int>,
)
    requires
        entries_canonical(old(entries)@),
        entries_distinct(old(entries)@),
        canonical_path(path@),
        forall|k: int|
            0 <= k < old(entries)@.len() && label_set(#[trigger] old(entries)@[k].0@) == label_set(
                path@,
            ) ==> old(entries)@[k].1 as int == old_val,
        !model::has_key(old(entries)@, label_set(path@)) ==> old_val == 0,
        0 <= old_val,
        old_val + hits <= usize::MAX,
    ensures
        entries_canonical(final(entries)@),
        entries_distinct(final(entries)@),
        model::has_key(final(entries)@, label_set(path@)),
        forall|k: int|
            0 <= k < final(entries)@.len() && label_set(#[trigger] final(entries)@[k].0@)
                != label_set(path@) ==> exists|k0: int|
                0 <= k0 < old(entries)@.len() && final(entries)@[k] == old(entries)@[k0],
        forall|k0: int|
            0 <= k0 < old(entries)@.len() && label_set(#[trigger] old(entries)@[k0].0@)
                != label_set(path@) ==> exists|k: int|
                0 <= k < final(entries)@.len() && final(entries)@[k] == old(entries)@[k0],
        forall|k: int|
            0 <= k < final(entries)@.len() && label_set(#[trigger] final(entries)@[k].0@)
                == label_set(path@) ==> final(entries)@[k].1 as int == old_val + hits,
        sum_hits(final(entries)@) == sum_hits(old(entries)@) + hits,
{
    let ghost s = label_set(path@);
    let ghost pre = entries@;
    let mut k: usize = 0;
    loop
        invariant_except_break
            k <= pre.len(),
            entries@ == pre,
            forall|j: int| 0 <= j < k ==> path_view(#[trigger] pre[j].0@) != path_view(path@),
        ensures
            entries@ == pre,
            k <= pre.len(),
            forall|j: int| 0 <= j < k ==> path_view(#[trigger] pre[j].0@) != path_view(path@),
            k < pre.len() ==> path_view(pre[k as int].0@) == path_view(path@),
        decreases pre.len() - k,
    {
        if k == entries.len() {
            break;
        }
        if path_eq(&entries[k].0, &path) {
            break;
        }
        k += 1;
    }
    if k < entries.len() {
        proof {
            model::lemma_label_set_from_view(pre[k as int].0@, path@);
            assert(pre[k as int].1 as int == old_val);
            lemma_sum_hits_remove(pre, k as int);
        }
        let (p, c) = entries.remove(k);
        let ghost mid = entries@;
        entries.push((p, c + hits));
        proof {
            assert(entries@.drop_last() =~= mid);
            assert(entries@.last().0 == p && entries@.last().1 as int == c + hits);
            assert(forall|j: int|
                0 <= j < mid.len() ==> mid[j] == (if j < k as int {
                    pre[j]
                } else {
                    pre[j + 1]
                }));
            // any entry other than the bumped one came from the old list
            assert forall|j: int|
                0 <= j < entries@.len() && label_set(#[trigger] entries@[j].0@) != s implies exists|
                k0: int,
            | 0 <= k0 < pre.len() && entries@[j] == pre[k0] by {
                if j < mid.len() {
                    let k0: int = if j < k as int {
                        j
                    } else {
                        j + 1
                    };
                    assert(entries@[j] == pre[k0]);
                } else {
                    assert(entries@[j].0 == p);
                    assert(label_set(entries@[j].0@) == s);
                }
            }
            assert forall|k0: int|
                0 <= k0 < pre.len() && label_set(#[trigger] pre[k0].0@) != s implies exists|j: int|
                0 <= j < entries@.len() && entries@[j] == pre[k0] by {
                assert(k0 != k as int);
                let j: int = if k0 < k as int {
                    k0
                } else {
                    k0 - 1
                };
                assert(entries@[j] == pre[k0]);
            }
            // only the bumped entry carries this switch set
            assert forall|j: int|
                0 <= j < entries@.len() && label_set(#[trigger] entries@[j].0@) == s implies entries@[j].1
                as int == old_val + hits by {
                if j < mid.len() {
                    let k0: int = if j < k as int {
                        j
                    } else {
                        j + 1
                    };
                    assert(entries@[j] == pre[k0]);
                    assert(k0 != k as int);
                    assert(label_set(pre[k0].0@) != label_set(pre[k as int].0@));
                }
            }
            assert(entries_distinct(entries@)) by {
                assert forall|k1: int, k2: int|
                    0 <= k1 < k2 < entries@.len() implies label_set(#[trigger] entries@[k1].0@)
                    != label_set(#[trigger] entries@[k2].0@) by {
                    let m1: int = if k1 < k as int {
                        k1
                    } else if k1 < mid.len() {
                        k1 + 1
                    } else {
                        k as int
                    };
                    let m2: int = if k2 < k as int {
                        k2
                    } else if k2 < mid.len() {
                        k2 + 1
                    } else {
                        k as int
                    };
                    assert(entries@[k1] == pre[m1]);
                    assert(entries@[k2].0 == pre[m2].0);
                    assert(m1 != m2);
                }
            }
            assert(label_set(entries@[entries@.len() - 1].0@) == s);
        }
    } else {
        proof {
            assert forall|j: int| 0 <= j < pre.len() implies label_set(
                #[trigger] pre[j].0@,
            ) != s by {
                if label_set(pre[j].0@) == s {
                    model::lemma_canonical_unique(pre[j].0@, path@);
                }
            }
            assert(!model::has_key(pre, s));
        }
        entries.push((path, hits));
        proof {
            assert(entries@.drop_last() =~= pre);
            assert(entries@.last() == (path, hits));
            assert(forall|j: int| 0 <= j < pre.len() ==> entries@[j] == pre[j]);
            assert(label_set(entries@[entries@.len() - 1].0@) == s);
            assert forall|k0: int|
                0 <= k0 < pre.len() && label_set(#[trigger] pre[k0].0@) != s implies exists|j: int|
                0 <= j < entries@.len() && entries@[j] == pre[k0] by {
                assert(entries@[k0] == pre[k0]);
            }
        }
    }
}

/// Directional flow key: an ordered (source, destination) address pair,
/// each IPv4 address as its 32-bit value.
#[derive(Debug, PartialEq, Eq, Structural, Clone, Copy, Hash)]
pub struct FlowKey {
    pub src_ip: u32,
    pub dst_ip: u32,
}

/// There is an entry for flow `k`.
pub open spec fn has_flow(flows: Seq<(FlowKey, FlowLogs)>, k: FlowKey) -> bool {
    exists|j: int| 0 <= j < flows.len() && (#[trigger] flows[j]).0 == k
}

/// The buffered observations of flow `k`; empty when there is no entry.
pub open spec fn log_of(flows: Seq<(FlowKey, FlowLogs)>, k: FlowKey) -> Seq<PacketSnapshot> {
    if has_flow(flows, k) {
        let j = choose|j: int| 0 <= j < flows.len() && (#[trigger] flows[j]).0 == k;
        flows[j].1@
    } else {
        Seq::empty()
    }
}

/// Tracks decoded observations grouped per (source, destination) address
/// pair; the entry point for ingestion.
#[derive(Debug)]
pub struct PcapAnalyzer {
    pub flows: Vec<(FlowKey, FlowLogs)>,
}

impl Default for PcapAnalyzer {
    fn default() -> (r: Self)
        ensures
            r.wf(),
            r.flows@.len() == 0,
    {
        PcapAnalyzer { flows: Vec::new() }
    }
}

impl PcapAnalyzer {
    /// No two entries track the same address pair.
    pub open spec fn wf(&self) -> bool {
        forall|j1: int, j2: int|
            0 <= j1 < j2 < self.flows@.len() ==> (#[trigger] self.flows@[j1]).0 != (
            #[trigger] self.flows@[j2]).0
    }

    pub fn new() -> (r: Self)
        ensures
            r.wf(),
            r.flows@.len() == 0,
    {
        PcapAnalyzer { flows: Vec::new() }
    }

    /// Inserts an observation into the log of its (source, destination)
    /// flow, creating an empty log on first occurrence; always succeeds.
    /// The order of the flow entries carries no meaning.
    #[verifier::rlimit(50)]
    pub fn record(&mut self, pkt: PacketSnapshot, src_ip: u32, dst_ip: u32)
        requires
            old(self).wf(),
        ensures
            final(self).wf(),
            has_flow(final(self).flows@, FlowKey { src_ip, dst_ip }),
            log_of(final(self).flows@, FlowKey { src_ip, dst_ip }) == log_of(
                old(self).flows@,
                FlowKey { src_ip, dst_ip },
            ).push(pkt),
            forall|k2: FlowKey|
                k2 != (FlowKey { src_ip, dst_ip }) ==> #[trigger] has_flow(
                    final(self).flows@,
                    k2,
                ) == has_flow(old(self).flows@, k2),
            forall|k2: FlowKey|
                k2 != (FlowKey { src_ip, dst_ip }) ==> #[trigger] log_of(final(self).flows@, k2)
                    == log_of(old(self).flows@, k2),
    {
        let k = FlowKey { src_ip, dst_ip };
        let ghost pre = self.flows@;
        let mut j: usize = 0;
        loop
            invariant_except_break
                j <= pre.len(),
                self.flows@ == pre,
                forall|x: int| 0 <= x < j ==> (#[trigger] pre[x]).0 != k,
            ensures
                self.flows@ == pre,
                j <= pre.len(),
                forall|x: int| 0 <= x < j ==> (#[trigger] pre[x]).0 != k,
                j < pre.len() ==> pre[j as int].0 == k,
            decreases pre.len() - j,
        {
            if j == self.flows.len() {
                break;
            }
            if self.flows[j].0 == k {
                break;
            }
            j += 1;
        }
        if j < self.flows.len() {
            proof {
                assert(has_flow(pre, k));
                assert forall|x: int| 0 <= x < pre.len() && (#[trigger] pre[x]).0 == k implies x
                    == j as int by {
                    if x != j as int {
                        assert(pre[x].0 != pre[j as int].0);
                    }
                }
                assert(log_of(pre, k) == pre[j as int].1@);
            }
            let (key, mut log) = self.flows.remove(j);
            log.add_packet(pkt);
            self.flows.push((key, log));
            proof {
                let post = self.flows@;
                let last = post.len() - 1;
                assert(forall|x: int|
                    0 <= x < last ==> post[x] == (if x < j as int {
                        pre[x]
                    } else {
                        pre[x + 1]
                    }));
                assert(post[last].0 == k);
                assert(post[last].1@ == pre[j as int].1@.push(pkt));
                assert forall|x: int| 0 <= x < last implies (#[trigger] post[x]).0 != k by {
                    let x0: int = if x < j as int {
                        x
                    } else {
                        x + 1
                    };
                    assert(post[x].0 == pre[x0].0);
                }
                assert(final(self).wf()) by {
                    assert forall|x1: int, x2: int| 0 <= x1 < x2 < post.len() implies (
                    #[trigger] post[x1]).0 != (#[trigger] post[x2]).0 by {
                        if x2 < last {
                            let m1: int = if x1 < j as int {
                                x1
                            } else {
                                x1 + 1
                            };
                            let m2: int = if x2 < j as int {
                                x2
                            } else {
                                x2 + 1
                            };
                            assert(post[x1].0 == pre[m1].0 && post[x2].0 == pre[m2].0 && m1 < m2);
                        }
                    }
                }
                assert(has_flow(post, k));
                assert(log_of(post, k) == pre[j as int].1@.push(pkt)) by {
                    let y = choose|y: int| 0 <= y < post.len() && (#[trigger] post[y]).0 == k;
                    assert(y == last);
                }
                assert forall|k2: FlowKey| k2 != k implies #[trigger] has_flow(post, k2)
                    == has_flow(pre, k2) by {
                    if has_flow(pre, k2) {
                        let x0 = choose|x0: int|
                            0 <= x0 < pre.len() && (#[trigger] pre[x0]).0 == k2;
                        let x: int = if x0 < j as int {
                            x0
                        } else {
                            x0 - 1
                        };
                        assert(x0 != j as int);
                        assert(post[x].0 == k2);
                    }
                    if has_flow(post, k2) {
                        let y = choose|y: int| 0 <= y < post.len() && (#[trigger] post[y]).0 == k2;
                        let y0: int = if y < j as int {
                            y
                        } else {
                            y + 1
                        };
                        assert(y != last);
                        assert(pre[y0].0 == k2);
                    }
                }
                assert forall|k2: FlowKey| k2 != k implies #[trigger] log_of(post, k2) == log_of(
                    pre,
                    k2,
                ) by {
                    assert(has_flow(post, k2) == has_flow(pre, k2));
                    if has_flow(pre, k2) {
                        let x0 = choose|x0: int|
                            0 <= x0 < pre.len() && (#[trigger] pre[x0]).0 == k2;
                        let y = choose|y: int| 0 <= y < post.len() && (#[trigger] post[y]).0 == k2;
                        assert(0 <= y < post.len());
                        assert(y != last);
                        let y0: int = if y < j as int {
                            y
                        } else {
                            y + 1
                        };
                        assert(0 <= y0 < pre.len());
                        assert(post[y] == pre[y0]);
                        assert(pre[y0].0 == k2);
                        assert(y0 == x0);
                        assert(log_of(post, k2) == post[y].1@);
                        assert(log_of(pre, k2) == pre[x0].1@);
                    }
                }
            }
        } else {
            let mut log = FlowLogs::new();
            log.add_packet(pkt);
            self.flows.push((k, log));
            proof {
                let post = self.flows@;
                let last = post.len() - 1;
                assert(forall|x: int| 0 <= x < last ==> post[x] == pre[x]);
                assert(post[last].0 == k && post[last].1@ == Seq::<PacketSnapshot>::empty().push(
                    pkt,
                ));
                assert(!has_flow(pre, k));
                assert(has_flow(post, k));
                assert(log_of(post, k) == Seq::<PacketSnapshot>::empty().push(pkt)) by {
                    let y = choose|y: int| 0 <= y < post.len() && (#[trigger] post[y]).0 == k;
                    assert(y == last);
                }
                assert forall|k2: FlowKey| k2 != k implies #[trigger] has_flow(post, k2)
                    == has_flow(pre, k2) && #[trigger] log_of(post, k2) == log_of(pre, k2) by {
                    if has_flow(pre, k2) {
                        let x0 = choose|x0: int|
                            0 <= x0 < pre.len() && (#[trigger] pre[x0]).0 == k2;
                        assert(post[x0].0 == k2);
                        let y = choose|y: int| 0 <= y < post.len() && (#[trigger] post[y]).0 == k2;
                        assert(y != last);
                        assert(pre[y].0 == k2);
                        assert(y == x0);
                    } else {
                        if has_flow(post, k2) {
                            let y = choose|y: int|
                                0 <= y < post.len() && (#[trigger] post[y]).0 == k2;
                            assert(y != last);
                            assert(pre[y].0 == k2);
                        }
                    }
                }
            }
        }
    }
}

/// Partitions an ascending sequence of observations into flowlets and
/// aggregates hit counts per canonical switch path: a run ends where the
/// gap to the next observation exceeds `timeout`, and runs with the same
/// switch set share one entry.
#[verifier::rlimit(100)]
pub fn aggregate_flowlets_sorted(drained: &Vec<PacketSnapshot>, timeout: u64) -> (r: Vec<
    (FlowletPath, usize),
>)
    requires
        ts_sorted(drained@),
    ensures
        is_flowlet_aggregation(drained@, timeout, r@),
        sum_hits(r@) == drained@.len(),
{
    let ghost d = drained@;
    let n = drained.len();
    let mut entries: Vec<(FlowletPath, usize)> = Vec::new();
    if n == 0 {
        return entries;
    }
    let mut last_time: u64 = drained[0].timestamp;
    let mut in_flow: FlowletPath = Vec::new();
    proof {
        assert(label_set(Seq::<MininetSwitch>::empty()) =~= Set::<Seq<char>>::empty());
    }
    insert_label(&mut in_flow, &drained[0].sw_name);
    let mut hit_count: usize = 1;
    let mut i: usize = 1;
    proof {
        assert(model::run_id(d, timeout, 0) == 0);
        model::lemma_run_fresh(d, timeout, 0, 0);
        model::lemma_extend_run(d, timeout, 0);
    }
    while i < n
        invariant
            1 <= i <= n,
            n == d.len(),
            d == drained@,
            ts_sorted(d),
            last_time == d[i - 1].timestamp,
            canonical_path(in_flow@),
            label_set(in_flow@) == model::run_label_set_upto(
                d,
                timeout,
                model::run_id(d, timeout, i as int - 1),
                i as int,
            ),
            hit_count as int == model::run_hits_upto(
                d,
                timeout,
                model::run_id(d, timeout, i as int - 1),
                i as int,
            ),
            entries_canonical(entries@),
            entries_distinct(entries@),
            forall|rr: int|
                0 <= rr < model::run_id(d, timeout, i as int - 1) ==> model::has_key(
                    entries@,
                    #[trigger] model::run_label_set(d, timeout, rr),
                ),
            forall|k: int|
                0 <= k < entries@.len() ==> exists|rr: int|
                    0 <= rr < model::run_id(d, timeout, i as int - 1) && model::run_label_set(
                        d,
                        timeout,
                        rr,
                    ) == label_set(#[trigger] entries@[k].0@),
            forall|k: int|
                0 <= k < entries@.len() ==> #[trigger] entries@[k].1 as int == model::key_hits(
                    d,
                    timeout,
                    label_set(entries@[k].0@),
                    model::run_id(d, timeout, i as int - 1),
                ),
            sum_hits(entries@) + hit_count == i as int,
        decreases n - i,
    {
        let ghost rprev = model::run_id(d, timeout, i as int - 1);
        let cur_ts = drained[i].timestamp;
        proof {
            assert(last_time <= cur_ts);
            model::lemma_sum_hits_nonneg(entries@);
            model::lemma_run_id_nonneg(d, timeout, i as int - 1);
        }
        if cur_ts - last_time > timeout {
            proof {
                assert(gap_splits(d[i as int - 1], d[i as int], timeout));
                assert(model::run_id(d, timeout, i as int) == rprev + 1);
                model::lemma_run_complete(d, timeout, rprev, i as int);
                assert(label_set(in_flow@) == model::run_label_set(d, timeout, rprev));
                assert(hit_count as int == model::run_hits(d, timeout, rprev));
                model::lemma_bump_pre(d, timeout, entries@, rprev);
            }
            let ghost pre_entries = entries@;
            let done = FlowLogs::finish_flowlet(&mut in_flow);
            bump_entry(
                &mut entries,
                done,
                hit_count,
                Ghost(model::key_hits(d, timeout, model::run_label_set(d, timeout, rprev), rprev)),
            );
            hit_count = 0;
            proof {
                model::lemma_bump_post(d, timeout, pre_entries, entries@, rprev);
                assert forall|j: int| 0 <= j < i as int implies model::run_id(d, timeout, j)
                    != rprev + 1 by {
                    model::lemma_run_id_monotone(d, timeout, j, i as int - 1);
                }
                model::lemma_run_fresh(d, timeout, rprev + 1, i as int);
                assert(label_set(in_flow@) =~= Set::<Seq<char>>::empty());
            }
        }
        let ghost rcur = model::run_id(d, timeout, i as int);
        let ghost mid_set = label_set(in_flow@);
        let ghost mid_hits = hit_count as int;
        proof {
            assert(mid_set == model::run_label_set_upto(d, timeout, rcur, i as int));
            assert(mid_hits == model::run_hits_upto(d, timeout, rcur, i as int));
            assert(mid_hits + 1 <= i as int + 1);
        }
        last_time = cur_ts;
        hit_count = hit_count + 1;
        insert_label(&mut in_flow, &drained[i].sw_name);
        proof {
            assert(label_set(in_flow@) == mid_set.insert(d[i as int].sw_name@));
            model::lemma_extend_run(d, timeout, i as int);
        }
        i += 1;
    }
    proof {
        let rlast = model::run_id(d, timeout, n as int - 1);
        model::lemma_run_id_nonneg(d, timeout, n as int - 1);
        model::lemma_run_complete(d, timeout, rlast, n as int);
        assert(label_set(in_flow@) == model::run_label_set(d, timeout, rlast));
        assert(hit_count as int == model::run_hits(d, timeout, rlast));
        model::lemma_bump_pre(d, timeout, entries@, rlast);
        model::lemma_sum_hits_nonneg(entries@);
    }
    let ghost rlast = model::run_id(d, timeout, n as int - 1);
    let ghost pre_entries = entries@;
    let done = FlowLogs::finish_flowlet(&mut in_flow);
    bump_entry(
        &mut entries,
        done,
        hit_count,
        Ghost(model::key_hits(d, timeout, model::run_label_set(d, timeout, rlast), rlast)),
    );
    proof {
        model::lemma_bump_post(d, timeout, pre_entries, entries@, rlast);
        assert(model::num_runs(d, timeout) == rlast + 1);
    }
    entries
}

} // verus!
