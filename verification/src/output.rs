//! The rows the two analysis modes produce: flowlet path rows and
//! five-tuple frequency rows.

use vstd::prelude::*;

use crate::flows::FlowKey;
use crate::flows::FlowLogs;
use crate::flows::FlowletPath;
use crate::flows::PacketSnapshot;
use crate::flows::PcapAnalyzer;
use crate::model::path_view;

verus! {

/// The labels of a canonical switch path joined with single spaces.
pub open spec fn joined_labels(paths: Seq<Seq<char>>) -> Seq<char>
    decreases paths.len(),
{
    if paths.len() == 0 {
        Seq::empty()
    } else if paths.len() == 1 {
        paths[0]
    } else {
        joined_labels(paths.drop_last()) + seq![' '] + paths.last()
    }
}

/// One output row of flowlet mode: the flow's addresses, a flowlet hit
/// count, and the space-joined sorted switch labels of its path.
#[derive(Debug)]
pub struct CsvFlowletPath {
    pub source_ip: u32,
    pub dest_ip: u32,
    pub hits: usize,
    pub switches: String,
}

impl CsvFlowletPath {
    pub fn new(source_ip: u32, dest_ip: u32, hits: usize, path: &FlowletPath) -> (r: Self)
        ensures
            r.source_ip == source_ip,
            r.dest_ip == dest_ip,
            r.hits == hits,
            r.switches@ == joined_labels(path_view(path@)),
    {
        let mut switches = String::new();
        let mut i: usize = 0;
        proof {
            assert(path_view(path@).take(0) =~= Seq::<Seq<char>>::empty());
        }
        while i < path.len()
            invariant
                i <= path@.len(),
                switches@ == joined_labels(path_view(path@).take(i as int)),
            decreases path@.len() - i,
        {
            if i > 0 {
                switches.append(" ");
            }
            switches.append(path[i].get());
            proof {
                reveal_strlit(" ");
                assert(" "@ =~= seq![' ']);
                assert(path_view(path@).take(i as int + 1).drop_last() =~= path_view(path@).take(
                    i as int,
                ));
                assert(path_view(path@).take(i as int + 1).last() == path@[i as int]@);
            }
            i += 1;
        }
        proof {
            assert(path_view(path@).take(path@.len() as int) =~= path_view(path@));
        }
        CsvFlowletPath { source_ip, dest_ip, hits, switches }
    }
}

/// One output row of five-tuple mode: the classifier fields and how often
/// that classifier was observed.
#[derive(Debug)]
pub struct CsvFiveTuple {
    pub source_ip: u32,
    pub dest_ip: u32,
    pub protocol: String,
    pub src_port: u16,
    pub dst_port: u16,
    pub freq: Option<usize>,
}

/// The observation agrees with the given transport classifier fields.
pub open spec fn pkt_matches(p: PacketSnapshot, proto: Seq<char>, sp: u16, dp: u16) -> bool {
    p.ip_protocol@ == proto && p.tcp_src_port == sp && p.tcp_dst_port == dp
}

/// How many observations of the sequence agree with the classifier.
pub open spec fn count_pkts(pkts: Seq<PacketSnapshot>, proto: Seq<char>, sp: u16, dp: u16) -> int
    decreases pkts.len(),
{
    if pkts.len() == 0 {
        0
    } else {
        count_pkts(pkts.drop_last(), proto, sp, dp) + if pkt_matches(pkts.last(), proto, sp, dp) {
            1int
        } else {
            0int
        }
    }
}

/// The row names exactly the five-tuple of this observation of flow `k`.
pub open spec fn row_matches_obs(row: CsvFiveTuple, k: FlowKey, p: PacketSnapshot) -> bool {
    &&& row.source_ip == k.src_ip
    &&& row.dest_ip == k.dst_ip
    &&& row.protocol@ == p.ip_protocol@
    &&& row.src_port == p.tcp_src_port
    &&& row.dst_port == p.tcp_dst_port
}

/// Both rows name the same five-tuple.
pub open spec fn same_five(a: CsvFiveTuple, b: CsvFiveTuple) -> bool {
    &&& a.source_ip == b.source_ip
    &&& a.dest_ip == b.dest_ip
    &&& a.protocol@ == b.protocol@
    &&& a.src_port == b.src_port
    &&& a.dst_port == b.dst_port
}

/// Every row counts, within the flow its addresses name, exactly the
/// observations carrying its classifier.
pub open spec fn rows_correct(
    flows: Seq<(FlowKey, FlowLogs)>,
    rows: Seq<CsvFiveTuple>,
) -> bool {
    forall|r: int|
        0 <= r < rows.len() ==> exists|fi: int|
            0 <= fi < flows.len() && (#[trigger] rows[r]).source_ip == flows[fi].0.src_ip
                && rows[r].dest_ip == flows[fi].0.dst_ip && rows[r].freq is Some
                && rows[r].freq->Some_0 as int == count_pkts(
                flows[fi].1@,
                rows[r].protocol@,
                rows[r].src_port,
                rows[r].dst_port,
            )
}

/// No two rows name the same five-tuple.
pub open spec fn rows_distinct(rows: Seq<CsvFiveTuple>) -> bool {
    forall|r1: int, r2: int|
        0 <= r1 < r2 < rows.len() ==> !same_five(#[trigger] rows[r1], #[trigger] rows[r2])
}

/// Some row names the five-tuple of observation `b` of flow `a`.
pub open spec fn covered(
    flows: Seq<(FlowKey, FlowLogs)>,
    rows: Seq<CsvFiveTuple>,
    a: int,
    b: int,
) -> bool {
    exists|r: int|
        0 <= r < rows.len() && row_matches_obs(#[trigger] rows[r], flows[a].0, flows[a].1@[b])
}

/// Every observation of every flow has a row naming its five-tuple.
pub open spec fn rows_cover(flows: Seq<(FlowKey, FlowLogs)>, rows: Seq<CsvFiveTuple>) -> bool {
    forall|a: int, b: int|
        0 <= a < flows.len() && 0 <= b < flows[a].1@.len() ==> #[trigger] covered(
            flows,
            rows,
            a,
            b,
        )
}

/// A row that names an observation keeps naming it when rows are added.
proof fn lemma_covered_grow(
    flows: Seq<(FlowKey, FlowLogs)>,
    r1: Seq<CsvFiveTuple>,
    r2: Seq<CsvFiveTuple>,
    a: int,
    b: int,
)
    requires
        covered(flows, r1, a, b),
        r1.len() <= r2.len(),
        forall|x: int| 0 <= x < r1.len() ==> r2[x] == r1[x],
    ensures
        covered(flows, r2, a, b),
{
    let r = choose|r: int|
        0 <= r < r1.len() && row_matches_obs(#[trigger] r1[r], flows[a].0, flows[a].1@[b]);
    assert(row_matches_obs(r2[r], flows[a].0, flows[a].1@[b]));
}

/// Counts the observations of one log that carry the same transport
/// classifier as `p`.
fn count_matching(pkts: &Vec<PacketSnapshot>, p: &PacketSnapshot) -> (c: usize)
    ensures
        c as int == count_pkts(pkts@, p.ip_protocol@, p.tcp_src_port, p.tcp_dst_port),
{
    let mut c: usize = 0;
    let mut i: usize = 0;
    proof {
        assert(pkts@.take(0) =~= Seq::<PacketSnapshot>::empty());
    }
    while i < pkts.len()
        invariant
            i <= pkts@.len(),
            c <= i,
            c as int == count_pkts(pkts@.take(i as int), p.ip_protocol@, p.tcp_src_port, p.tcp_dst_port),
        decreases pkts@.len() - i,
    {
        proof {
            assert(pkts@.take(i as int + 1).drop_last() =~= pkts@.take(i as int));
            assert(pkts@.take(i as int + 1).last() == pkts@[i as int]);
        }
        if pkts[i].ip_protocol == p.ip_protocol && pkts[i].tcp_src_port == p.tcp_src_port
            && pkts[i].tcp_dst_port == p.tcp_dst_port {
            c = c + 1;
        }
        i += 1;
    }
    proof {
        assert(pkts@.take(pkts@.len() as int) =~= pkts@);
    }
    c
}

/// Whether a row naming this observation's five-tuple is already present.
fn row_present(rows: &Vec<CsvFiveTuple>, k: FlowKey, p: &PacketSnapshot) -> (b: bool)
    ensures
        b == exists|r: int| 0 <= r < rows@.len() && row_matches_obs(#[trigger] rows@[r], k, *p),
{
    let mut r: usize = 0;
    while r < rows.len()
        invariant
            r <= rows@.len(),
            forall|x: int| 0 <= x < r ==> !row_matches_obs(#[trigger] rows@[x], k, *p),
        decreases rows@.len() - r,
    {
        if rows[r].source_ip == k.src_ip && rows[r].dest_ip == k.dst_ip
            && rows[r].protocol == p.ip_protocol && rows[r].src_port == p.tcp_src_port
            && rows[r].dst_port == p.tcp_dst_port {
            return true;
        }
        r += 1;
    }
    false
}

/// Counts, across all flows, how often each distinct five-tuple was
/// observed: one row per five-tuple, in no particular order. Uses the
/// non-destructive enumeration, so the logs stay intact.
pub fn five_tuple_rows(analyzer: &PcapAnalyzer) -> (rows: Vec<CsvFiveTuple>)
    ensures
        rows_correct(analyzer.flows@, rows@),
        rows_distinct(rows@),
        rows_cover(analyzer.flows@, rows@),
{
    let ghost flows = analyzer.flows@;
    let mut rows: Vec<CsvFiveTuple> = Vec::new();
    let mut fi: usize = 0;
    while fi < analyzer.flows.len()
        invariant
            fi <= flows.len(),
            flows == analyzer.flows@,
            rows_correct(flows, rows@),
            rows_distinct(rows@),
            forall|a: int, b: int|
                0 <= a < fi && 0 <= b < flows[a].1@.len() ==> #[trigger] covered(
                    flows,
                    rows@,
                    a,
                    b,
                ),
        decreases flows.len() - fi,
    {
        let key = analyzer.flows[fi].0;
        let log = analyzer.flows[fi].1.inspect_packets();
        let mut pj: usize = 0;
        while pj < log.len()
            invariant
                fi < flows.len(),
                pj <= log@.len(),
                flows == analyzer.flows@,
                log@ == flows[fi as int].1@,
                key == flows[fi as int].0,
                rows_correct(flows, rows@),
                rows_distinct(rows@),
                forall|a: int, b: int|
                    0 <= a < fi && 0 <= b < flows[a].1@.len() ==> #[trigger] covered(
                        flows,
                        rows@,
                        a,
                        b,
                    ),
                forall|b: int| 0 <= b < pj ==> #[trigger] covered(flows, rows@, fi as int, b),
            decreases log@.len() - pj,
        {
            let ghost rows_top = rows@;
            let p = &log[pj];
            if !row_present(&rows, key, p) {
                let c = count_matching(log, p);
                let row = CsvFiveTuple {
                    source_ip: key.src_ip,
                    dest_ip: key.dst_ip,
                    protocol: p.ip_protocol.clone(),
                    src_port: p.tcp_src_port,
                    dst_port: p.tcp_dst_port,
                    freq: Some(c),
                };
                proof {
                    assert(row_matches_obs(row, key, log@[pj as int]));
                }
                rows.push(row);
                proof {
                    assert(forall|x: int| 0 <= x < rows_top.len() ==> rows@[x] == rows_top[x]);
                    assert(rows@[rows@.len() - 1] == row);
                }
            }
            proof {
                assert forall|a: int, b: int|
                    0 <= a < fi && 0 <= b < flows[a].1@.len() implies #[trigger] covered(
                    flows,
                    rows@,
                    a,
                    b,
                ) by {
                    lemma_covered_grow(flows, rows_top, rows@, a, b);
                }
                assert forall|b: int| 0 <= b < pj + 1 implies #[trigger] covered(
                    flows,
                    rows@,
                    fi as int,
                    b,
                ) by {
                    if b < pj {
                        lemma_covered_grow(flows, rows_top, rows@, fi as int, b);
                    } else {
                        assert(exists|r: int|
                            0 <= r < rows@.len() && row_matches_obs(
                                #[trigger] rows@[r],
                                flows[fi as int].0,
                                flows[fi as int].1@[b],
                            ));
                    }
                }
            }
            pj += 1;
        }
        fi += 1;
    }
    rows
}

} // verus!
