//! The windowed graph builder.
//!
//! A parsed transaction stream is partitioned into three disjoint time
//! windows (before, during and after a market event) by four boundary
//! timestamps; each record lands in the graph of its window as a directed
//! edge from its source to its destination address, last write winning for
//! a repeated ordered pair. A record outside every window is dropped.

use vstd::prelude::*;

use crate::graph::{Graph, NodeModel, spec_insert_edge};
use crate::transaction_type::{Transaction, TransactionModel};

verus! {

/// One parsed transaction record, as the loader hands it over.
pub struct TransferRecord {
    /// Source address: the node the edge leaves.
    pub from_address: String,
    /// Destination address: the node the edge enters.
    pub to_address: String,
    /// Time of the transaction, in unix epoch seconds.
    pub timestamp: u64,
    /// Currency (or contract) of the transferred amount.
    pub contract_address: String,
    /// Transferred amount: the edge weight.
    pub value: u64,
}

/// The mathematical image of a [`TransferRecord`].
#[verifier::ext_equal]
pub struct TransferRecordModel {
    pub from_address: Seq<char>,
    pub to_address: Seq<char>,
    pub timestamp: u64,
    pub contract_address: Seq<char>,
    pub value: u64,
}

impl View for TransferRecord {
    type V = TransferRecordModel;

    open spec fn view(&self) -> TransferRecordModel {
        TransferRecordModel {
            from_address: self.from_address@,
            to_address: self.to_address@,
            timestamp: self.timestamp,
            contract_address: self.contract_address@,
            value: self.value,
        }
    }
}

/// The four boundary timestamps delimiting the three windows
/// `[start_time, during_crash_time)`, `[during_crash_time,
/// after_crash_time)` and `[after_crash_time, end_time)`.
#[derive(Clone, Copy)]
pub struct WindowBounds {
    pub start_time: u64,
    pub during_crash_time: u64,
    pub after_crash_time: u64,
    pub end_time: u64,
}

/// The three window graphs while building.
#[verifier::ext_equal]
pub struct BuildState {
    pub before: Seq<NodeModel>,
    pub during: Seq<NodeModel>,
    pub after: Seq<NodeModel>,
}

/// The empty build state: three empty graphs.
pub open spec fn build_init() -> BuildState {
    BuildState { before: Seq::empty(), during: Seq::empty(), after: Seq::empty() }
}

/// A record lands in the graph of its window if and only if its timestamp
/// lies in one; otherwise the state is unchanged.
pub open spec fn build_step(st: BuildState, r: TransferRecordModel, b: WindowBounds) -> BuildState {
    let tx = TransactionModel {
        value: r.value,
        unit: r.contract_address,
        timestamp: r.timestamp,
    };
    if r.timestamp >= b.start_time && r.timestamp < b.during_crash_time {
        BuildState {
            before: spec_insert_edge(st.before, r.from_address, r.to_address, tx),
            ..st
        }
    } else if r.timestamp >= b.during_crash_time && r.timestamp < b.after_crash_time {
        BuildState {
            during: spec_insert_edge(st.during, r.from_address, r.to_address, tx),
            ..st
        }
    } else if r.timestamp >= b.after_crash_time && r.timestamp < b.end_time {
        BuildState {
            after: spec_insert_edge(st.after, r.from_address, r.to_address, tx),
            ..st
        }
    } else {
        st
    }
}

/// The state after the first `i` records.
pub open spec fn build_prefix(rs: Seq<TransferRecordModel>, i: int, b: WindowBounds) -> BuildState
    decreases i,
{
    if i <= 0 {
        build_init()
    } else {
        build_step(build_prefix(rs, i - 1, b), rs[i - 1], b)
    }
}

/// Is `b` the code of a decimal digit?
pub open spec fn is_digit(b: u8) -> bool {
    0x30 <= b <= 0x39
}

/// Is `s` made of decimal digits only?
pub open spec fn all_digits(s: Seq<u8>) -> bool {
    forall|i: int| 0 <= i < s.len() ==> is_digit(#[trigger] s[i])
}

/// The number the digit string `s` denotes, most significant digit first.
pub open spec fn decimal_value(s: Seq<u8>) -> int
    decreases s.len(),
{
    if s.len() == 0 {
        0
    } else {
        decimal_value(s.drop_last()) * 10 + (s.last() - 0x30)
    }
}

proof fn lemma_decimal_nonneg(s: Seq<u8>)
    requires
        all_digits(s),
    ensures
        decimal_value(s) >= 0,
    decreases s.len(),
{
    if s.len() > 0 {
        let p = s.drop_last();
        assert forall|i: int| 0 <= i < p.len() implies is_digit(#[trigger] p[i]) by {
            assert(p[i] == s[i]);
        }
        lemma_decimal_nonneg(p);
    }
}

proof fn lemma_decimal_mono(s: Seq<u8>, i: int, j: int)
    requires
        all_digits(s),
        0 <= i <= j <= s.len(),
    ensures
        decimal_value(s.take(i)) <= decimal_value(s.take(j)),
    decreases j - i,
{
    if i < j {
        lemma_decimal_mono(s, i, j - 1);
        assert(s.take(j).drop_last() =~= s.take(j - 1));
        assert(s.take(j).last() == s[j - 1]);
        let p = s.take(j - 1);
        assert forall|k: int| 0 <= k < p.len() implies is_digit(#[trigger] p[k]) by {
            assert(p[k] == s[k]);
        }
        lemma_decimal_nonneg(p);
    }
}

/// Parses an unsigned decimal integer, exactly: `Some` if and only if the
/// input is a non-empty digit string whose value fits in a `u64`, and then
/// the value itself.
pub fn parse_u64(s: &[u8]) -> (r: Option<u64>)
    ensures
        r is Some <==> (s@.len() >= 1 && all_digits(s@) && decimal_value(s@) <= u64::MAX),
        r matches Some(v) ==> v == decimal_value(s@),
{
    let n = s.len();
    if n == 0 {
        return None;
    }
    let mut acc: u64 = 0;
    let mut i: usize = 0;
    proof {
        assert(s@.take(0) =~= Seq::<u8>::empty());
    }
    while i < n
        invariant
            n == s@.len(),
            i <= n,
            all_digits(s@.take(i as int)),
            acc == decimal_value(s@.take(i as int)),
        decreases n - i,
    {
        let b = s[i];
        if b < 0x30 || b > 0x39 {
            proof {
                assert(!is_digit(s@[i as int]));
            }
            return None;
        }
        let d = b - 0x30;
        proof {
            assert(s@.take(i + 1).drop_last() =~= s@.take(i as int));
            assert(s@.take(i + 1).last() == s@[i as int]);
            assert forall|k: int| 0 <= k < i + 1 implies is_digit(#[trigger] s@.take(i + 1)[k]) by {
                if k < i {
                    assert(s@.take(i + 1)[k] == s@.take(i as int)[k]);
                }
            }
        }
        if acc > 1_844_674_407_370_955_161 || (acc == 1_844_674_407_370_955_161 && d > 5) {
            proof {
                assert(decimal_value(s@.take(i + 1)) > u64::MAX);
                if all_digits(s@) {
                    lemma_decimal_mono(s@, i + 1, n as int);
                    assert(s@.take(n as int) =~= s@);
                }
            }
            return None;
        }
        acc = acc * 10 + (d as u64);
        i += 1;
    }
    proof {
        assert(s@.take(n as int) =~= s@);
    }
    Some(acc)
}

/// Builds the three window graphs from a parsed transaction stream.
///
/// Records are taken in order; each lands in the window covering its
/// timestamp, if any, as a directed edge carrying its transaction, last
/// write winning per ordered source-destination pair; a record outside
/// every window is dropped.
pub fn build_window_graphs(records: &Vec<TransferRecord>, bounds: WindowBounds) -> (r: (
    Graph,
    Graph,
    Graph,
))
    ensures
        r.0.wf(),
        r.1.wf(),
        r.2.wf(),
        ({
            let st = build_prefix(
                records@.map_values(|x: TransferRecord| x@),
                records@.len() as int,
                bounds,
            );
            r.0@ == st.before && r.1@ == st.during && r.2@ == st.after
        }),
{
    let ghost rs = records@.map_values(|x: TransferRecord| x@);
    let mut graph_before = Graph::new();
    let mut graph_during = Graph::new();
    let mut graph_after = Graph::new();
    let n = records.len();
    let mut i: usize = 0;
    proof {
        assert(build_prefix(rs, 0, bounds) == build_init());
    }
    while i < n
        invariant
            n == records@.len(),
            rs == records@.map_values(|x: TransferRecord| x@),
            i <= n,
            graph_before.wf(),
            graph_during.wf(),
            graph_after.wf(),
            ({
                let st = build_prefix(rs, i as int, bounds);
                &&& graph_before@ == st.before
                &&& graph_during@ == st.during
                &&& graph_after@ == st.after
            }),
        decreases n - i,
    {
        let rec = &records[i];
        proof {
            assert(rs[i as int] == rec@);
        }
        let ts = rec.timestamp;
        if ts >= bounds.start_time && ts < bounds.during_crash_time {
            let tx = Transaction::new(rec.value, rec.contract_address.clone(), rec.timestamp);
            graph_before.insert_edge(&rec.from_address, &rec.to_address, tx);
        } else if ts >= bounds.during_crash_time && ts < bounds.after_crash_time {
            let tx = Transaction::new(rec.value, rec.contract_address.clone(), rec.timestamp);
            graph_during.insert_edge(&rec.from_address, &rec.to_address, tx);
        } else if ts >= bounds.after_crash_time && ts < bounds.end_time {
            let tx = Transaction::new(rec.value, rec.contract_address.clone(), rec.timestamp);
            graph_after.insert_edge(&rec.from_address, &rec.to_address, tx);
        }
        proof {
            assert(build_prefix(rs, i + 1, bounds) == build_step(
                build_prefix(rs, i as int, bounds),
                rs[i as int],
                bounds,
            ));
        }
        i += 1;
    }
    (graph_before, graph_during, graph_after)
}

} // verus!
