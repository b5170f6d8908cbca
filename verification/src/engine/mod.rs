//! Load engines: descriptions, rate distribution and worker pools.

use vstd::prelude::*;
use vstd::string::*;

use crate::snapshot::{EngineDescriptor, StatGroup};

pub mod cfg;
pub mod coro;
pub mod http1;
pub mod http3;
pub mod rate;
pub mod runtime;
pub mod tls;
pub mod udp;

verus! {

/// The kinds of engines.
#[derive(Debug, Clone, Copy, PartialEq, Eq, Structural)]
pub enum EngineKind {
    Http,
    HttpRaw,
    Udp,
    Dpdk,
}

/// The name of an engine.
pub open spec fn kind_name(kind: EngineKind) -> Seq<char> {
    match kind {
        EngineKind::Http => "http"@,
        EngineKind::HttpRaw => "http/raw"@,
        EngineKind::Udp => "udp"@,
        EngineKind::Dpdk => "dpdk"@,
    }
}

/// The statistic groups of an engine in display order.
pub open spec fn kind_groups(kind: EngineKind) -> Seq<StatGroup> {
    match kind {
        EngineKind::Udp => seq![StatGroup::Common, StatGroup::Tx, StatGroup::Socket],
        EngineKind::Dpdk => seq![StatGroup::Common, StatGroup::Tx, StatGroup::BurstTx],
        _ => seq![
            StatGroup::Common,
            StatGroup::Tx,
            StatGroup::Rx,
            StatGroup::Http,
            StatGroup::Socket,
            StatGroup::RxTimings,
        ],
    }
}

/// Describes which statistic groups an engine exposes.
pub fn describe(kind: EngineKind) -> (r: EngineDescriptor)
    ensures
        r.engine_kind@ == kind_name(kind),
        r.groups@ == kind_groups(kind),
{
    let mut groups: Vec<StatGroup> = Vec::new();
    groups.push(StatGroup::Common);
    groups.push(StatGroup::Tx);
    let engine_kind: &'static str = match kind {
        EngineKind::Udp => {
            groups.push(StatGroup::Socket);
            "udp"
        },
        EngineKind::Dpdk => {
            groups.push(StatGroup::BurstTx);
            "dpdk"
        },
        _ => {
            groups.push(StatGroup::Rx);
            groups.push(StatGroup::Http);
            groups.push(StatGroup::Socket);
            groups.push(StatGroup::RxTimings);
            match kind {
                EngineKind::Http => "http",
                _ => "http/raw",
            }
        },
    };
    assert(groups@ =~= kind_groups(kind));
    EngineDescriptor { engine_kind, groups }
}

/// Every engine shows the common and the transmission statistics, in this order and first. Responses, their latencies
/// and status classes are shown by the HTTP engines alone, sockets by all engines but DPDK, and bursts by DPDK
/// alone. No group is shown twice, and no two kinds share a name.
pub proof fn lemma_groups_of_engines(kind: EngineKind, other: EngineKind)
    ensures
        kind_groups(kind).len() >= 2 && kind_groups(kind)[0] == StatGroup::Common && kind_groups(kind)[1]
            == StatGroup::Tx,
        kind_groups(kind).contains(StatGroup::Rx) <==> kind == EngineKind::Http || kind == EngineKind::HttpRaw,
        kind_groups(kind).contains(StatGroup::Http) <==> kind == EngineKind::Http || kind == EngineKind::HttpRaw,
        kind_groups(kind).contains(StatGroup::RxTimings) <==> kind == EngineKind::Http || kind == EngineKind::HttpRaw,
        kind_groups(kind).contains(StatGroup::Socket) <==> kind != EngineKind::Dpdk,
        kind_groups(kind).contains(StatGroup::BurstTx) <==> kind == EngineKind::Dpdk,
        kind_groups(kind).no_duplicates(),
        kind_name(kind) == kind_name(other) ==> kind == other,
{
    reveal_strlit("http");
    reveal_strlit("http/raw");
    reveal_strlit("udp");
    reveal_strlit("dpdk");
    let s = kind_groups(kind);
    match kind {
        EngineKind::Udp => {
            assert(s[2] == StatGroup::Socket);
        },
        EngineKind::Dpdk => {
            assert(s[2] == StatGroup::BurstTx);
        },
        _ => {
            assert(s[2] == StatGroup::Rx && s[3] == StatGroup::Http && s[4] == StatGroup::Socket && s[5]
                == StatGroup::RxTimings);
        },
    }
    assert(kind_name(EngineKind::Http).len() == 4 && kind_name(EngineKind::HttpRaw).len() == 8);
    assert(kind_name(EngineKind::Udp).len() == 3 && kind_name(EngineKind::Dpdk).len() == 4);
    assert(kind_name(EngineKind::Http)[0] == 'h' && kind_name(EngineKind::Dpdk)[0] == 'd');
}

} // verus!
