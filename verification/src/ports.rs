//! The port-scan engine's decision logic and the orchestrator's aggregation.
//!
//! The surrounding application performs the actual TCP connect attempts; this
//! module classifies their outcomes, keeps exactly the ports whose connect
//! completed within the timeout, and attaches them to the scanned host. A host
//! whose name yields no usable network address is returned unchanged with no
//! open ports: that is a normal outcome, not an error.

use vstd::prelude::*;
use crate::model::{Port, Subdomain};

verus! {

/// The outcome of probing one host: whether a concrete network address could
/// be derived for it at all, and, if so, how each catalog port's connect
/// attempt ended (true exactly when the TCP handshake completed in time).
pub struct HostProbe {
    /// False when address resolution yielded no usable address; the host is
    /// then reported with no open ports and nothing is probed.
    pub address_available: bool,
    /// One entry per catalog port, in catalog order.
    pub connect_ok: Vec<bool>,
}

/// No port number occurs twice.
pub open spec fn no_dup_ports(catalog: Seq<u16>) -> bool {
    forall|i: int, j: int| 0 <= i < j < catalog.len() ==> catalog[i] != catalog[j]
}

/// The open-port records a catalog and its connect results give rise to: one
/// `Port` per successful connect, in catalog order, nothing for failures.
pub open spec fn open_ports_of(catalog: Seq<u16>, results: Seq<bool>) -> Seq<Port>
    decreases catalog.len(),
{
    if catalog.len() == 0 || results.len() == 0 {
        Seq::empty()
    } else {
        let rest = open_ports_of(catalog.drop_last(), results.drop_last());
        if results.last() {
            rest.push(Port { port: catalog.last(), is_open: true })
        } else {
            rest
        }
    }
}

/// Classify one connect attempt: open exactly when the handshake succeeded;
/// timeout, refusal and unreachability all classify the port as closed.
pub fn classify_port(port: u16, connect_ok: bool) -> (r: Port)
    ensures
        r.port == port,
        r.is_open == connect_ok,
{
    Port { port, is_open: connect_ok }
}

/// Keep exactly the catalog ports whose connect attempt succeeded; closed
/// ports are not retained.
pub fn collect_open_ports(catalog: &Vec<u16>, results: &Vec<bool>) -> (r: Vec<Port>)
    requires
        catalog@.len() == results@.len(),
    ensures
        r@ == open_ports_of(catalog@, results@),
{
    let mut r: Vec<Port> = Vec::new();
    let mut i: usize = 0;
    while i < catalog.len()
        invariant
            catalog@.len() == results@.len(),
            0 <= i <= catalog@.len(),
            r@ =~= open_ports_of(
                catalog@.subrange(0, i as int),
                results@.subrange(0, i as int),
            ),
        decreases catalog@.len() - i,
    {
        let ghost cpre = catalog@.subrange(0, i as int);
        let ghost rpre = results@.subrange(0, i as int);
        let ghost cpost = catalog@.subrange(0, (i + 1) as int);
        let ghost rpost = results@.subrange(0, (i + 1) as int);
        proof {
            assert(cpost.drop_last() =~= cpre);
            assert(rpost.drop_last() =~= rpre);
        }
        let p = classify_port(catalog[i], results[i]);
        if p.is_open {
            r.push(p);
        }
        proof {
            assert(r@ =~= open_ports_of(cpost, rpost));
        }
        i = i + 1;
    }
    proof {
        assert(catalog@.subrange(0, catalog@.len() as int) =~= catalog@);
        assert(results@.subrange(0, results@.len() as int) =~= results@);
    }
    r
}

/// Attach one host's probe outcome: with no usable address the host keeps an
/// empty port list; otherwise exactly the ports that answered are recorded.
pub fn scan_host(host: Subdomain, catalog: &Vec<u16>, probe: &HostProbe) -> (r: Subdomain)
    requires
        probe.address_available ==> probe.connect_ok@.len() == catalog@.len(),
    ensures
        r.domain@ == host.domain@,
        r.has_address == host.has_address,
        probe.address_available ==> r.open_ports@ == open_ports_of(
            catalog@,
            probe.connect_ok@,
        ),
        !probe.address_available ==> r.open_ports@ == Seq::<Port>::empty(),
        r.only_open_ports(),
{
    if probe.address_available {
        let open_ports = collect_open_ports(catalog, &probe.connect_ok);
        proof {
            lemma_open_ports_exact(catalog@, probe.connect_ok@);
        }
        Subdomain { domain: host.domain, has_address: host.has_address, open_ports }
    } else {
        let empty: Vec<Port> = Vec::new();
        proof {
            assert(empty@ =~= Seq::<Port>::empty());
        }
        Subdomain { domain: host.domain, has_address: host.has_address, open_ports: empty }
    }
}

/// The orchestrator's aggregation: pair every resolved host with its probe
/// outcome. The hosts that come out are exactly the hosts that went in, in
/// order, each carrying only the ports found open on it.
pub fn scan_all(hosts: Vec<Subdomain>, catalog: &Vec<u16>, probes: &Vec<HostProbe>) -> (r: Vec<
    Subdomain,
>)
    requires
        hosts@.len() == probes@.len(),
        forall|i: int|
            0 <= i < probes@.len() ==> ((#[trigger] probes@[i]).address_available
                ==> probes@[i].connect_ok@.len() == catalog@.len()),
    ensures
        r@.len() == hosts@.len(),
        forall|i: int|
            0 <= i < r@.len() ==> (#[trigger] r@[i]).domain@ == hosts@[i].domain@ && (
            #[trigger] r@[i]).has_address == hosts@[i].has_address,
        forall|i: int|
            0 <= i < r@.len() ==> (#[trigger] r@[i]).open_ports@ == (
            if probes@[i].address_available {
                open_ports_of(catalog@, probes@[i].connect_ok@)
            } else {
                Seq::<Port>::empty()
            }),
        forall|i: int| 0 <= i < r@.len() ==> (#[trigger] r@[i]).only_open_ports(),
{
    let mut hosts = hosts;
    let ghost hosts0 = hosts@;
    let mut r: Vec<Subdomain> = Vec::new();
    let n = hosts.len();
    let mut i: usize = 0;
    while i < n
        invariant
            hosts@.len() == n - i,
            probes@.len() == n,
            forall|k: int|
                0 <= k < hosts@.len() ==> #[trigger] hosts@[k] == hosts0[k + i],
            forall|i2: int|
                0 <= i2 < probes@.len() ==> ((#[trigger] probes@[i2]).address_available
                    ==> probes@[i2].connect_ok@.len() == catalog@.len()),
            r@.len() == i,
            forall|k: int|
                0 <= k < i ==> (#[trigger] r@[k]).domain@ == hosts0[k].domain@ && r@[k]
                    .has_address == hosts0[k].has_address,
            forall|k: int|
                0 <= k < i ==> (#[trigger] r@[k]).open_ports@ == (
                if probes@[k].address_available {
                    open_ports_of(catalog@, probes@[k].connect_ok@)
                } else {
                    Seq::<Port>::empty()
                }),
            forall|k: int| 0 <= k < i ==> (#[trigger] r@[k]).only_open_ports(),
        decreases n - i,
    {
        let host = hosts.remove(0);
        let scanned = scan_host(host, catalog, &probes[i]);
        r.push(scanned);
        i = i + 1;
    }
    r
}

/// Ports in ascending number order.
pub open spec fn sorted_by_port(s: Seq<Port>) -> bool {
    forall|i: int, j: int| 0 <= i <= j < s.len() ==> s[i].port <= s[j].port
}

/// Order a host's open ports by port number: completion order is arbitrary,
/// so presentation sorts for determinism. The records themselves are kept
/// exactly (same multiset).
pub fn sort_ports(ports: &Vec<Port>) -> (r: Vec<Port>)
    ensures
        r@.to_multiset() == ports@.to_multiset(),
        sorted_by_port(r@),
        r@.len() == ports@.len(),
{
    let mut r: Vec<Port> = Vec::new();
    proof {
        assert(ports@.subrange(0, 0) =~= Seq::<Port>::empty());
        assert(r@ =~= Seq::<Port>::empty());
    }
    let mut i: usize = 0;
    while i < ports.len()
        invariant
            0 <= i <= ports@.len(),
            r@.len() == i,
            r@.to_multiset() == ports@.subrange(0, i as int).to_multiset(),
            sorted_by_port(r@),
        decreases ports@.len() - i,
    {
        let x = ports[i];
        let mut j: usize = 0;
        while j < r.len() && r[j].port <= x.port
            invariant
                0 <= j <= r@.len(),
                forall|k: int| 0 <= k < j ==> (#[trigger] r@[k]).port <= x.port,
            decreases r@.len() - j,
        {
            j = j + 1;
        }
        let ghost old_r = r@;
        r.insert(j, x);
        proof {
            old_r.insert_ensures(j as int, x);
            vstd::seq_lib::to_multiset_insert(old_r, j as int, x);
            assert forall|i1: int, j1: int| 0 <= i1 <= j1 < r@.len() implies r@[i1].port
                <= r@[j1].port by {
                if j1 < j {
                    assert(r@[i1] == old_r[i1] && r@[j1] == old_r[j1]);
                } else if j1 == j {
                    if i1 < j {
                        assert(r@[i1] == old_r[i1]);
                    }
                } else {
                    assert(r@[j1] == old_r[j1 - 1]);
                    assert(j < old_r.len());
                    assert(old_r[j as int].port > x.port);
                    assert(old_r[j1 - 1].port >= old_r[j as int].port);
                    if i1 < j {
                        assert(r@[i1] == old_r[i1]);
                        assert(old_r[i1].port <= x.port);
                    } else if i1 == j {
                        assert(r@[i1] == x);
                    } else {
                        assert(r@[i1] == old_r[i1 - 1]);
                    }
                }
            }
            assert(ports@.subrange(0, (i + 1) as int) =~= ports@.subrange(0, i as int).push(
                ports@[i as int],
            ));
            vstd::seq_lib::to_multiset_build(ports@.subrange(0, i as int), ports@[i as int]);
        }
        i = i + 1;
    }
    proof {
        assert(ports@.subrange(0, ports@.len() as int) =~= ports@);
    }
    r
}

/// The port record answers to a successful connect attempt on some catalog
/// port.
pub open spec fn port_answers(catalog: Seq<u16>, results: Seq<bool>, p: Port) -> bool {
    exists|i: int| 0 <= i < catalog.len() && p.port == #[trigger] catalog[i] && results[i]
}

/// LAW: a host's recorded ports are all open, each answers to a successful
/// connect on an exact catalog port, and every successful connect is recorded.
pub proof fn lemma_open_ports_exact(catalog: Seq<u16>, results: Seq<bool>)
    requires
        catalog.len() == results.len(),
    ensures
        forall|k: int|
            0 <= k < open_ports_of(catalog, results).len() ==> (#[trigger] open_ports_of(
                catalog,
                results,
            )[k]).is_open,
        forall|k: int|
            0 <= k < open_ports_of(catalog, results).len() ==> port_answers(
                catalog,
                results,
                #[trigger] open_ports_of(catalog, results)[k],
            ),
        forall|i: int|
            0 <= i < catalog.len() && #[trigger] results[i] ==> open_ports_of(
                catalog,
                results,
            ).contains(Port { port: catalog[i], is_open: true }),
    decreases catalog.len(),
{
    if catalog.len() > 0 {
        lemma_open_ports_exact(catalog.drop_last(), results.drop_last());
        let op = open_ports_of(catalog, results);
        let rest = open_ports_of(catalog.drop_last(), results.drop_last());
        assert forall|k: int| 0 <= k < open_ports_of(catalog, results).len() implies (
        #[trigger] open_ports_of(catalog, results)[k]).is_open by {
            if !(results.last() && k == op.len() - 1) {
                assert(op[k] == rest[k]);
            }
        }
        assert forall|k: int| 0 <= k < open_ports_of(catalog, results).len() implies port_answers(
            catalog,
            results,
            #[trigger] open_ports_of(catalog, results)[k],
        ) by {
            if results.last() && k == op.len() - 1 {
                assert(0 <= catalog.len() - 1 < catalog.len() && op[k].port == catalog[catalog.len()
                    - 1] && results[catalog.len() - 1]);
            } else {
                assert(op[k] == rest[k]);
                assert(port_answers(catalog.drop_last(), results.drop_last(), rest[k]));
                let i = choose|i: int|
                    0 <= i < catalog.drop_last().len() && rest[k].port == #[trigger] catalog
                        .drop_last()[i] && results.drop_last()[i];
                assert(0 <= i < catalog.len() && op[k].port == catalog[i] && results[i]);
            }
        }
        assert forall|i: int| 0 <= i < catalog.len() && #[trigger] results[i] implies
            open_ports_of(catalog, results).contains(
            Port { port: catalog[i], is_open: true },
        ) by {
            if i == catalog.len() - 1 {
                assert(op[op.len() - 1] == (Port { port: catalog[i], is_open: true }));
            } else {
                assert(results.drop_last()[i]);
                assert(rest.contains(Port { port: catalog.drop_last()[i], is_open: true }));
                let w = choose|w: int|
                    0 <= w < rest.len() && #[trigger] rest[w] == (Port {
                        port: catalog.drop_last()[i],
                        is_open: true,
                    });
                assert(op[w] == rest[w]);
                assert(op[w] == (Port { port: catalog[i], is_open: true }));
            }
        }
    }
}

/// LAW: over a duplicate-free catalog no port appears twice in the output.
pub proof fn lemma_open_ports_no_dup(catalog: Seq<u16>, results: Seq<bool>)
    requires
        catalog.len() == results.len(),
        no_dup_ports(catalog),
    ensures
        forall|k1: int, k2: int|
            0 <= k1 < k2 < open_ports_of(catalog, results).len() ==> (#[trigger] open_ports_of(
                catalog,
                results,
            )[k1]).port != (#[trigger] open_ports_of(catalog, results)[k2]).port,
    decreases catalog.len(),
{
    if catalog.len() > 0 {
        assert(no_dup_ports(catalog.drop_last()));
        lemma_open_ports_no_dup(catalog.drop_last(), results.drop_last());
        lemma_open_ports_exact(catalog.drop_last(), results.drop_last());
        let op = open_ports_of(catalog, results);
        let rest = open_ports_of(catalog.drop_last(), results.drop_last());
        assert forall|k1: int, k2: int|
            0 <= k1 < k2 < open_ports_of(catalog, results).len() implies (
        #[trigger] open_ports_of(catalog, results)[k1]).port != (#[trigger] open_ports_of(
            catalog,
            results,
        )[k2]).port by {
            if results.last() && k2 == op.len() - 1 {
                assert(op[k1] == rest[k1]);
                assert(op[k2].port == catalog.last());
                assert(port_answers(catalog.drop_last(), results.drop_last(), rest[k1]));
                let i = choose|i: int|
                    0 <= i < catalog.drop_last().len() && rest[k1].port == #[trigger] catalog
                        .drop_last()[i] && results.drop_last()[i];
                assert(catalog[i] != catalog[catalog.len() - 1]);
            } else {
                assert(op[k1] == rest[k1] && op[k2] == rest[k2]);
            }
        }
    }
}

/// LAW: a candidate that never resolved is absent from the final report: the
/// scan stage hands back exactly the domains the resolution filter passed it,
/// so a name the filter dropped appears nowhere in the output.
pub proof fn lemma_unresolved_never_in_output(
    cands: Seq<Seq<char>>,
    outs: Seq<crate::model::DnsOutcome>,
    p: Seq<char>,
    host_domains: Seq<Seq<char>>,
    out_domains: Seq<Seq<char>>,
)
    requires
        cands.len() == outs.len(),
        forall|i: int|
            0 <= i < cands.len() && #[trigger] cands[i] == p ==> !crate::subdomains::outcome_ok(
                outs[i],
            ),
        host_domains == crate::subdomains::resolved_domains(cands, outs),
        out_domains.len() == host_domains.len(),
        forall|i: int| 0 <= i < out_domains.len() ==> #[trigger] out_domains[i] == host_domains[i],
    ensures
        !out_domains.contains(p),
{
    crate::subdomains::lemma_unresolved_candidate_absent(cands, outs, p);
    if out_domains.contains(p) {
        let w = choose|w: int| 0 <= w < out_domains.len() && out_domains[w] == p;
        assert(host_domains[w] == p);
        assert(host_domains.contains(p));
    }
}

} // verus!
