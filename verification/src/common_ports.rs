//! The port catalog: the hundred most commonly open TCP ports, ordered by
//! observed frequency. Immutable configuration data, injected into the scan
//! engine so that tests can substitute a smaller catalog.

use vstd::prelude::*;

verus! {

/// The catalog's contents, by observed frequency.
pub open spec fn most_common_ports_spec() -> Seq<u16> {
    seq![
        80u16, 23, 443, 21, 22, 25, 3389, 110, 445, 139,
        143, 53, 135, 3306, 8080, 1723, 111, 995, 993, 5900,
        1025, 587, 8888, 199, 1720, 465, 548, 113, 81, 6001,
        10000, 514, 5060, 179, 1026, 2000, 8443, 8000, 32768, 554,
        26, 1433, 49152, 2001, 515, 8008, 49154, 1027, 5666, 646,
        5000, 5631, 631, 49153, 8081, 2049, 88, 79, 5800, 106,
        2121, 1110, 49155, 6000, 513, 990, 5357, 427, 49156, 543,
        544, 5101, 144, 7, 389, 8009, 3128, 444, 9999, 5009,
        7070, 5190, 3000, 5432, 1900, 3986, 13, 1029, 9, 5051,
        6646, 49157, 1028, 873, 1755, 2717, 4899, 9100, 119, 37,
    ]
}

/// The hundred most common TCP ports, the fixed probe list of a scan.
pub fn most_common_ports() -> (r: Vec<u16>)
    ensures
        r@ == most_common_ports_spec(),
{
    let r: Vec<u16> = vec![
        80, 23, 443, 21, 22, 25, 3389, 110, 445, 139,
        143, 53, 135, 3306, 8080, 1723, 111, 995, 993, 5900,
        1025, 587, 8888, 199, 1720, 465, 548, 113, 81, 6001,
        10000, 514, 5060, 179, 1026, 2000, 8443, 8000, 32768, 554,
        26, 1433, 49152, 2001, 515, 8008, 49154, 1027, 5666, 646,
        5000, 5631, 631, 49153, 8081, 2049, 88, 79, 5800, 106,
        2121, 1110, 49155, 6000, 513, 990, 5357, 427, 49156, 543,
        544, 5101, 144, 7, 389, 8009, 3128, 444, 9999, 5009,
        7070, 5190, 3000, 5432, 1900, 3986, 13, 1029, 9, 5051,
        6646, 49157, 1028, 873, 1755, 2717, 4899, 9100, 119, 37,
    ];
    proof {
        assert(r@ =~= most_common_ports_spec());
    }
    r
}

/// LAW: no port number occurs twice in the catalog.
#[verifier::rlimit(100)]
pub proof fn lemma_catalog_no_dup()
    ensures
        crate::ports::no_dup_ports(most_common_ports_spec()),
{
    assert forall|i: int, j: int|
        0 <= i < j < most_common_ports_spec().len() implies most_common_ports_spec()[i]
        != most_common_ports_spec()[j] by {
        assert(most_common_ports_spec()[i] != most_common_ports_spec()[j]);
    }
}

} // verus!
