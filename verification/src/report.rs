//! Machine-readable presentation of a scan: one comma-separated line per
//! scanned host, the domain first and every open port number after it, for
//! integration with other tooling.

use vstd::prelude::*;
use vstd::string::StringExecFns;
use crate::model::{Port, Subdomain};

verus! {

/// The ten decimal digit characters.
pub open spec fn digit_char(d: nat) -> char {
    if d == 0 {
        '0'
    } else if d == 1 {
        '1'
    } else if d == 2 {
        '2'
    } else if d == 3 {
        '3'
    } else if d == 4 {
        '4'
    } else if d == 5 {
        '5'
    } else if d == 6 {
        '6'
    } else if d == 7 {
        '7'
    } else if d == 8 {
        '8'
    } else {
        '9'
    }
}

/// The decimal writing of a number, most significant digit first, without
/// leading zeros (zero itself is "0").
pub open spec fn decimal_digits(n: nat) -> Seq<char>
    decreases n,
{
    if n < 10 {
        seq![digit_char(n)]
    } else {
        decimal_digits(n / 10).push(digit_char(n % 10))
    }
}

/// The numeric value of one digit character (ten for anything else).
pub open spec fn digit_val(c: char) -> nat {
    if c == '0' {
        0
    } else if c == '1' {
        1
    } else if c == '2' {
        2
    } else if c == '3' {
        3
    } else if c == '4' {
        4
    } else if c == '5' {
        5
    } else if c == '6' {
        6
    } else if c == '7' {
        7
    } else if c == '8' {
        8
    } else if c == '9' {
        9
    } else {
        10
    }
}

/// The number a digit text denotes.
pub open spec fn digits_val(s: Seq<char>) -> nat
    decreases s.len(),
{
    if s.len() == 0 {
        0
    } else {
        digits_val(s.drop_last()) * 10 + digit_val(s.last())
    }
}

/// LAW: the decimal writing of a number denotes that number.
pub proof fn lemma_decimal_digits_denote(n: nat)
    ensures
        digits_val(decimal_digits(n)) == n,
    decreases n,
{
    if n < 10 {
        assert(digit_val(digit_char(n)) == n);
        assert(decimal_digits(n).drop_last() =~= Seq::<char>::empty());
        assert(digits_val(decimal_digits(n)) == digits_val(Seq::<char>::empty()) * 10 + digit_val(
            digit_char(n),
        ));
    } else {
        lemma_decimal_digits_denote(n / 10);
        let s = decimal_digits(n / 10);
        assert(s.push(digit_char(n % 10)).drop_last() =~= s);
        assert(digit_val(digit_char(n % 10)) == n % 10);
        assert(digits_val(decimal_digits(n)) == digits_val(s) * 10 + digit_val(
            digit_char(n % 10),
        ));
        assert(n / 10 * 10 + n % 10 == n) by (nonlinear_arith);
    }
}

fn digit_str(d: u16) -> (r: &'static str)
    requires
        d < 10,
    ensures
        r@ =~= seq![digit_char(d as nat)],
{
    proof {
        reveal_strlit("0");
        reveal_strlit("1");
        reveal_strlit("2");
        reveal_strlit("3");
        reveal_strlit("4");
        reveal_strlit("5");
        reveal_strlit("6");
        reveal_strlit("7");
        reveal_strlit("8");
        reveal_strlit("9");
    }
    match d {
        0 => "0",
        1 => "1",
        2 => "2",
        3 => "3",
        4 => "4",
        5 => "5",
        6 => "6",
        7 => "7",
        8 => "8",
        _ => "9",
    }
}

/// Write a port number in decimal.
pub fn u16_to_string(n: u16) -> (r: String)
    ensures
        r@ == decimal_digits(n as nat),
    decreases n,
{
    if n < 10 {
        String::from_str(digit_str(n))
    } else {
        let mut r = u16_to_string(n / 10);
        r.append(digit_str(n % 10));
        proof {
            assert(r@ =~= decimal_digits((n as nat) / 10).push(digit_char((n as nat) % 10)));
        }
        r
    }
}

/// The textual form of a host's open ports: a comma before each port number.
pub open spec fn ports_csv(ports: Seq<Port>) -> Seq<char>
    decreases ports.len(),
{
    if ports.len() == 0 {
        Seq::empty()
    } else {
        ports_csv(ports.drop_last()) + seq![','] + decimal_digits(ports.last().port as nat)
    }
}

/// One machine-readable report line: the domain, then each open port number,
/// comma-separated; a host with no open ports gives the bare domain.
pub fn csv_line(host: &Subdomain) -> (r: String)
    ensures
        r@ == host.domain@ + ports_csv(host.open_ports@),
{
    let mut r = host.domain.clone();
    proof {
        assert(host.open_ports@.subrange(0, 0) =~= Seq::<Port>::empty());
        assert(r@ =~= host.domain@ + ports_csv(host.open_ports@.subrange(0, 0)));
    }
    let mut i: usize = 0;
    while i < host.open_ports.len()
        invariant
            0 <= i <= host.open_ports@.len(),
            r@ == host.domain@ + ports_csv(host.open_ports@.subrange(0, i as int)),
        decreases host.open_ports@.len() - i,
    {
        r.append(",");
        let num = u16_to_string(host.open_ports[i].port);
        r.append(num.as_str());
        proof {
            reveal_strlit(",");
            let pre = host.open_ports@.subrange(0, i as int);
            let post = host.open_ports@.subrange(0, (i + 1) as int);
            assert(post.drop_last() =~= pre);
            assert(","@ =~= seq![',']);
            assert(r@ =~= host.domain@ + ports_csv(post));
        }
        i = i + 1;
    }
    proof {
        assert(host.open_ports@.subrange(0, host.open_ports@.len() as int) =~= host.open_ports@);
    }
    r
}

/// Lexicographic order on texts, by character code.
pub open spec fn lex_le(a: Seq<char>, b: Seq<char>) -> bool
    decreases a.len(),
{
    if a.len() == 0 {
        true
    } else if b.len() == 0 {
        false
    } else if (a.first() as u32) == (b.first() as u32) {
        lex_le(a.drop_first(), b.drop_first())
    } else {
        (a.first() as u32) < (b.first() as u32)
    }
}

/// LAW: every text is ordered against itself.
pub proof fn lemma_lex_le_refl(a: Seq<char>)
    ensures
        lex_le(a, a),
    decreases a.len(),
{
    if a.len() > 0 {
        lemma_lex_le_refl(a.drop_first());
    }
}

/// LAW: any two texts are ordered one way or the other.
pub proof fn lemma_lex_le_total(a: Seq<char>, b: Seq<char>)
    ensures
        lex_le(a, b) || lex_le(b, a),
    decreases a.len(),
{
    if a.len() > 0 && b.len() > 0 && (a.first() as u32) == (b.first() as u32) {
        lemma_lex_le_total(a.drop_first(), b.drop_first());
    }
}

/// LAW: the order is transitive.
pub proof fn lemma_lex_le_trans(a: Seq<char>, b: Seq<char>, c: Seq<char>)
    requires
        lex_le(a, b),
        lex_le(b, c),
    ensures
        lex_le(a, c),
    decreases a.len(),
{
    if a.len() > 0 && b.len() > 0 && c.len() > 0 && (a.first() as u32) == (b.first() as u32)
        && (b.first() as u32) == (c.first() as u32) {
        lemma_lex_le_trans(a.drop_first(), b.drop_first(), c.drop_first());
    }
}

/// Compare two texts lexicographically, by character code.
pub fn str_le(a: &str, b: &str) -> (r: bool)
    ensures
        r == lex_le(a@, b@),
{
    let na = a.unicode_len();
    let nb = b.unicode_len();
    proof {
        assert(a@.subrange(0, na as int) =~= a@);
        assert(b@.subrange(0, nb as int) =~= b@);
    }
    let mut i: usize = 0;
    loop
        invariant
            na == a@.len(),
            nb == b@.len(),
            0 <= i <= na,
            i <= nb,
            lex_le(a@, b@) == lex_le(
                a@.subrange(i as int, na as int),
                b@.subrange(i as int, nb as int),
            ),
        decreases na - i,
    {
        let ghost suff_a = a@.subrange(i as int, na as int);
        let ghost suff_b = b@.subrange(i as int, nb as int);
        if i == na {
            proof {
                assert(suff_a =~= Seq::<char>::empty());
            }
            return true;
        }
        if i == nb {
            proof {
                assert(suff_b =~= Seq::<char>::empty());
                assert(suff_a.len() > 0);
            }
            return false;
        }
        let ca = a.get_char(i);
        let cb = b.get_char(i);
        proof {
            assert(suff_a.first() == ca && suff_b.first() == cb);
        }
        if (ca as u32) != (cb as u32) {
            return (ca as u32) < (cb as u32);
        }
        proof {
            assert(suff_a.drop_first() =~= a@.subrange((i + 1) as int, na as int));
            assert(suff_b.drop_first() =~= b@.subrange((i + 1) as int, nb as int));
        }
        i = i + 1;
    }
}

/// Hosts in ascending domain order.
pub open spec fn sorted_by_domain(s: Seq<Subdomain>) -> bool {
    forall|i: int, j: int| 0 <= i <= j < s.len() ==> lex_le(s[i].domain@, s[j].domain@)
}

/// Order a report's hosts by domain: completion order is arbitrary, so
/// presentation sorts for determinism. The records themselves are kept exactly
/// (same multiset).
#[verifier::rlimit(50)]
pub fn sort_hosts(hosts: Vec<Subdomain>) -> (r: Vec<Subdomain>)
    ensures
        r@.to_multiset() == hosts@.to_multiset(),
        sorted_by_domain(r@),
        r@.len() == hosts@.len(),
{
    let mut hosts = hosts;
    let ghost orig = hosts@;
    let mut r: Vec<Subdomain> = Vec::new();
    proof {
        assert(orig.subrange(0, 0) =~= Seq::<Subdomain>::empty());
        assert(r@ =~= Seq::<Subdomain>::empty());
    }
    let n = hosts.len();
    let mut i: usize = 0;
    while i < n
        invariant
            n == orig.len(),
            hosts@.len() == n - i,
            forall|k: int| 0 <= k < hosts@.len() ==> #[trigger] hosts@[k] == orig[k + i],
            r@.len() == i,
            r@.to_multiset() == orig.subrange(0, i as int).to_multiset(),
            sorted_by_domain(r@),
        decreases n - i,
    {
        let x = hosts.remove(0);
        proof {
            assert(x == orig[i as int]);
        }
        let mut j: usize = 0;
        while j < r.len() && str_le(r[j].domain.as_str(), x.domain.as_str())
            invariant
                0 <= j <= r@.len(),
                forall|k: int| 0 <= k < j ==> lex_le((#[trigger] r@[k]).domain@, x.domain@),
            decreases r@.len() - j,
        {
            j = j + 1;
        }
        let ghost old_r = r@;
        let ghost xd = x.domain@;
        r.insert(j, x);
        proof {
            old_r.insert_ensures(j as int, x);
            vstd::seq_lib::to_multiset_insert(old_r, j as int, x);
            if j < old_r.len() {
                lemma_lex_le_total(old_r[j as int].domain@, xd);
            }
            lemma_lex_le_refl(xd);
            assert forall|i1: int, j1: int| 0 <= i1 <= j1 < r@.len() implies lex_le(
                r@[i1].domain@,
                r@[j1].domain@,
            ) by {
                if j1 < j {
                    assert(r@[i1] == old_r[i1] && r@[j1] == old_r[j1]);
                } else if j1 == j {
                    if i1 < j {
                        assert(r@[i1] == old_r[i1]);
                    }
                } else {
                    assert(r@[j1] == old_r[j1 - 1]);
                    assert(j < old_r.len());
                    assert(lex_le(xd, old_r[j as int].domain@));
                    assert(lex_le(old_r[j as int].domain@, old_r[j1 - 1].domain@));
                    if i1 < j {
                        assert(r@[i1] == old_r[i1]);
                        assert(lex_le(old_r[i1].domain@, old_r[j1 - 1].domain@));
                    } else if i1 == j {
                        lemma_lex_le_trans(xd, old_r[j as int].domain@, old_r[j1 - 1].domain@);
                    } else {
                        assert(r@[i1] == old_r[i1 - 1]);
                        assert(lex_le(old_r[i1 - 1].domain@, old_r[j1 - 1].domain@));
                    }
                }
            }
            assert(orig.subrange(0, (i + 1) as int) =~= orig.subrange(0, i as int).push(
                orig[i as int],
            ));
            vstd::seq_lib::to_multiset_build(orig.subrange(0, i as int), orig[i as int]);
        }
        i = i + 1;
    }
    proof {
        assert(orig.subrange(0, n as int) =~= orig);
    }
    r
}

} // verus!
