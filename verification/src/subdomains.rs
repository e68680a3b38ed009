//! The subdomain normalizer and the DNS resolution filter.
//!
//! `normalize` turns the raw certificate-transparency entries into a canonical
//! candidate set: each entry is split on newlines, every piece is trimmed,
//! pieces equal to the target or carrying a wildcard marker are dropped, the
//! rest is deduplicated, and the target itself is always included.
//!
//! `keep_resolved` keeps exactly the candidates whose DNS lookup succeeded;
//! a lookup that timed out, errored, or returned no addresses is an expected
//! miss and drops the candidate silently.

use vstd::prelude::*;
use crate::model::{DnsOutcome, Subdomain};

verus! {

/// Named result of `char::is_whitespace`, which vstd gives no specification.
pub uninterp spec fn is_space_char(c: char) -> bool;

/// Relies on char::is_whitespace: true exactly for the characters with the
/// Unicode `White_Space` property; within the ASCII range those are tab,
/// line feed, vertical tab, form feed, carriage return and space.
#[verifier::external_body]
fn char_is_space(c: char) -> (r: bool)
    ensures
        r == is_space_char(c),
        (c as u32) < 128 ==> (r <==> (c == ' ' || c == '\t' || c == '\n' || c == '\u{0b}'
            || c == '\u{0c}' || c == '\r')),
{
    c.is_whitespace()
}

/// The pieces a text falls into when cut at every line feed: always one more
/// piece than there are line feeds, and an empty text gives one empty piece.
pub open spec fn split_lines_spec(s: Seq<char>) -> Seq<Seq<char>>
    decreases s.len(),
{
    if s.len() == 0 {
        seq![Seq::<char>::empty()]
    } else {
        let prefix = split_lines_spec(s.drop_last());
        if s.last() == '\n' {
            prefix.push(Seq::<char>::empty())
        } else {
            prefix.drop_last().push(prefix.last().push(s.last()))
        }
    }
}

pub proof fn lemma_split_lines_len(s: Seq<char>)
    ensures
        split_lines_spec(s).len() >= 1,
    decreases s.len(),
{
    if s.len() > 0 {
        lemma_split_lines_len(s.drop_last());
    }
}

/// Cut a string at every line feed, keeping empty pieces.
pub fn split_lines(s: &str) -> (r: Vec<String>)
    ensures
        r.deep_view() == split_lines_spec(s@),
{
    let n: usize = s.unicode_len();
    let mut r: Vec<String> = Vec::new();
    let mut start: usize = 0;
    let mut i: usize = 0;
    while i < n
        invariant
            n == s@.len(),
            0 <= start <= i <= n,
            split_lines_spec(s@.subrange(0, i as int)) =~~= r.deep_view().push(
                s@.subrange(start as int, i as int),
            ),
        decreases n - i,
    {
        let ghost pre = s@.subrange(0, i as int);
        let ghost post = s@.subrange(0, i + 1 as int);
        proof {
            assert(post.drop_last() =~= pre);
            assert(post.last() == s@[i as int]);
            lemma_split_lines_len(pre);
        }
        let c = s.get_char(i);
        if c == '\n' {
            let piece = s.substring_char(start, i);
            let owned = piece.to_owned();
            r.push(owned);
            start = i + 1;
            proof {
                assert(split_lines_spec(post) =~~= r.deep_view().push(
                    s@.subrange(start as int, (i + 1) as int),
                ));
            }
        } else {
            proof {
                assert(s@.subrange(start as int, i as int).push(s@[i as int]) =~= s@.subrange(
                    start as int,
                    (i + 1) as int,
                ));
                assert(split_lines_spec(post) =~~= r.deep_view().push(
                    s@.subrange(start as int, (i + 1) as int),
                ));
            }
        }
        i = i + 1;
    }
    proof {
        assert(s@.subrange(0, n as int) =~= s@);
    }
    let piece = s.substring_char(start, n);
    let owned = piece.to_owned();
    r.push(owned);
    proof {
        assert(r.deep_view() =~~= split_lines_spec(s@));
    }
    r
}

/// A text with its leading run of whitespace removed.
pub open spec fn trim_start_spec(s: Seq<char>) -> Seq<char>
    decreases s.len(),
{
    if s.len() > 0 && is_space_char(s.first()) {
        trim_start_spec(s.drop_first())
    } else {
        s
    }
}

/// A text with its trailing run of whitespace removed.
pub open spec fn trim_end_spec(s: Seq<char>) -> Seq<char>
    decreases s.len(),
{
    if s.len() > 0 && is_space_char(s.last()) {
        trim_end_spec(s.drop_last())
    } else {
        s
    }
}

/// A text with both its leading and trailing whitespace removed.
pub open spec fn trim_spec(s: Seq<char>) -> Seq<char> {
    trim_end_spec(trim_start_spec(s))
}

proof fn lemma_trim_start_at(s: Seq<char>, a: int)
    requires
        0 <= a <= s.len(),
        forall|k: int| 0 <= k < a ==> is_space_char(#[trigger] s[k]),
        a < s.len() ==> !is_space_char(s[a]),
    ensures
        trim_start_spec(s) =~= s.subrange(a, s.len() as int),
    decreases a,
{
    if a == 0 {
        assert(s.subrange(0, s.len() as int) =~= s);
    } else {
        let t = s.drop_first();
        assert(forall|k: int| 0 <= k < a - 1 ==> is_space_char(#[trigger] t[k]));
        lemma_trim_start_at(t, a - 1);
        assert(t.subrange(a - 1, t.len() as int) =~= s.subrange(a, s.len() as int));
    }
}

proof fn lemma_trim_end_at(t: Seq<char>, b: int)
    requires
        0 <= b <= t.len(),
        forall|k: int| b <= k < t.len() ==> is_space_char(#[trigger] t[k]),
        b > 0 ==> !is_space_char(t[b - 1]),
    ensures
        trim_end_spec(t) =~= t.subrange(0, b),
    decreases t.len() - b,
{
    if b == t.len() {
        assert(t.subrange(0, t.len() as int) =~= t);
    } else {
        let u = t.drop_last();
        assert(forall|k: int| b <= k < u.len() ==> is_space_char(#[trigger] u[k]));
        lemma_trim_end_at(u, b);
        assert(u.subrange(0, b) =~= t.subrange(0, b));
    }
}

/// Remove leading and trailing whitespace.
pub fn trim(s: &str) -> (r: String)
    ensures
        r@ == trim_spec(s@),
{
    let n: usize = s.unicode_len();
    let mut a: usize = 0;
    while a < n && char_is_space(s.get_char(a))
        invariant
            n == s@.len(),
            0 <= a <= n,
            forall|k: int| 0 <= k < a ==> is_space_char(#[trigger] s@[k]),
        decreases n - a,
    {
        a = a + 1;
    }
    let mut b: usize = n;
    while b > a && char_is_space(s.get_char(b - 1))
        invariant
            n == s@.len(),
            a <= b <= n,
            forall|k: int| b <= k < n ==> is_space_char(#[trigger] s@[k]),
        decreases b,
    {
        b = b - 1;
    }
    proof {
        lemma_trim_start_at(s@, a as int);
        let t = s@.subrange(a as int, n as int);
        assert(forall|k: int| b - a <= k < t.len() ==> is_space_char(#[trigger] t[k]));
        lemma_trim_end_at(t, b - a);
        assert(t.subrange(0, b - a) =~= s@.subrange(a as int, b as int));
    }
    let piece = s.substring_char(a, b);
    piece.to_owned()
}

/// Whether the text holds the character anywhere.
pub fn contains_char(s: &str, c: char) -> (r: bool)
    ensures
        r == s@.contains(c),
{
    let n: usize = s.unicode_len();
    let mut i: usize = 0;
    while i < n
        invariant
            n == s@.len(),
            0 <= i <= n,
            forall|k: int| 0 <= k < i ==> #[trigger] s@[k] != c,
        decreases n - i,
    {
        if s.get_char(i) == c {
            return true;
        }
        i = i + 1;
    }
    false
}

/// Whether some element of the vector holds exactly this text.
pub fn vec_contains_string(v: &Vec<String>, x: &String) -> (r: bool)
    ensures
        r == v.deep_view().contains(x@),
{
    let mut i: usize = 0;
    while i < v.len()
        invariant
            0 <= i <= v@.len(),
            forall|k: int| 0 <= k < i ==> v.deep_view()[k] != x@,
        decreases v@.len() - i,
    {
        proof {
            assert(v.deep_view()[i as int] == v@[i as int]@);
        }
        if v[i].eq(x) {
            return true;
        }
        i = i + 1;
    }
    false
}

/// No element occurs twice.
pub open spec fn no_dup_seq(s: Seq<Seq<char>>) -> bool {
    forall|i: int, j: int| 0 <= i < j < s.len() ==> s[i] != s[j]
}

/// `p` is the trimmed form of one of the newline-separated pieces of some entry.
pub open spec fn is_candidate_piece(entries: Seq<Seq<char>>, p: Seq<char>) -> bool {
    exists|i: int, j: int|
        0 <= i < entries.len() && 0 <= j < split_lines_spec(entries[i]).len() && p == trim_spec(
            #[trigger] split_lines_spec(entries[i])[j],
        )
}

/// `p` is a candidate piece that survives the filters: it is not the target
/// itself and holds no wildcard marker.
pub open spec fn kept_piece(entries: Seq<Seq<char>>, target: Seq<char>, p: Seq<char>) -> bool {
    is_candidate_piece(entries, p) && p != target && !p.contains('*')
}

/// The canonical candidate set the normalizer produces: every surviving piece
/// of the entries, together with the target itself.
pub open spec fn normalized_set(entries: Seq<Seq<char>>, target: Seq<char>) -> Set<Seq<char>> {
    Set::new(|p: Seq<char>| p == target || kept_piece(entries, target, p))
}

/// Membership in a pushed sequence is membership in the old one or equality
/// with the new element.
proof fn lemma_push_contains<A>(s: Seq<A>, x: A)
    ensures
        forall|p: A| #[trigger] s.push(x).contains(p) <==> (s.contains(p) || p == x),
{
    assert forall|p: A| #[trigger] s.push(x).contains(p) implies (s.contains(p) || p == x) by {
        let w = choose|w: int| 0 <= w < s.push(x).len() && s.push(x)[w] == p;
        if w < s.len() {
            assert(s[w] == p);
        }
    }
    assert forall|p: A| s.contains(p) || p == x implies #[trigger] s.push(x).contains(p) by {
        if s.contains(p) {
            let w = choose|w: int| 0 <= w < s.len() && s[w] == p;
            assert(s.push(x)[w] == p);
        } else {
            assert(s.push(x)[s.len() as int] == p);
        }
    }
}

/// Pushing a fresh element keeps a sequence duplicate-free.
proof fn lemma_push_no_dup(s: Seq<Seq<char>>, x: Seq<char>)
    requires
        no_dup_seq(s),
        !s.contains(x),
    ensures
        no_dup_seq(s.push(x)),
{
    let t = s.push(x);
    assert forall|i: int, j: int| 0 <= i < j < t.len() implies t[i] != t[j] by {
        if j == s.len() {
            assert(t[i] == s[i]);
            if t[i] == x {
                assert(s[i] == x);
                assert(s.contains(x));
            }
        } else {
            assert(t[i] == s[i] && t[j] == s[j]);
        }
    }
}

/// `p` survives the filters and is the trimmed form of one of the first `j`
/// pieces of the entry at hand.
pub open spec fn from_pieces_upto(
    pieces: Seq<Seq<char>>,
    j: int,
    target: Seq<char>,
    p: Seq<char>,
) -> bool {
    p != target && !p.contains('*') && exists|j2: int|
        0 <= j2 < j && p == trim_spec(#[trigger] pieces[j2])
}

/// Clean, filter and deduplicate the raw certificate-transparency name values
/// into the canonical candidate set; the target is always a member.
pub fn normalize(entries: &Vec<String>, target: &str) -> (r: Vec<String>)
    ensures
        forall|p: Seq<char>|
            r.deep_view().contains(p) <==> normalized_set(entries.deep_view(), target@).contains(p),
        no_dup_seq(r.deep_view()),
{
    let target_string = target.to_owned();
    let mut out: Vec<String> = Vec::new();
    let mut e: usize = 0;
    while e < entries.len()
        invariant
            0 <= e <= entries@.len(),
            target_string@ == target@,
            no_dup_seq(out.deep_view()),
            forall|p: Seq<char>|
                out.deep_view().contains(p) <==> kept_piece(
                    entries.deep_view().subrange(0, e as int),
                    target@,
                    p,
                ),
        decreases entries@.len() - e,
    {
        let ghost pre = entries.deep_view().subrange(0, e as int);
        let pieces = split_lines(entries[e].as_str());
        let ghost pdv = pieces.deep_view();
        proof {
            assert(entries.deep_view()[e as int] == entries@[e as int]@);
        }
        let mut j: usize = 0;
        while j < pieces.len()
            invariant
                0 <= j <= pieces@.len(),
                0 <= e < entries@.len(),
                target_string@ == target@,
                pdv == pieces.deep_view(),
                pdv.len() == pieces@.len(),
                pre == entries.deep_view().subrange(0, e as int),
                pdv == split_lines_spec(entries.deep_view()[e as int]),
                no_dup_seq(out.deep_view()),
                forall|p: Seq<char>|
                    out.deep_view().contains(p) <==> (kept_piece(pre, target@, p)
                        || from_pieces_upto(pdv, j as int, target@, p)),
            decreases pieces@.len() - j,
        {
            proof {
                assert(pdv[j as int] == pieces@[j as int]@);
            }
            let piece = trim(pieces[j].as_str());
            let ghost x = trim_spec(pdv[j as int]);
            let ghost old_out = out.deep_view();
            if !piece.eq(&target_string) && !contains_char(piece.as_str(), '*')
                && !vec_contains_string(&out, &piece) {
                out.push(piece);
                proof {
                    assert(out.deep_view() =~~= old_out.push(x));
                    lemma_push_contains(old_out, x);
                    lemma_push_no_dup(old_out, x);
                    assert forall|p: Seq<char>| out.deep_view().contains(p) implies (kept_piece(
                        pre,
                        target@,
                        p,
                    ) || from_pieces_upto(pdv, j + 1, target@, p)) by {
                        if old_out.contains(p) {
                            if from_pieces_upto(pdv, j as int, target@, p) {
                                let j2 = choose|j2: int|
                                    0 <= j2 < j && p == trim_spec(#[trigger] pdv[j2]);
                                assert(0 <= j2 < j + 1 && p == trim_spec(pdv[j2]));
                            }
                        } else {
                            assert(p == x);
                            assert(0 <= j < j + 1 && p == trim_spec(pdv[j as int]));
                        }
                    }
                    assert forall|p: Seq<char>|
                        kept_piece(pre, target@, p) || from_pieces_upto(
                            pdv,
                            j + 1,
                            target@,
                            p,
                        ) implies out.deep_view().contains(p) by {
                        if kept_piece(pre, target@, p) {
                            assert(old_out.contains(p));
                        } else {
                            let j2 = choose|j2: int|
                                0 <= j2 < j + 1 && p == trim_spec(#[trigger] pdv[j2]);
                            if j2 < j {
                                assert(from_pieces_upto(pdv, j as int, target@, p));
                                assert(old_out.contains(p));
                            } else {
                                assert(p == x);
                            }
                        }
                    }
                }
            } else {
                proof {
                    assert forall|p: Seq<char>|
                        kept_piece(pre, target@, p) || from_pieces_upto(
                            pdv,
                            j + 1,
                            target@,
                            p,
                        ) implies out.deep_view().contains(p) by {
                        if kept_piece(pre, target@, p) {
                        } else {
                            let j2 = choose|j2: int|
                                0 <= j2 < j + 1 && p == trim_spec(#[trigger] pdv[j2]);
                            if j2 < j {
                                assert(from_pieces_upto(pdv, j as int, target@, p));
                            } else {
                                assert(p == x);
                                assert(piece@ == x);
                                assert(p != target@ && !p.contains('*'));
                                assert(out.deep_view().contains(piece@));
                            }
                        }
                    }
                    assert forall|p: Seq<char>| out.deep_view().contains(p) implies (kept_piece(
                        pre,
                        target@,
                        p,
                    ) || from_pieces_upto(pdv, j + 1, target@, p)) by {
                        if from_pieces_upto(pdv, j as int, target@, p) {
                            let j2 = choose|j2: int|
                                0 <= j2 < j && p == trim_spec(#[trigger] pdv[j2]);
                            assert(0 <= j2 < j + 1 && p == trim_spec(pdv[j2]));
                        }
                    }
                }
            }
            j = j + 1;
        }
        proof {
            let post = entries.deep_view().subrange(0, (e + 1) as int);
            assert(pre =~~= post.drop_last());
            assert(post[e as int] == entries.deep_view()[e as int]);
            assert forall|p: Seq<char>| out.deep_view().contains(p) implies kept_piece(
                post,
                target@,
                p,
            ) by {
                if kept_piece(pre, target@, p) {
                    let (i2, j2) = choose|i2: int, j2: int|
                        0 <= i2 < pre.len() && 0 <= j2 < split_lines_spec(pre[i2]).len() && p
                            == trim_spec(#[trigger] split_lines_spec(pre[i2])[j2]);
                    assert(post[i2] == pre[i2]);
                    assert(0 <= i2 < post.len() && 0 <= j2 < split_lines_spec(post[i2]).len() && p
                        == trim_spec(split_lines_spec(post[i2])[j2]));
                } else {
                    assert(from_pieces_upto(pdv, pdv.len() as int, target@, p));
                    let j2 = choose|j2: int|
                        0 <= j2 < pdv.len() && p == trim_spec(#[trigger] pdv[j2]);
                    assert(0 <= e < post.len() && 0 <= j2 < split_lines_spec(
                        post[e as int],
                    ).len() && p == trim_spec(split_lines_spec(post[e as int])[j2]));
                }
            }
            assert forall|p: Seq<char>| kept_piece(post, target@, p) implies out.deep_view()
                .contains(p) by {
                let (i2, j2) = choose|i2: int, j2: int|
                    0 <= i2 < post.len() && 0 <= j2 < split_lines_spec(post[i2]).len() && p
                        == trim_spec(#[trigger] split_lines_spec(post[i2])[j2]);
                if i2 < e as int {
                    assert(pre[i2] == post[i2]);
                    assert(0 <= i2 < pre.len() && 0 <= j2 < split_lines_spec(pre[i2]).len() && p
                        == trim_spec(split_lines_spec(pre[i2])[j2]));
                    assert(kept_piece(pre, target@, p));
                } else {
                    assert(post[i2] == entries.deep_view()[e as int]);
                    assert(p == trim_spec(pdv[j2]));
                    assert(from_pieces_upto(pdv, pdv.len() as int, target@, p));
                }
            }
        }
        e = e + 1;
    }
    proof {
        assert(entries.deep_view().subrange(0, entries@.len() as int) =~~= entries.deep_view());
    }
    let ghost old_out = out.deep_view();
    out.push(target_string);
    proof {
        assert(out.deep_view() =~~= old_out.push(target@));
        lemma_push_contains(old_out, target@);
        assert(!old_out.contains(target@));
        lemma_push_no_dup(old_out, target@);
    }
    out
}

/// Whether a DNS lookup outcome counts as "the name resolves": only an answer
/// that carried at least one address does.
pub open spec fn outcome_ok(o: DnsOutcome) -> bool {
    o is Resolved
}

/// Classify one oracle outcome. A timeout, an error, and an empty address set
/// are all the same expected miss: the candidate does not resolve.
pub fn outcome_resolves(outcome: &DnsOutcome) -> (r: bool)
    ensures
        r == outcome_ok(*outcome),
{
    matches!(outcome, DnsOutcome::Resolved)
}

/// The candidates that resolved, in input order.
pub open spec fn resolved_domains(cands: Seq<Seq<char>>, outs: Seq<DnsOutcome>) -> Seq<Seq<char>>
    decreases cands.len(),
{
    if cands.len() == 0 || outs.len() == 0 {
        Seq::empty()
    } else {
        let rest = resolved_domains(cands.drop_last(), outs.drop_last());
        if outcome_ok(outs.last()) {
            rest.push(cands.last())
        } else {
            rest
        }
    }
}

/// Keep exactly the candidates whose lookup resolved, as hosts confirmed to
/// have an address and not yet scanned.
pub fn keep_resolved(candidates: &Vec<String>, outcomes: &Vec<DnsOutcome>) -> (r: Vec<Subdomain>)
    requires
        candidates@.len() == outcomes@.len(),
    ensures
        r@.map_values(|h: Subdomain| h.domain@) == resolved_domains(
            candidates.deep_view(),
            outcomes@,
        ),
        forall|k: int|
            0 <= k < r@.len() ==> (#[trigger] r@[k]).has_address && r@[k].open_ports@.len() == 0,
{
    let mut r: Vec<Subdomain> = Vec::new();
    let mut i: usize = 0;
    while i < candidates.len()
        invariant
            candidates@.len() == outcomes@.len(),
            0 <= i <= candidates@.len(),
            r@.map_values(|h: Subdomain| h.domain@) =~~= resolved_domains(
                candidates.deep_view().subrange(0, i as int),
                outcomes@.subrange(0, i as int),
            ),
            forall|k: int|
                0 <= k < r@.len() ==> (#[trigger] r@[k]).has_address && r@[k].open_ports@.len()
                    == 0,
        decreases candidates@.len() - i,
    {
        let ghost cpre = candidates.deep_view().subrange(0, i as int);
        let ghost opre = outcomes@.subrange(0, i as int);
        let ghost cpost = candidates.deep_view().subrange(0, (i + 1) as int);
        let ghost opost = outcomes@.subrange(0, (i + 1) as int);
        proof {
            assert(cpost.drop_last() =~~= cpre);
            assert(opost.drop_last() =~= opre);
            assert(cpost.last() == candidates.deep_view()[i as int]);
            assert(opost.last() == outcomes@[i as int]);
            assert(candidates.deep_view()[i as int] == candidates@[i as int]@);
        }
        if outcome_resolves(&outcomes[i]) {
            let host = Subdomain {
                domain: candidates[i].clone(),
                has_address: true,
                open_ports: Vec::new(),
            };
            r.push(host);
        }
        proof {
            assert(r@.map_values(|h: Subdomain| h.domain@) =~~= resolved_domains(cpost, opost));
        }
        i = i + 1;
    }
    proof {
        assert(candidates.deep_view().subrange(0, candidates@.len() as int) =~~= candidates
            .deep_view());
        assert(outcomes@.subrange(0, outcomes@.len() as int) =~= outcomes@);
    }
    r
}

/// No piece of a split holds a line feed.
proof fn lemma_split_pieces_no_newline(s: Seq<char>)
    ensures
        forall|j: int|
            0 <= j < split_lines_spec(s).len() ==> !(#[trigger] split_lines_spec(s)[j]).contains(
                '\n',
            ),
    decreases s.len(),
{
    if s.len() > 0 {
        lemma_split_pieces_no_newline(s.drop_last());
        let prefix = split_lines_spec(s.drop_last());
        lemma_split_lines_len(s.drop_last());
        let sp = split_lines_spec(s);
        if s.last() == '\n' {
            assert forall|j: int| 0 <= j < sp.len() implies !(#[trigger] sp[j]).contains(
                '\n',
            ) by {
                if j < prefix.len() {
                    assert(sp[j] == prefix[j]);
                }
            }
        } else {
            lemma_push_contains(prefix.last(), s.last());
            assert forall|j: int| 0 <= j < sp.len() implies !(#[trigger] sp[j]).contains(
                '\n',
            ) by {
                if j < prefix.len() - 1 {
                    assert(sp[j] == prefix.drop_last()[j]);
                    assert(prefix.drop_last()[j] == prefix[j]);
                } else {
                    assert(sp[j] == prefix.last().push(s.last()));
                }
            }
        }
    }
}

/// A text without a line feed splits into exactly itself.
proof fn lemma_split_no_newline_single(s: Seq<char>)
    requires
        !s.contains('\n'),
    ensures
        split_lines_spec(s) =~~= seq![s],
    decreases s.len(),
{
    if s.len() == 0 {
        assert(seq![Seq::<char>::empty()] =~~= seq![s]);
    } else {
        assert(!s.drop_last().contains('\n')) by {
            if s.drop_last().contains('\n') {
                let k = choose|k: int|
                    0 <= k < s.drop_last().len() && s.drop_last()[k] == '\n';
                assert(s[k] == '\n');
            }
        }
        lemma_split_no_newline_single(s.drop_last());
        assert(s.last() != '\n') by {
            if s.last() == '\n' {
                assert(s[s.len() - 1] == '\n');
            }
        }
        assert(s.drop_last().push(s.last()) =~= s);
        assert(split_lines_spec(s) =~~= seq![s]);
    }
}

/// A trimmed text starts with no whitespace.
proof fn lemma_trim_start_no_leading(s: Seq<char>)
    ensures
        trim_start_spec(s).len() > 0 ==> !is_space_char(trim_start_spec(s).first()),
    decreases s.len(),
{
    if s.len() > 0 && is_space_char(s.first()) {
        lemma_trim_start_no_leading(s.drop_first());
    }
}

/// A trimmed text ends with no whitespace.
proof fn lemma_trim_end_no_trailing(t: Seq<char>)
    ensures
        trim_end_spec(t).len() > 0 ==> !is_space_char(trim_end_spec(t).last()),
    decreases t.len(),
{
    if t.len() > 0 && is_space_char(t.last()) {
        lemma_trim_end_no_trailing(t.drop_last());
    }
}

/// Trimming the end leaves the first character in place.
proof fn lemma_trim_end_keeps_first(t: Seq<char>)
    ensures
        trim_end_spec(t).len() > 0 ==> t.len() > 0 && trim_end_spec(t).first() == t.first(),
    decreases t.len(),
{
    if t.len() > 0 && is_space_char(t.last()) {
        lemma_trim_end_keeps_first(t.drop_last());
        if trim_end_spec(t).len() > 0 {
            assert(t.drop_last().first() == t.first());
        }
    }
}

/// Whatever character survives trimming the start was in the text.
proof fn lemma_trim_start_keeps_chars(s: Seq<char>, c: char)
    ensures
        trim_start_spec(s).contains(c) ==> s.contains(c),
    decreases s.len(),
{
    if s.len() > 0 && is_space_char(s.first()) {
        lemma_trim_start_keeps_chars(s.drop_first(), c);
        if trim_start_spec(s).contains(c) {
            assert(s.drop_first().contains(c));
            let k = choose|k: int| 0 <= k < s.drop_first().len() && s.drop_first()[k] == c;
            assert(s[k + 1] == c);
        }
    }
}

/// Whatever character survives trimming the end was in the text.
proof fn lemma_trim_end_keeps_chars(t: Seq<char>, c: char)
    ensures
        trim_end_spec(t).contains(c) ==> t.contains(c),
    decreases t.len(),
{
    if t.len() > 0 && is_space_char(t.last()) {
        lemma_trim_end_keeps_chars(t.drop_last(), c);
        if trim_end_spec(t).contains(c) {
            assert(t.drop_last().contains(c));
            let k = choose|k: int| 0 <= k < t.drop_last().len() && t.drop_last()[k] == c;
            assert(t[k] == c);
        }
    }
}

/// Whatever character survives trimming was in the text.
proof fn lemma_trim_keeps_chars(s: Seq<char>, c: char)
    ensures
        trim_spec(s).contains(c) ==> s.contains(c),
{
    lemma_trim_end_keeps_chars(trim_start_spec(s), c);
    lemma_trim_start_keeps_chars(s, c);
}

/// LAW: trimming is idempotent: a trimmed text trims to itself.
pub proof fn lemma_trim_idempotent(s: Seq<char>)
    ensures
        trim_spec(trim_spec(s)) == trim_spec(s),
{
    let u = trim_spec(s);
    lemma_trim_start_no_leading(s);
    lemma_trim_end_keeps_first(trim_start_spec(s));
    lemma_trim_end_no_trailing(trim_start_spec(s));
    assert(trim_start_spec(u) == u);
    assert(trim_end_spec(u) == u);
}

/// LAW: the normalizer is idempotent: feeding its own output back in as the
/// entries yields the same set, for any target that is itself trimmed and
/// holds no line feed (a hostname always is).
pub proof fn lemma_normalizer_idempotent(
    entries: Seq<Seq<char>>,
    target: Seq<char>,
    mid: Seq<Seq<char>>,
)
    requires
        trim_spec(target) == target,
        !target.contains('\n'),
        forall|p: Seq<char>|
            #[trigger] mid.contains(p) <==> normalized_set(entries, target).contains(p),
    ensures
        normalized_set(mid, target) =~= normalized_set(entries, target),
{
    assert forall|p: Seq<char>|
        normalized_set(entries, target).contains(p) implies normalized_set(mid, target).contains(
        p,
    ) by {
        if p != target {
            let (i2, j2) = choose|i2: int, j2: int|
                0 <= i2 < entries.len() && 0 <= j2 < split_lines_spec(entries[i2]).len() && p
                    == trim_spec(#[trigger] split_lines_spec(entries[i2])[j2]);
            let x = split_lines_spec(entries[i2])[j2];
            lemma_split_pieces_no_newline(entries[i2]);
            lemma_trim_keeps_chars(x, '\n');
            lemma_trim_idempotent(x);
            assert(mid.contains(p));
            let w = choose|w: int| 0 <= w < mid.len() && mid[w] == p;
            lemma_split_no_newline_single(p);
            assert(split_lines_spec(mid[w])[0] == p);
            assert(0 <= w < mid.len() && 0 <= 0 < split_lines_spec(mid[w]).len() && p
                == trim_spec(split_lines_spec(mid[w])[0]));
            assert(is_candidate_piece(mid, p));
        }
    }
    assert forall|p: Seq<char>|
        normalized_set(mid, target).contains(p) implies normalized_set(entries, target).contains(
        p,
    ) by {
        if p != target {
            let (i2, j2) = choose|i2: int, j2: int|
                0 <= i2 < mid.len() && 0 <= j2 < split_lines_spec(mid[i2]).len() && p == trim_spec(
                    #[trigger] split_lines_spec(mid[i2])[j2],
                );
            let q = mid[i2];
            assert(mid.contains(q));
            if q == target {
                lemma_split_no_newline_single(q);
                assert(split_lines_spec(q).len() == 1);
                assert(p == trim_spec(target));
                assert(false);
            } else {
                let (i3, j3) = choose|i3: int, j3: int|
                    0 <= i3 < entries.len() && 0 <= j3 < split_lines_spec(entries[i3]).len() && q
                        == trim_spec(#[trigger] split_lines_spec(entries[i3])[j3]);
                let x = split_lines_spec(entries[i3])[j3];
                lemma_split_pieces_no_newline(entries[i3]);
                lemma_trim_keeps_chars(x, '\n');
                lemma_trim_idempotent(x);
                lemma_split_no_newline_single(q);
                assert(split_lines_spec(q)[0] == q);
                assert(p == trim_spec(q));
                assert(p == q);
            }
        }
    }
}

/// LAW: the normalizer's output always contains the target itself, and every
/// other member was drawn from the entries, differs from the target, and holds
/// no wildcard marker.
pub proof fn lemma_normalized_set_shape(entries: Seq<Seq<char>>, target: Seq<char>)
    ensures
        normalized_set(entries, target).contains(target),
        forall|p: Seq<char>|
            normalized_set(entries, target).contains(p) && p != target ==> !p.contains('*')
                && is_candidate_piece(entries, p),
{
}

/// LAW: the normalizer is a pure function of the entries and the target: two
/// runs over the same entries yield the same set.
pub proof fn lemma_normalize_deterministic(
    r1: Seq<Seq<char>>,
    r2: Seq<Seq<char>>,
    entries: Seq<Seq<char>>,
    target: Seq<char>,
)
    requires
        forall|p: Seq<char>| r1.contains(p) <==> normalized_set(entries, target).contains(p),
        forall|p: Seq<char>| r2.contains(p) <==> normalized_set(entries, target).contains(p),
    ensures
        r1.to_set() =~= r2.to_set(),
{
    assert forall|p: Seq<char>| r1.to_set().contains(p) implies r2.to_set().contains(p) by {
        assert(r1.contains(p));
        assert(r2.contains(p));
    }
    assert forall|p: Seq<char>| r2.to_set().contains(p) implies r1.to_set().contains(p) by {
        assert(r2.contains(p));
        assert(r1.contains(p));
    }
}

/// LAW: with no certificate-transparency entries at all, the candidate set is
/// exactly the target: the run still probes the target rather than failing.
pub proof fn lemma_no_entries_still_probes_target(target: Seq<char>)
    ensures
        normalized_set(Seq::empty(), target) =~= set![target],
{
}

/// LAW: the resolution filter only keeps input candidates, and every kept one
/// resolved against the oracle.
pub proof fn lemma_filter_sound(cands: Seq<Seq<char>>, outs: Seq<DnsOutcome>)
    requires
        cands.len() == outs.len(),
    ensures
        forall|p: Seq<char>|
            #[trigger] resolved_domains(cands, outs).contains(p) ==> cands.contains(p),
        forall|p: Seq<char>|
            #[trigger] resolved_domains(cands, outs).contains(p) ==> exists|i: int|
                0 <= i < cands.len() && cands[i] == p && outcome_ok(outs[i]),
    decreases cands.len(),
{
    if cands.len() > 0 {
        lemma_filter_sound(cands.drop_last(), outs.drop_last());
        let rd = resolved_domains(cands, outs);
        let rest = resolved_domains(cands.drop_last(), outs.drop_last());
        assert forall|p: Seq<char>| #[trigger] rd.contains(p) implies cands.contains(p)
            && exists|i: int| 0 <= i < cands.len() && cands[i] == p && outcome_ok(outs[i]) by {
            let w = choose|w: int| 0 <= w < rd.len() && rd[w] == p;
            if outcome_ok(outs.last()) && w == rd.len() - 1 {
                assert(p == cands.last());
                assert(cands[cands.len() - 1] == p && outcome_ok(outs[cands.len() - 1]));
            } else {
                assert(rest[w] == p);
                assert(rest.contains(p));
                let i = choose|i: int|
                    0 <= i < cands.drop_last().len() && cands.drop_last()[i] == p && outcome_ok(
                        outs.drop_last()[i],
                    );
                assert(cands[i] == p && outcome_ok(outs[i]));
            }
        }
    }
}

/// LAW: a candidate that never resolves is absent from the filter's output.
pub proof fn lemma_unresolved_candidate_absent(
    cands: Seq<Seq<char>>,
    outs: Seq<DnsOutcome>,
    p: Seq<char>,
)
    requires
        cands.len() == outs.len(),
        forall|i: int| 0 <= i < cands.len() && #[trigger] cands[i] == p ==> !outcome_ok(outs[i]),
    ensures
        !resolved_domains(cands, outs).contains(p),
{
    lemma_filter_sound(cands, outs);
    if resolved_domains(cands, outs).contains(p) {
        let i = choose|i: int|
            0 <= i < cands.len() && cands[i] == p && outcome_ok(outs[i]);
        assert(!outcome_ok(outs[i]));
    }
}

/// LAW: the filter reads nothing of an outcome but whether it resolved; in
/// particular a timed-out lookup and one that found no record act identically.
pub proof fn lemma_filter_depends_only_on_resolution(
    cands: Seq<Seq<char>>,
    outs1: Seq<DnsOutcome>,
    outs2: Seq<DnsOutcome>,
)
    requires
        outs1.len() == outs2.len(),
        forall|i: int|
            0 <= i < outs1.len() ==> outcome_ok(#[trigger] outs1[i]) == outcome_ok(outs2[i]),
    ensures
        resolved_domains(cands, outs1) == resolved_domains(cands, outs2),
        !outcome_ok(DnsOutcome::TimedOut) && !outcome_ok(DnsOutcome::NoAddresses),
    decreases cands.len(),
{
    if cands.len() > 0 && outs1.len() > 0 {
        assert(forall|i: int|
            0 <= i < outs1.drop_last().len() ==> outcome_ok(#[trigger] outs1.drop_last()[i])
                == outcome_ok(outs2.drop_last()[i]));
        lemma_filter_depends_only_on_resolution(cands.drop_last(), outs1.drop_last(),
            outs2.drop_last());
        assert(outcome_ok(outs1.last()) == outcome_ok(outs2[outs2.len() - 1]));
    }
}

/// LAW: the filter never invents a duplicate: distinct candidates stay
/// distinct, so no two resolved hosts share a domain.
pub proof fn lemma_filter_keeps_uniqueness(cands: Seq<Seq<char>>, outs: Seq<DnsOutcome>)
    requires
        cands.len() == outs.len(),
        no_dup_seq(cands),
    ensures
        no_dup_seq(resolved_domains(cands, outs)),
    decreases cands.len(),
{
    if cands.len() > 0 {
        assert(no_dup_seq(cands.drop_last()));
        lemma_filter_keeps_uniqueness(cands.drop_last(), outs.drop_last());
        let rest = resolved_domains(cands.drop_last(), outs.drop_last());
        lemma_filter_sound(cands.drop_last(), outs.drop_last());
        if outcome_ok(outs.last()) {
            let rd = resolved_domains(cands, outs);
            assert forall|i: int, j: int| 0 <= i < j < rd.len() implies rd[i] != rd[j] by {
                if j == rd.len() - 1 {
                    assert(rd[j] == cands.last());
                    assert(rest.contains(rd[i]));
                    let w = choose|w: int|
                        0 <= w < cands.drop_last().len() && cands.drop_last()[w] == rd[i]
                            && outcome_ok(outs.drop_last()[w]);
                    assert(cands[w] == rd[i]);
                    assert(cands[cands.len() - 1] == cands.last());
                } else {
                    assert(rest[i] == rd[i] && rest[j] == rd[j]);
                }
            }
        }
    }
}

} // verus!
