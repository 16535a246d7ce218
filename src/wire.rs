//! The byte layout of an envelope on the wire, and the facts about it that
//! decoding relies on.
//!
//! An envelope with identifier 7 and payload bytes 104, 105 is sent as the
//! ASCII text `{"id":7,"payload":[104,105]}`: a JSON object whose numbers are
//! written in decimal without leading zeros and without spaces.
use vstd::prelude::*;

verus! {

pub open spec fn is_digit(b: u8) -> bool {
    48 <= b <= 57
}

/// The decimal digits of `n`, most significant first, with no leading zero.
pub open spec fn decimal(n: nat) -> Seq<u8>
    decreases n,
{
    if n < 10 {
        seq![(48 + n) as u8]
    } else {
        decimal(n / 10).push((48 + n % 10) as u8)
    }
}

/// The number that a run of decimal digits denotes.
pub open spec fn digits_value(s: Seq<u8>) -> nat
    decreases s.len(),
{
    if s.len() == 0 {
        0
    } else {
        digits_value(s.drop_last()) * 10 + (s.last() as int - 48) as nat
    }
}

/// The payload bytes after the first one, each written as `,` and its decimal.
pub open spec fn more_bytes(p: Seq<u8>) -> Seq<u8>
    decreases p.len(),
{
    if p.len() == 0 {
        seq![]
    } else {
        seq![44u8] + decimal(p[0] as nat) + more_bytes(p.drop_first())
    }
}

/// The payload bytes as decimals separated by commas.
pub open spec fn byte_list(p: Seq<u8>) -> Seq<u8> {
    if p.len() == 0 {
        seq![]
    } else {
        decimal(p[0] as nat) + more_bytes(p.drop_first())
    }
}

/// `{"id":`
pub open spec fn id_prefix() -> Seq<u8> {
    seq![123u8, 34, 105, 100, 34, 58]
}

/// `,"payload":[`
pub open spec fn payload_prefix() -> Seq<u8> {
    seq![44u8, 34, 112, 97, 121, 108, 111, 97, 100, 34, 58, 91]
}

/// `]}`
pub open spec fn closing() -> Seq<u8> {
    seq![93u8, 125]
}

/// The encoding of the envelope with identifier `id` and payload `payload`.
pub open spec fn wire_format(id: u64, payload: Seq<u8>) -> Seq<u8> {
    id_prefix() + decimal(id as nat) + payload_prefix() + byte_list(payload) + closing()
}

/// Whether `b` is the encoding of some envelope.
pub open spec fn is_wire_format(b: Seq<u8>) -> bool {
    exists|e: (u64, Seq<u8>)| b == wire_format(e.0, e.1)
}

/// Where the run of digits that starts at `pos` ends.
pub open spec fn digit_run_end(b: Seq<u8>, pos: int) -> int
    decreases b.len() - pos,
{
    if 0 <= pos < b.len() && is_digit(b[pos]) {
        digit_run_end(b, pos + 1)
    } else {
        pos
    }
}

pub proof fn lemma_decimal(n: nat)
    ensures
        decimal(n).len() >= 1,
        forall|i: int| 0 <= i < decimal(n).len() ==> is_digit(#[trigger] decimal(n)[i]),
        digits_value(decimal(n)) == n,
    decreases n,
{
    if n >= 10 {
        lemma_decimal(n / 10);
        assert(decimal(n).drop_last() =~= decimal(n / 10));
        assert(n == (n / 10) * 10 + n % 10) by (nonlinear_arith);
        assert(decimal(n).last() as int == 48 + n % 10);
        assert(digits_value(decimal(n)) == digits_value(decimal(n / 10)) * 10 + n % 10);
    } else {
        assert(decimal(n).drop_last() =~= Seq::<u8>::empty());
        assert(decimal(n).last() as int == 48 + n);
        assert(digits_value(decimal(n)) == digits_value(Seq::<u8>::empty()) * 10 + n);
    }
}

/// A decimal followed by a non-digit is read back whole: two such texts that
/// agree were made from the same number, and agree after it.
pub proof fn lemma_decimal_split(a: nat, s: Seq<u8>, b: nat, t: Seq<u8>)
    requires
        decimal(a) + s == decimal(b) + t,
        s.len() == 0 || !is_digit(s[0]),
        t.len() == 0 || !is_digit(t[0]),
    ensures
        a == b,
        s == t,
{
    lemma_decimal(a);
    lemma_decimal(b);
    let x = decimal(a) + s;
    let la = decimal(a).len();
    let lb = decimal(b).len();
    if la < lb {
        assert(x[la as int] == decimal(b)[la as int]);
        assert(x[la as int] == s[0]);
    } else if lb < la {
        assert(x[lb as int] == decimal(a)[lb as int]);
        assert(x[lb as int] == t[0]);
    }
    assert(decimal(a) =~= x.take(la as int));
    assert(decimal(b) =~= x.take(lb as int));
    assert(s =~= x.skip(la as int));
    assert(t =~= x.skip(lb as int));
}

pub proof fn lemma_more_bytes_shape(p: Seq<u8>)
    ensures
        p.len() == 0 <==> more_bytes(p).len() == 0,
        p.len() > 0 ==> more_bytes(p)[0] == 44u8,
{
    if p.len() > 0 {
        lemma_decimal(p[0] as nat);
    }
}

proof fn lemma_more_bytes_injective(p: Seq<u8>, q: Seq<u8>)
    requires
        more_bytes(p) == more_bytes(q),
    ensures
        p == q,
    decreases p.len(),
{
    lemma_more_bytes_shape(p);
    lemma_more_bytes_shape(q);
    if p.len() > 0 {
        let rp = more_bytes(p.drop_first());
        let rq = more_bytes(q.drop_first());
        lemma_more_bytes_shape(p.drop_first());
        lemma_more_bytes_shape(q.drop_first());
        assert(decimal(p[0] as nat) + rp =~= more_bytes(p).drop_first());
        assert(decimal(q[0] as nat) + rq =~= more_bytes(q).drop_first());
        lemma_decimal_split(p[0] as nat, rp, q[0] as nat, rq);
        lemma_more_bytes_injective(p.drop_first(), q.drop_first());
        assert(p =~= seq![p[0]] + p.drop_first());
        assert(q =~= seq![q[0]] + q.drop_first());
    }
}

proof fn lemma_byte_list_injective(p: Seq<u8>, q: Seq<u8>)
    requires
        byte_list(p) == byte_list(q),
    ensures
        p == q,
{
    if p.len() > 0 {
        lemma_decimal(p[0] as nat);
    }
    if q.len() > 0 {
        lemma_decimal(q[0] as nat);
    }
    if p.len() > 0 && q.len() > 0 {
        lemma_more_bytes_shape(p.drop_first());
        lemma_more_bytes_shape(q.drop_first());
        lemma_decimal_split(
            p[0] as nat,
            more_bytes(p.drop_first()),
            q[0] as nat,
            more_bytes(q.drop_first()),
        );
        lemma_more_bytes_injective(p.drop_first(), q.drop_first());
        assert(p =~= seq![p[0]] + p.drop_first());
        assert(q =~= seq![q[0]] + q.drop_first());
    }
}

/// Decoding an encoded envelope gives that envelope back: no two envelopes
/// share an encoding.
pub proof fn lemma_round_trip(id1: u64, p1: Seq<u8>, id2: u64, p2: Seq<u8>)
    requires
        wire_format(id1, p1) == wire_format(id2, p2),
    ensures
        id1 == id2,
        p1 == p2,
{
    let w1 = wire_format(id1, p1);
    let w2 = wire_format(id2, p2);
    let s1 = payload_prefix() + byte_list(p1) + closing();
    let s2 = payload_prefix() + byte_list(p2) + closing();
    assert(w1.skip(6) =~= decimal(id1 as nat) + s1);
    assert(w2.skip(6) =~= decimal(id2 as nat) + s2);
    assert(s1[0] == 44u8);
    assert(s2[0] == 44u8);
    lemma_decimal_split(id1 as nat, s1, id2 as nat, s2);
    assert(byte_list(p1) =~= s1.subrange(12, s1.len() - 2));
    assert(byte_list(p2) =~= s2.subrange(12, s2.len() - 2));
    lemma_byte_list_injective(p1, p2);
}

} // verus!
