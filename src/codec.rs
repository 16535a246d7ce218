//! Encoding and decoding of envelopes, against the layout of `wire`.
use vstd::prelude::*;

use crate::message::GossipMessage;
use crate::wire::{
    byte_list, closing, decimal, digit_run_end, digits_value, id_prefix, is_digit,
    is_wire_format, lemma_decimal, lemma_more_bytes_shape, lemma_round_trip, more_bytes, payload_prefix, wire_format,
};

verus! {

/// Bytes that do not form an envelope.
#[derive(Debug, Clone, Copy, PartialEq, Eq, Structural)]
pub enum DecodeError {
    Malformed,
}

proof fn lemma_more_bytes_push(q: Seq<u8>, x: u8)
    ensures
        more_bytes(q.push(x)) == more_bytes(q) + seq![44u8] + decimal(x as nat),
    decreases q.len(),
{
    if q.len() == 0 {
        assert(q.push(x).drop_first() =~= Seq::<u8>::empty());
        assert(q.push(x)[0] == x);
        assert(more_bytes(Seq::<u8>::empty()) == Seq::<u8>::empty());
        assert(more_bytes(q) == Seq::<u8>::empty());
        assert(more_bytes(q.push(x)) =~= more_bytes(q) + seq![44u8] + decimal(x as nat));
    } else {
        assert(q.push(x).drop_first() =~= q.drop_first().push(x));
        lemma_more_bytes_push(q.drop_first(), x);
        assert(more_bytes(q.push(x)) =~= more_bytes(q) + seq![44u8] + decimal(x as nat));
    }
}

proof fn lemma_byte_list_push(q: Seq<u8>, x: u8)
    ensures
        byte_list(q.push(x)) == if q.len() == 0 {
            decimal(x as nat)
        } else {
            byte_list(q) + seq![44u8] + decimal(x as nat)
        },
{
    if q.len() == 0 {
        assert(q.push(x).drop_first() =~= Seq::<u8>::empty());
        assert(byte_list(q.push(x)) =~= decimal(x as nat));
    } else {
        assert(q.push(x).drop_first() =~= q.drop_first().push(x));
        lemma_more_bytes_push(q.drop_first(), x);
        assert(byte_list(q.push(x)) =~= byte_list(q) + seq![44u8] + decimal(x as nat));
    }
}

/// Every digit in `[p, q)` and none at `q`: the run that starts at `p` ends at `q`.
proof fn lemma_run_end(b: Seq<u8>, p: int, q: int)
    requires
        0 <= p <= q <= b.len(),
        forall|i: int| p <= i < q ==> is_digit(b[i]),
        q == b.len() || !is_digit(b[q]),
    ensures
        digit_run_end(b, p) == q,
    decreases q - p,
{
    if p < q {
        lemma_run_end(b, p + 1, q);
    }
}

/// Where the bytes from `pos` on are a decimal followed by no digit, a scan from
/// `pos` reads exactly that decimal.
proof fn lemma_scan_decimal(b: Seq<u8>, pos: int, n: nat, rest: Seq<u8>)
    requires
        0 <= pos <= b.len(),
        b.skip(pos) == decimal(n) + rest,
        rest.len() == 0 || !is_digit(rest[0]),
    ensures
        digit_run_end(b, pos) == pos + decimal(n).len(),
        b.subrange(pos, pos + decimal(n).len()) == decimal(n),
        b.skip(pos + decimal(n).len()) == rest,
        digits_value(decimal(n)) == n,
{
    lemma_decimal(n);
    let l = decimal(n).len() as int;
    assert forall|i: int| pos <= i < pos + l implies is_digit(b[i]) by {
        assert(b[i] == b.skip(pos)[i - pos]);
        assert(b.skip(pos)[i - pos] == decimal(n)[i - pos]);
    }
    if pos + l < b.len() {
        assert(b[pos + l] == b.skip(pos)[l]);
    }
    lemma_run_end(b, pos, pos + l);
    assert(b.subrange(pos, pos + l) =~= b.skip(pos).take(l));
    assert((decimal(n) + rest).take(l) =~= decimal(n));
    assert(b.skip(pos + l) =~= b.skip(pos).skip(l));
    assert((decimal(n) + rest).skip(l) =~= rest);
}

proof fn lemma_skip_concat(a: Seq<u8>, b: Seq<u8>)
    ensures
        (a + b).skip(a.len() as int) == b,
        (a + b).take(a.len() as int) == a,
{
    assert((a + b).skip(a.len() as int) =~= b);
    assert((a + b).take(a.len() as int) =~= a);
}

fn push_all(out: &mut Vec<u8>, s: &Vec<u8>)
    ensures
        final(out)@ == old(out)@ + s@,
{
    let mut i: usize = 0;
    while i < s.len()
        invariant
            i <= s@.len(),
            out@ == old(out)@ + s@.take(i as int),
        decreases s@.len() - i,
    {
        out.push(s[i]);
        assert(s@.take(i + 1) =~= s@.take(i as int).push(s@[i as int]));
        i = i + 1;
    }
    assert(s@.take(i as int) =~= s@);
}

fn push_decimal(out: &mut Vec<u8>, n: u64)
    ensures
        final(out)@ == old(out)@ + decimal(n as nat),
    decreases n,
{
    if n >= 10 {
        push_decimal(out, n / 10);
    }
    out.push((48 + n % 10) as u8);
    if n >= 10 {
        assert(decimal(n as nat) == decimal((n / 10) as nat).push((48 + n % 10) as u8));
    }
    assert(final(out)@ =~= old(out)@ + decimal(n as nat));
}

fn id_prefix_bytes() -> (r: Vec<u8>)
    ensures
        r@ == id_prefix(),
{
    let mut v: Vec<u8> = Vec::new();
    v.push(123);
    v.push(34);
    v.push(105);
    v.push(100);
    v.push(34);
    v.push(58);
    assert(v@ =~= id_prefix());
    v
}

fn payload_prefix_bytes() -> (r: Vec<u8>)
    ensures
        r@ == payload_prefix(),
{
    let mut v: Vec<u8> = Vec::new();
    v.push(44);
    v.push(34);
    v.push(112);
    v.push(97);
    v.push(121);
    v.push(108);
    v.push(111);
    v.push(97);
    v.push(100);
    v.push(34);
    v.push(58);
    v.push(91);
    assert(v@ =~= payload_prefix());
    v
}

fn closing_bytes() -> (r: Vec<u8>)
    ensures
        r@ == closing(),
{
    let mut v: Vec<u8> = Vec::new();
    v.push(93);
    v.push(125);
    assert(v@ =~= closing());
    v
}

/// The wire encoding of `msg`.
pub fn encode(msg: &GossipMessage) -> (r: Vec<u8>)
    ensures
        r@ == wire_format(msg.id, msg.payload@),
{
    let mut out: Vec<u8> = Vec::new();
    push_all(&mut out, &id_prefix_bytes());
    push_decimal(&mut out, msg.id);
    push_all(&mut out, &payload_prefix_bytes());
    let ghost start = out@;
    let mut i: usize = 0;
    while i < msg.payload.len()
        invariant
            i <= msg.payload@.len(),
            out@ == start + byte_list(msg.payload@.take(i as int)),
        decreases msg.payload@.len() - i,
    {
        let b = msg.payload[i];
        if i > 0 {
            out.push(44);
        }
        push_decimal(&mut out, b as u64);
        proof {
            let q = msg.payload@.take(i as int);
            assert(msg.payload@.take(i + 1) =~= q.push(b));
            lemma_byte_list_push(q, b);
            if i == 0 {
                assert(q =~= Seq::<u8>::empty());
            }
        }
        assert(out@ =~= start + byte_list(msg.payload@.take(i + 1)));
        i = i + 1;
    }
    assert(msg.payload@.take(i as int) =~= msg.payload@);
    push_all(&mut out, &closing_bytes());
    assert(out@ =~= wire_format(msg.id, msg.payload@));
    out
}

/// Where the bytes from `pos` on start with `lit`, they match it there.
proof fn lemma_literal_at(b: Seq<u8>, pos: int, lit: Seq<u8>, rest: Seq<u8>)
    requires
        0 <= pos <= b.len(),
        b.skip(pos) == lit + rest,
    ensures
        pos + lit.len() <= b.len(),
        b.subrange(pos, pos + lit.len()) == lit,
        b.skip(pos + lit.len()) == rest,
{
    assert(b.skip(pos).len() == b.len() - pos);
    assert(b.subrange(pos, pos + lit.len()) =~= b.skip(pos).take(lit.len() as int));
    lemma_skip_concat(lit, rest);
    assert(b.skip(pos + lit.len()) =~= b.skip(pos).skip(lit.len() as int));
}

fn matches_at(b: &[u8], pos: usize, lit: &Vec<u8>) -> (r: bool)
    requires
        pos <= b@.len(),
    ensures
        r == (pos + lit@.len() <= b@.len() && b@.subrange(pos as int, pos + lit@.len()) == lit@),
{
    if lit.len() > b.len() - pos {
        return false;
    }
    let bl = b.len();
    let mut i: usize = 0;
    while i < lit.len()
        invariant
            i <= lit@.len(),
            bl == b@.len(),
            pos + lit@.len() <= b@.len(),
            forall|j: int| 0 <= j < i ==> b@[pos + j] == lit@[j],
        decreases lit@.len() - i,
    {
        if b[pos + i] != lit[i] {
            assert(b@.subrange(pos as int, pos + lit@.len())[i as int] != lit@[i as int]);
            return false;
        }
        i = i + 1;
    }
    assert(b@.subrange(pos as int, pos + lit@.len()) =~= lit@);
    true
}

pub(crate) fn same_bytes(a: &[u8], b: &[u8]) -> (r: bool)
    ensures
        r == (a@ == b@),
{
    if a.len() != b.len() {
        return false;
    }
    let mut i: usize = 0;
    while i < a.len()
        invariant
            i <= a@.len(),
            a@.len() == b@.len(),
            forall|j: int| 0 <= j < i ==> a@[j] == b@[j],
        decreases a@.len() - i,
    {
        if a[i] != b[i] {
            return false;
        }
        i = i + 1;
    }
    assert(a@ =~= b@);
    true
}

/// Scans the run of decimal digits that starts at `pos`, and gives its value
/// where that fits in a `u64`.
fn scan_number(b: &[u8], pos: usize) -> (r: (usize, Option<u64>))
    requires
        pos <= b@.len(),
    ensures
        r.0 as int == digit_run_end(b@, pos as int),
        pos <= r.0 <= b@.len(),
        r.1 is Some <==> digits_value(b@.subrange(pos as int, r.0 as int)) <= u64::MAX,
        r.1 is Some ==> r.1->Some_0 as nat == digits_value(b@.subrange(pos as int, r.0 as int)),
{
    let mut i: usize = pos;
    let mut v: u64 = 0;
    let mut fits: bool = true;
    assert(b@.subrange(pos as int, pos as int) =~= Seq::<u8>::empty());
    while i < b.len() && 48 <= b[i] && b[i] <= 57
        invariant
            pos <= i <= b@.len(),
            digit_run_end(b@, pos as int) == digit_run_end(b@, i as int),
            fits ==> v as nat == digits_value(b@.subrange(pos as int, i as int)),
            !fits ==> digits_value(b@.subrange(pos as int, i as int)) > u64::MAX,
        decreases b@.len() - i,
    {
        let d: u8 = b[i] - 48;
        assert(b@.subrange(pos as int, i + 1).drop_last() =~= b@.subrange(pos as int, i as int));
        assert(digits_value(b@.subrange(pos as int, i + 1)) == digits_value(
            b@.subrange(pos as int, i as int),
        ) * 10 + d);
        if fits {
            match v.checked_mul(10) {
                Some(t) => {
                    match t.checked_add(d as u64) {
                        Some(u) => {
                            v = u;
                        },
                        None => {
                            fits = false;
                        },
                    }
                },
                None => {
                    fits = false;
                },
            }
        }
        i = i + 1;
    }
    if fits {
        (i, Some(v))
    } else {
        (i, None)
    }
}

/// Reads the identifier, up to the opening bracket of the payload.
fn parse_id(bytes: &[u8], Ghost(tid): Ghost<u64>, Ghost(tp): Ghost<Seq<u8>>) -> (r: Option<
    (u64, usize),
>)
    ensures
        r is Some ==> r->Some_0.1 <= bytes@.len(),
        bytes@ == wire_format(tid, tp) ==> (r is Some && r->Some_0.0 == tid && bytes@.skip(
            r->Some_0.1 as int,
        ) == byte_list(tp) + closing()),
{
    let ghost m = bytes@ == wire_format(tid, tp);
    let n = bytes.len();
    let ip = id_prefix_bytes();
    proof {
        if m {
            let after = payload_prefix() + byte_list(tp) + closing();
            assert(bytes@.skip(0) =~= id_prefix() + (decimal(tid as nat) + after));
            lemma_literal_at(bytes@, 0, id_prefix(), decimal(tid as nat) + after);
            lemma_scan_decimal(bytes@, 6, tid as nat, after);
        }
    }
    if !matches_at(bytes, 0, &ip) {
        return None;
    }
    let (e1, idv) = scan_number(bytes, 6);
    let id = match idv {
        Some(v) => v,
        None => {
            return None;
        },
    };
    let pp = payload_prefix_bytes();
    proof {
        if m {
            assert(payload_prefix() + byte_list(tp) + closing() =~= payload_prefix() + (byte_list(
                tp,
            ) + closing()));
            lemma_literal_at(bytes@, e1 as int, payload_prefix(), byte_list(tp) + closing());
        }
    }
    if !matches_at(bytes, e1, &pp) {
        return None;
    }
    assert(e1 + 12 <= bytes@.len());
    Some((id, e1 + 12))
}

/// Reads one payload byte written in decimal at `pos`.
fn parse_byte(bytes: &[u8], pos: usize, Ghost(x): Ghost<u8>, Ghost(rest): Ghost<Seq<u8>>) -> (r:
    Option<(u8, usize)>)
    requires
        pos <= bytes@.len(),
    ensures
        r is Some ==> pos <= r->Some_0.1 <= bytes@.len(),
        (bytes@.skip(pos as int) == decimal(x as nat) + rest && (rest.len() == 0 || !is_digit(
            rest[0],
        ))) ==> (r is Some && r->Some_0.0 == x && bytes@.skip(r->Some_0.1 as int) == rest),
{
    proof {
        if bytes@.skip(pos as int) == decimal(x as nat) + rest && (rest.len() == 0 || !is_digit(
            rest[0],
        )) {
            lemma_scan_decimal(bytes@, pos as int, x as nat, rest);
        }
    }
    let (e, v) = scan_number(bytes, pos);
    match v {
        Some(n) => {
            if n > 255 {
                None
            } else {
                Some((n as u8, e))
            }
        },
        None => None,
    }
}

/// Reads the payload bytes after the first, each preceded by a comma.
fn parse_more(bytes: &[u8], start: usize, payload: &mut Vec<u8>, Ghost(tp): Ghost<Seq<u8>>) -> (r:
    Option<usize>)
    requires
        start <= bytes@.len(),
        old(payload)@.len() <= tp.len(),
    ensures
        r is Some ==> r->Some_0 <= bytes@.len(),
        (old(payload)@ == tp.take(old(payload)@.len() as int) && bytes@.skip(start as int)
            == more_bytes(tp.skip(old(payload)@.len() as int)) + closing()) ==> (r is Some
            && final(payload)@ == tp && bytes@.skip(r->Some_0 as int) == closing()),
{
    let ghost m = payload@ == tp.take(payload@.len() as int) && bytes@.skip(start as int)
        == more_bytes(tp.skip(payload@.len() as int)) + closing();
    let n = bytes.len();
    let mut pos = start;
    while pos < n && bytes[pos] == 44
        invariant
            pos <= n,
            n == bytes@.len(),
            payload@.len() <= tp.len() || !m,
            m == (old(payload)@ == tp.take(old(payload)@.len() as int) && bytes@.skip(start as int)
                == more_bytes(tp.skip(old(payload)@.len() as int)) + closing()),
            m ==> (payload@ == tp.take(payload@.len() as int) && bytes@.skip(pos as int)
                == more_bytes(tp.skip(payload@.len() as int)) + closing()),
        decreases n - pos,
    {
        let ghost k = payload@.len() as int;
        proof {
            if m {
                assert(bytes@[pos as int] == bytes@.skip(pos as int)[0]);
                lemma_more_bytes_shape(tp.skip(k));
                if tp.skip(k).len() == 0 {
                    assert(more_bytes(tp.skip(k)) + closing() =~= closing());
                }
                assert(tp.skip(k).drop_first() =~= tp.skip(k + 1));
                lemma_more_bytes_shape(tp.skip(k + 1));
                let after = more_bytes(tp.skip(k + 1)) + closing();
                assert(more_bytes(tp.skip(k)) + closing() =~= seq![44u8] + (decimal(tp[k] as nat)
                    + after));
                lemma_literal_at(bytes@, pos as int, seq![44u8], decimal(tp[k] as nat) + after);
                if tp.skip(k + 1).len() > 0 {
                    assert(after[0] == 44u8);
                } else {
                    assert(after[0] == 93u8);
                }
            }
        }
        let ghost x = if m { tp[k] } else { 0u8 };
        let ghost after = if m { more_bytes(tp.skip(k + 1)) + closing() } else { seq![] };
        assert(m ==> bytes@.skip(pos + 1) == decimal(x as nat) + after);
        assert(m ==> !is_digit(after[0]));
        assert(m ==> after.len() > 0);
        match parse_byte(bytes, pos + 1, Ghost(x), Ghost(after)) {
            Some((b, e)) => {
                payload.push(b);
                pos = e;
            },
            None => {
                return None;
            },
        }
        proof {
            if m {
                assert(tp.take(k + 1) =~= tp.take(k).push(tp[k]));
            }
        }
    }
    proof {
        if m {
            let k = payload@.len() as int;
            lemma_more_bytes_shape(tp.skip(k));
            if tp.skip(k).len() > 0 {
                assert(bytes@[pos as int] == bytes@.skip(pos as int)[0]);
            }
            assert(tp.take(k) =~= tp);
            assert(more_bytes(tp.skip(k)) + closing() =~= closing());
        }
    }
    Some(pos)
}

/// Reads the payload bytes, from just after the opening bracket.
fn parse_payload(bytes: &[u8], pos: usize, Ghost(tp): Ghost<Seq<u8>>) -> (r: Option<
    (Vec<u8>, usize),
>)
    requires
        pos <= bytes@.len(),
    ensures
        r is Some ==> r->Some_0.1 <= bytes@.len(),
        bytes@.skip(pos as int) == byte_list(tp) + closing() ==> (r is Some && r->Some_0.0@ == tp
            && bytes@.skip(r->Some_0.1 as int) == closing()),
{
    let ghost m = bytes@.skip(pos as int) == byte_list(tp) + closing();
    let n = bytes.len();
    let mut payload: Vec<u8> = Vec::new();
    if pos < n && bytes[pos] != 93 {
        proof {
            if m {
                if tp.len() == 0 {
                    assert(byte_list(tp) + closing() =~= closing());
                    assert(bytes@[pos as int] == bytes@.skip(pos as int)[0]);
                }
                lemma_more_bytes_shape(tp.drop_first());
                assert(byte_list(tp) + closing() =~= decimal(tp[0] as nat) + (more_bytes(
                    tp.drop_first(),
                ) + closing()));
                assert(tp.drop_first() =~= tp.skip(1));
            }
        }
        let ghost x = if m { tp[0] } else { 0u8 };
        let ghost after = if m { more_bytes(tp.skip(1)) + closing() } else { seq![] };
        let e = match parse_byte(bytes, pos, Ghost(x), Ghost(after)) {
            Some((b, e)) => {
                payload.push(b);
                e
            },
            None => {
                return None;
            },
        };
        proof {
            if m {
                assert(payload@ =~= tp.take(1));
            }
        }
        let ghost tq = if m { tp } else { payload@ };
        match parse_more(bytes, e, &mut payload, Ghost(tq)) {
            Some(end) => Some((payload, end)),
            None => None,
        }
    } else {
        proof {
            if m {
                if tp.len() > 0 {
                    lemma_decimal(tp[0] as nat);
                    lemma_more_bytes_shape(tp.drop_first());
                    assert(byte_list(tp) + closing() =~= decimal(tp[0] as nat) + (more_bytes(
                        tp.drop_first(),
                    ) + closing()));
                    assert(bytes@.skip(pos as int).len() > 0);
                    assert(is_digit(decimal(tp[0] as nat)[0]));
                    assert(bytes@.skip(pos as int)[0] == decimal(tp[0] as nat)[0]);
                    assert(bytes@[pos as int] == bytes@.skip(pos as int)[0]);
                }
                assert(payload@ =~= tp);
                assert(byte_list(tp) + closing() =~= closing());
            }
        }
        Some((payload, pos))
    }
}

/// Reads the identifier and the payload bytes out of an encoding.
fn parse_fields(bytes: &[u8], Ghost(tid): Ghost<u64>, Ghost(tp): Ghost<Seq<u8>>) -> (r: Option<
    (u64, Vec<u8>),
>)
    ensures
        bytes@ == wire_format(tid, tp) ==> (r is Some && r->Some_0.0 == tid && r->Some_0.1@
            == tp),
{
    let (id, pos) = match parse_id(bytes, Ghost(tid), Ghost(tp)) {
        Some(x) => x,
        None => {
            return None;
        },
    };
    let (payload, end) = match parse_payload(bytes, pos, Ghost(tp)) {
        Some(x) => x,
        None => {
            return None;
        },
    };
    proof {
        if bytes@ == wire_format(tid, tp) {
            assert(closing() =~= closing() + Seq::<u8>::empty());
            lemma_literal_at(bytes@, end as int, closing(), Seq::<u8>::empty());
        }
    }
    let n = bytes.len();
    let cl = closing_bytes();
    if !matches_at(bytes, end, &cl) || end + 2 != n {
        return None;
    }
    Some((id, payload))
}

/// Decodes an envelope from its wire encoding; bytes that are the encoding
/// of no envelope are rejected.
pub fn decode(bytes: &[u8]) -> (r: Result<GossipMessage, DecodeError>)
    ensures
        r is Ok <==> is_wire_format(bytes@),
        r is Ok ==> bytes@ == wire_format(r->Ok_0.id, r->Ok_0.payload@),
        forall|id: u64, p: Seq<u8>|
            bytes@ == #[trigger] wire_format(id, p) ==> (r is Ok && r->Ok_0.id == id
                && r->Ok_0.payload@ == p),
{
    proof {
        assert forall|i: u64, p: Seq<u8>| bytes@ == #[trigger] wire_format(i, p) implies is_wire_format(
            bytes@,
        ) by {
            let w = (i, p);
            assert(bytes@ == wire_format(w.0, w.1));
        }
    }
    let ghost t = choose|e: (u64, Seq<u8>)| bytes@ == wire_format(e.0, e.1);
    match parse_fields(bytes, Ghost(t.0), Ghost(t.1)) {
        Some((id, payload)) => {
            let msg = GossipMessage { id, payload };
            let enc = encode(&msg);
            proof {
                if is_wire_format(bytes@) {
                    assert(bytes@ == wire_format(t.0, t.1));
                    assert(enc@ == bytes@);
                }
            }
            if same_bytes(enc.as_slice(), bytes) {
                proof {
                    assert forall|i: u64, p: Seq<u8>|
                        bytes@ == #[trigger] wire_format(i, p) implies (i == msg.id
                        && p == msg.payload@) by {
                        lemma_round_trip(i, p, msg.id, msg.payload@);
                    }
                    let w = (msg.id, msg.payload@);
                    assert(bytes@ == wire_format(w.0, w.1));
                }
                Ok(msg)
            } else {
                Err(DecodeError::Malformed)
            }
        },
        None => {
            proof {
                if is_wire_format(bytes@) {
                    assert(bytes@ == wire_format(t.0, t.1));
                }
            }
            Err(DecodeError::Malformed)
        },
    }
}

} // verus!
