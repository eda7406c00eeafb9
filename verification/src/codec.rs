//! Byte framing for a dequeued item.
//!
//! A dequeued item crosses the boundary as the bytes of a single
//! `{"order":N,"payload":P}` object, where `N` is the decimal rendering of
//! the item's order and `P` is the item's payload, an opaque JSON blob the
//! core carries through unchanged.

use vstd::prelude::*;

use crate::pipeline::PipelineItem;

verus! {

/// The decimal digits of `n`, most significant first, as ASCII bytes.
pub open spec fn dec_rep(n: nat) -> Seq<u8>
    decreases n,
{
    if n < 10 {
        seq![(48 + n) as u8]
    } else {
        dec_rep(n / 10).push((48 + n % 10) as u8)
    }
}

/// The bytes of `{"order":`, the opening of the framed record.
pub open spec fn frame_prefix() -> Seq<u8> {
    seq![123u8, 34u8, 111u8, 114u8, 100u8, 101u8, 114u8, 34u8, 58u8]
}

/// The bytes of `,"payload":`, between the order digits and the payload.
pub open spec fn frame_infix() -> Seq<u8> {
    seq![44u8, 34u8, 112u8, 97u8, 121u8, 108u8, 111u8, 97u8, 100u8, 34u8, 58u8]
}

/// The framed record for an item: `{"order":` + digits + `,"payload":` +
/// payload + `}`.
pub open spec fn frame_bytes(order: nat, payload: Seq<u8>) -> Seq<u8> {
    frame_prefix() + dec_rep(order) + frame_infix() + payload + seq![125u8]
}

/// Every byte of a decimal rendering is an ASCII digit, and there is at
/// least one.
proof fn lemma_dec_rep_digits(n: nat)
    ensures
        dec_rep(n).len() >= 1,
        forall|i: int| 0 <= i < dec_rep(n).len() ==> 48 <= #[trigger] dec_rep(n)[i] <= 57,
    decreases n,
{
    if n >= 10 {
        lemma_dec_rep_digits(n / 10);
        assert forall|i: int| 0 <= i < dec_rep(n).len() implies 48 <= #[trigger] dec_rep(n)[i]
            <= 57 by {
            if i < dec_rep(n / 10).len() {
                assert(dec_rep(n)[i] == dec_rep(n / 10)[i]);
            } else {
                assert(dec_rep(n)[i] == (48 + n % 10) as u8);
            }
        }
    }
}

/// Equal decimal renderings come from equal numbers.
proof fn lemma_dec_rep_injective(a: nat, b: nat)
    requires
        dec_rep(a) == dec_rep(b),
    ensures
        a == b,
    decreases a,
{
    lemma_dec_rep_digits(a);
    lemma_dec_rep_digits(b);
    if a < 10 && b < 10 {
        assert(dec_rep(a)[0] == (48 + a) as u8);
        assert(dec_rep(b)[0] == (48 + b) as u8);
    } else if a >= 10 && b >= 10 {
        assert(dec_rep(a).last() == (48 + a % 10) as u8);
        assert(dec_rep(b).last() == (48 + b % 10) as u8);
        assert(a % 10 == b % 10);
        assert(dec_rep(a).drop_last() =~= dec_rep(a / 10));
        assert(dec_rep(b).drop_last() =~= dec_rep(b / 10));
        lemma_dec_rep_injective(a / 10, b / 10);
    } else if a < 10 {
        assert(dec_rep(a).len() == 1);
        assert(dec_rep(b).len() == dec_rep(b / 10).len() + 1);
    } else {
        assert(dec_rep(b).len() == 1);
        assert(dec_rep(a).len() == dec_rep(a / 10).len() + 1);
    }
}

/// Where each segment of the framed record sits.
proof fn lemma_frame_layout(o: nat, p: Seq<u8>)
    ensures
        frame_bytes(o, p).len() == 9 + dec_rep(o).len() + 11 + p.len() + 1,
        forall|i: int|
            0 <= i < dec_rep(o).len() ==> #[trigger] frame_bytes(o, p)[9 + i] == dec_rep(o)[i],
        forall|i: int|
            0 <= i < 11 ==> #[trigger] frame_bytes(o, p)[9 + dec_rep(o).len() + i]
                == frame_infix()[i],
        forall|i: int|
            0 <= i < p.len() ==> #[trigger] frame_bytes(o, p)[9 + dec_rep(o).len() + 11 + i]
                == p[i],
{
    let d = dec_rep(o);
    let a1 = frame_prefix() + d;
    let a2 = a1 + frame_infix();
    let a3 = a2 + p;
    let s = a3 + seq![125u8];
    assert(frame_bytes(o, p) == s);
    assert forall|i: int| 0 <= i < d.len() implies #[trigger] frame_bytes(o, p)[9 + i]
        == d[i] by {
        assert(a1[9 + i] == d[i]);
        assert(a2[9 + i] == a1[9 + i]);
        assert(a3[9 + i] == a2[9 + i]);
        assert(s[9 + i] == a3[9 + i]);
    }
    assert forall|i: int| 0 <= i < 11 implies #[trigger] frame_bytes(o, p)[9 + d.len() + i]
        == frame_infix()[i] by {
        assert(a2[9 + d.len() + i] == frame_infix()[i]);
        assert(a3[9 + d.len() + i] == a2[9 + d.len() + i]);
        assert(s[9 + d.len() + i] == a3[9 + d.len() + i]);
    }
    assert forall|i: int| 0 <= i < p.len() implies #[trigger] frame_bytes(o, p)[9 + d.len() + 11
        + i] == p[i] by {
        assert(a3[9 + d.len() + 11 + i] == p[i]);
        assert(s[9 + d.len() + 11 + i] == a3[9 + d.len() + 11 + i]);
    }
}

/// The frame loses no information: two items with the same framed record
/// have the same order and the same payload, so a decoder that reads the
/// record back recovers the item exactly.
pub proof fn lemma_frame_bytes_injective(o1: nat, p1: Seq<u8>, o2: nat, p2: Seq<u8>)
    requires
        frame_bytes(o1, p1) == frame_bytes(o2, p2),
    ensures
        o1 == o2,
        p1 == p2,
{
    let d1 = dec_rep(o1);
    let d2 = dec_rep(o2);
    lemma_dec_rep_digits(o1);
    lemma_dec_rep_digits(o2);
    lemma_frame_layout(o1, p1);
    lemma_frame_layout(o2, p2);
    if d1.len() < d2.len() {
        let i = d1.len() as int;
        assert(frame_bytes(o1, p1)[9 + d1.len() as int + 0] == frame_infix()[0]);
        assert(frame_bytes(o2, p2)[9 + i] == d2[i]);
        assert(48 <= d2[i] <= 57);
        assert(false);
    }
    if d2.len() < d1.len() {
        let i = d2.len() as int;
        assert(frame_bytes(o2, p2)[9 + d2.len() as int + 0] == frame_infix()[0]);
        assert(frame_bytes(o1, p1)[9 + i] == d1[i]);
        assert(48 <= d1[i] <= 57);
        assert(false);
    }
    assert forall|i: int| 0 <= i < d1.len() implies d1[i] == d2[i] by {
        assert(frame_bytes(o1, p1)[9 + i] == d1[i]);
        assert(frame_bytes(o2, p2)[9 + i] == d2[i]);
    }
    assert(d1 =~= d2);
    lemma_dec_rep_injective(o1, o2);
    assert(p1.len() == p2.len());
    assert forall|i: int| 0 <= i < p1.len() implies p1[i] == p2[i] by {
        assert(frame_bytes(o1, p1)[9 + d1.len() + 11 + i] == p1[i]);
        assert(frame_bytes(o2, p2)[9 + d2.len() + 11 + i] == p2[i]);
    }
    assert(p1 =~= p2);
}

/// Renders `n` in decimal, most significant digit first.
fn format_order(n: usize) -> (r: Vec<u8>)
    ensures
        r@ == dec_rep(n as nat),
    decreases n,
{
    if n < 10 {
        let mut r: Vec<u8> = Vec::new();
        r.push(48 + (n as u8));
        assert(r@ =~= dec_rep(n as nat));
        r
    } else {
        let mut r = format_order(n / 10);
        r.push(48 + ((n % 10) as u8));
        assert(r@ =~= dec_rep(n as nat));
        r
    }
}

/// Encodes an item as the bytes of one `{"order":N,"payload":P}` object.
pub fn encode_item(item: &PipelineItem) -> (r: Vec<u8>)
    ensures
        r@ == frame_bytes(item.order as nat, item.payload@),
{
    let mut r: Vec<u8> = Vec::new();
    r.push(123);
    r.push(34);
    r.push(111);
    r.push(114);
    r.push(100);
    r.push(101);
    r.push(114);
    r.push(34);
    r.push(58);
    assert(r@ =~= frame_prefix());
    let mut digits = format_order(item.order);
    r.append(&mut digits);
    r.push(44);
    r.push(34);
    r.push(112);
    r.push(97);
    r.push(121);
    r.push(108);
    r.push(111);
    r.push(97);
    r.push(100);
    r.push(34);
    r.push(58);
    assert(r@ =~= frame_prefix() + dec_rep(item.order as nat) + frame_infix());
    let ghost before_payload = r@;
    let mut i: usize = 0;
    while i < item.payload.len()
        invariant
            i <= item.payload@.len(),
            r@ == before_payload + item.payload@.take(i as int),
        decreases item.payload@.len() - i,
    {
        r.push(item.payload[i]);
        i += 1;
        assert(r@ =~= before_payload + item.payload@.take(i as int));
    }
    assert(item.payload@.take(item.payload@.len() as int) =~= item.payload@);
    r.push(125);
    assert(r@ =~= frame_bytes(item.order as nat, item.payload@));
    r
}

} // verus!
