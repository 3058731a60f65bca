//! The engine's wire encoding.
//!
//! Integers go in fixed little-endian form, sequence lengths as a
//! variable-length count (one byte below `0xfd`, otherwise a tag byte
//! followed by a 16-, 32- or 64-bit little-endian integer), byte strings
//! as a count followed by the raw bytes, and options as a tag byte
//! followed by the body.
//!
//! Every encoder is paired with a total specification decoder over byte
//! sequences, and the executable decoders are proved to return exactly
//! what the specification decoder returns.  Round-trip lemmas
//! (`lemma_dec_enc_*`) state that decoding an encoding, followed by
//! arbitrary trailing bytes, yields the original value.

use vstd::prelude::*;
use vstd::bytes::*;

use crate::error::Error;

verus! {

// ---------------------------------------------------------------------
// Specification encoders
// ---------------------------------------------------------------------

pub open spec fn enc_u8(x: u8) -> Seq<u8> {
    seq![x]
}

pub open spec fn enc_u64(x: u64) -> Seq<u8> {
    spec_u64_to_le_bytes(x)
}

/// Variable-length count: one byte below `0xfd`; `0xfd`, `0xfe`, `0xff`
/// tag a 16-, 32- or 64-bit little-endian integer.
pub open spec fn enc_varint(x: u64) -> Seq<u8> {
    if x < 0xfd {
        seq![x as u8]
    } else if x <= 0xffff {
        seq![0xfdu8] + spec_u16_to_le_bytes(x as u16)
    } else if x <= 0xffff_ffff {
        seq![0xfeu8] + spec_u32_to_le_bytes(x as u32)
    } else {
        seq![0xffu8] + spec_u64_to_le_bytes(x)
    }
}

/// A byte string: its length as a count, then the raw bytes.
pub open spec fn enc_bytes(s: Seq<u8>) -> Seq<u8> {
    enc_varint(s.len() as u64) + s
}

// ---------------------------------------------------------------------
// Specification decoders
//
// Each takes the remaining byte sequence and returns the decoded value
// together with the number of bytes consumed, or `None` when the bytes
// do not decode.
// ---------------------------------------------------------------------

pub open spec fn dec_u8(s: Seq<u8>) -> Option<(u8, int)> {
    if s.len() >= 1 {
        Some((s[0], 1int))
    } else {
        None
    }
}

pub open spec fn dec_u64(s: Seq<u8>) -> Option<(u64, int)> {
    if s.len() >= 8 {
        Some((spec_u64_from_le_bytes(s.take(8)), 8int))
    } else {
        None
    }
}

pub open spec fn dec_varint(s: Seq<u8>) -> Option<(u64, int)> {
    if s.len() < 1 {
        None
    } else if s[0] < 0xfd {
        Some((s[0] as u64, 1int))
    } else if s[0] == 0xfd {
        if s.len() >= 3 {
            Some((spec_u16_from_le_bytes(s.subrange(1, 3)) as u64, 3int))
        } else {
            None
        }
    } else if s[0] == 0xfe {
        if s.len() >= 5 {
            Some((spec_u32_from_le_bytes(s.subrange(1, 5)) as u64, 5int))
        } else {
            None
        }
    } else {
        if s.len() >= 9 {
            Some((spec_u64_from_le_bytes(s.subrange(1, 9)), 9int))
        } else {
            None
        }
    }
}

pub open spec fn dec_bytes(s: Seq<u8>) -> Option<(Seq<u8>, int)> {
    match dec_varint(s) {
        None => None,
        Some((n, k)) => {
            if n as int <= s.len() - k {
                Some((s.subrange(k, k + n as int), k + n as int))
            } else {
                None
            }
        },
    }
}

// ---------------------------------------------------------------------
// Round-trip lemmas
// ---------------------------------------------------------------------

pub proof fn lemma_dec_enc_u8(x: u8, rest: Seq<u8>)
    ensures
        dec_u8(enc_u8(x) + rest) == Some((x, 1int)),
{
    assert((enc_u8(x) + rest)[0] == x);
}

pub proof fn lemma_dec_enc_u64(x: u64, rest: Seq<u8>)
    ensures
        enc_u64(x).len() == 8,
        dec_u64(enc_u64(x) + rest) == Some((x, 8int)),
{
    lemma_auto_spec_u64_to_from_le_bytes();
    assert((enc_u64(x) + rest).take(8) =~= enc_u64(x));
}

pub proof fn lemma_dec_enc_varint(x: u64, rest: Seq<u8>)
    ensures
        1 <= enc_varint(x).len() <= 9,
        dec_varint(enc_varint(x) + rest) == Some((x, enc_varint(x).len() as int)),
{
    lemma_auto_spec_u16_to_from_le_bytes();
    lemma_auto_spec_u32_to_from_le_bytes();
    lemma_auto_spec_u64_to_from_le_bytes();
    let s = enc_varint(x) + rest;
    if x < 0xfd {
        assert(s[0] == x as u8);
    } else if x <= 0xffff {
        assert(s[0] == 0xfdu8);
        assert(s.subrange(1, 3) =~= spec_u16_to_le_bytes(x as u16));
        assert(spec_u16_from_le_bytes(spec_u16_to_le_bytes(x as u16)) == x as u16);
    } else if x <= 0xffff_ffff {
        assert(s[0] == 0xfeu8);
        assert(s.subrange(1, 5) =~= spec_u32_to_le_bytes(x as u32));
        assert(spec_u32_from_le_bytes(spec_u32_to_le_bytes(x as u32)) == x as u32);
    } else {
        assert(s[0] == 0xffu8);
        assert(s.subrange(1, 9) =~= spec_u64_to_le_bytes(x));
    }
}

pub proof fn lemma_dec_enc_bytes(b: Seq<u8>, rest: Seq<u8>)
    requires
        b.len() <= u64::MAX,
    ensures
        dec_bytes(enc_bytes(b) + rest) == Some((b, enc_bytes(b).len() as int)),
{
    let n = b.len() as u64;
    lemma_dec_enc_varint(n, b + rest);
    let s = enc_bytes(b) + rest;
    assert(s =~= enc_varint(n) + (b + rest));
    let k = enc_varint(n).len() as int;
    assert(s.subrange(k, k + n as int) =~= b);
}

// ---------------------------------------------------------------------
// Executable encoders
// ---------------------------------------------------------------------

pub fn encode_u8(x: u8, out: &mut Vec<u8>)
    ensures
        final(out)@ == old(out)@ + enc_u8(x),
{
    out.push(x);
    assert(out@ =~= old(out)@ + enc_u8(x));
}

pub fn encode_u64(x: u64, out: &mut Vec<u8>)
    ensures
        final(out)@ == old(out)@ + enc_u64(x),
{
    let mut bytes = u64_to_le_bytes(x);
    out.append(&mut bytes);
}

pub fn encode_varint(x: u64, out: &mut Vec<u8>)
    ensures
        final(out)@ == old(out)@ + enc_varint(x),
{
    if x < 0xfd {
        out.push(x as u8);
        assert(out@ =~= old(out)@ + enc_varint(x));
    } else if x <= 0xffff {
        out.push(0xfd);
        let mut bytes = u16_to_le_bytes(x as u16);
        out.append(&mut bytes);
        assert(out@ =~= old(out)@ + enc_varint(x));
    } else if x <= 0xffff_ffff {
        out.push(0xfe);
        let mut bytes = u32_to_le_bytes(x as u32);
        out.append(&mut bytes);
        assert(out@ =~= old(out)@ + enc_varint(x));
    } else {
        out.push(0xff);
        let mut bytes = u64_to_le_bytes(x);
        out.append(&mut bytes);
        assert(out@ =~= old(out)@ + enc_varint(x));
    }
}

pub fn encode_bytes(b: &Vec<u8>, out: &mut Vec<u8>)
    ensures
        final(out)@ == old(out)@ + enc_bytes(b@),
{
    encode_varint(b.len() as u64, out);
    let ghost mid = out@;
    let mut i: usize = 0;
    while i < b.len()
        invariant
            i <= b@.len(),
            out@ == mid + b@.take(i as int),
        decreases b@.len() - i,
    {
        out.push(b[i]);
        assert(out@ =~= mid + b@.take(i + 1));
        i = i + 1;
    }
    assert(out@ =~= old(out)@ + enc_bytes(b@));
}

// ---------------------------------------------------------------------
// Executable decoders
//
// Each reads at `pos` inside `data` and returns the value with the
// position just past it.  The result is pinned to the specification
// decoder on the remaining bytes, for success and failure alike.
// ---------------------------------------------------------------------

pub fn decode_u8(data: &Vec<u8>, pos: usize) -> (r: Result<(u8, usize), Error>)
    requires
        pos <= data@.len(),
    ensures
        match r {
            Ok(p) => {
                &&& dec_u8(data@.skip(pos as int)) == Some((p.0, p.1 - pos))
                &&& pos < p.1 <= data@.len()
            },
            Err(e) => dec_u8(data@.skip(pos as int)) is None && e == Error::MalformedEncoding,
        },
{
    if pos < data.len() {
        let b = data[pos];
        assert(data@.skip(pos as int)[0] == b);
        Ok((b, pos + 1))
    } else {
        Err(Error::MalformedEncoding)
    }
}

pub fn decode_u64(data: &Vec<u8>, pos: usize) -> (r: Result<(u64, usize), Error>)
    requires
        pos <= data@.len(),
    ensures
        match r {
            Ok(p) => {
                &&& dec_u64(data@.skip(pos as int)) == Some((p.0, p.1 - pos))
                &&& pos < p.1 <= data@.len()
            },
            Err(e) => dec_u64(data@.skip(pos as int)) is None && e == Error::MalformedEncoding,
        },
{
    if data.len() - pos >= 8 {
        let mut window: Vec<u8> = Vec::new();
        let mut i: usize = 0;
        while i < 8
            invariant
                i <= 8,
                pos + 8 <= data@.len() && data@.len() <= usize::MAX,
                window@ == data@.subrange(pos as int, pos + i),
            decreases 8 - i,
        {
            window.push(data[pos + i]);
            assert(window@ =~= data@.subrange(pos as int, pos + i + 1));
            i = i + 1;
        }
        let v = u64_from_le_bytes(window.as_slice());
        assert(data@.subrange(pos as int, pos + 8) =~= data@.skip(pos as int).take(8));
        Ok((v, pos + 8))
    } else {
        Err(Error::MalformedEncoding)
    }
}

pub fn decode_varint(data: &Vec<u8>, pos: usize) -> (r: Result<(u64, usize), Error>)
    requires
        pos <= data@.len(),
    ensures
        match r {
            Ok(p) => {
                &&& dec_varint(data@.skip(pos as int)) == Some((p.0, p.1 - pos))
                &&& pos < p.1 <= data@.len()
            },
            Err(e) => dec_varint(data@.skip(pos as int)) is None && e == Error::MalformedEncoding,
        },
{
    let ghost s = data@.skip(pos as int);
    if pos >= data.len() {
        return Err(Error::MalformedEncoding);
    }
    let tag = data[pos];
    assert(s[0] == tag);
    if tag < 0xfd {
        Ok((tag as u64, pos + 1))
    } else if tag == 0xfd {
        if data.len() - pos >= 3 {
            let lo = data[pos + 1];
            let hi = data[pos + 2];
            let mut window: Vec<u8> = Vec::new();
            window.push(lo);
            window.push(hi);
            assert(window@ =~= s.subrange(1, 3));
            let v = u16_from_le_bytes(window.as_slice());
            Ok((v as u64, pos + 3))
        } else {
            Err(Error::MalformedEncoding)
        }
    } else if tag == 0xfe {
        if data.len() - pos >= 5 {
            let mut window: Vec<u8> = Vec::new();
            let mut i: usize = 0;
            while i < 4
                invariant
                    i <= 4,
                    pos + 5 <= data@.len() && data@.len() <= usize::MAX,
                    window@ == data@.subrange(pos + 1, pos + 1 + i),
                decreases 4 - i,
            {
                window.push(data[pos + 1 + i]);
                assert(window@ =~= data@.subrange(pos + 1, pos + 1 + i + 1));
                i = i + 1;
            }
            assert(window@ =~= s.subrange(1, 5));
            let v = u32_from_le_bytes(window.as_slice());
            Ok((v as u64, pos + 5))
        } else {
            Err(Error::MalformedEncoding)
        }
    } else {
        if data.len() - pos >= 9 {
            let mut window: Vec<u8> = Vec::new();
            let mut i: usize = 0;
            while i < 8
                invariant
                    i <= 8,
                    pos + 9 <= data@.len() && data@.len() <= usize::MAX,
                    window@ == data@.subrange(pos + 1, pos + 1 + i),
                decreases 8 - i,
            {
                window.push(data[pos + 1 + i]);
                assert(window@ =~= data@.subrange(pos + 1, pos + 1 + i + 1));
                i = i + 1;
            }
            assert(window@ =~= s.subrange(1, 9));
            let v = u64_from_le_bytes(window.as_slice());
            Ok((v, pos + 9))
        } else {
            Err(Error::MalformedEncoding)
        }
    }
}

pub fn decode_bytes(data: &Vec<u8>, pos: usize) -> (r: Result<(Vec<u8>, usize), Error>)
    requires
        pos <= data@.len(),
    ensures
        match r {
            Ok(p) => {
                &&& dec_bytes(data@.skip(pos as int)) matches Some(d)
                    && d.0 == p.0@ && d.1 == p.1 - pos
                &&& pos <= p.1 <= data@.len()
            },
            Err(e) => dec_bytes(data@.skip(pos as int)) is None && e == Error::MalformedEncoding,
        },
{
    let ghost s = data@.skip(pos as int);
    let (n, mid) = match decode_varint(data, pos) {
        Ok(p) => p,
        Err(e) => {
            return Err(e);
        },
    };
    if n <= (data.len() - mid) as u64 {
        let count = n as usize;
        let mut body: Vec<u8> = Vec::new();
        let mut i: usize = 0;
        while i < count
            invariant
                i <= count,
                mid + count <= data@.len() && data@.len() <= usize::MAX,
                body@ == data@.subrange(mid as int, mid + i),
            decreases count - i,
        {
            body.push(data[mid + i]);
            assert(body@ =~= data@.subrange(mid as int, mid + i + 1));
            i = i + 1;
        }
        assert(body@ =~= s.subrange(mid - pos, mid - pos + n as int));
        Ok((body, mid + count))
    } else {
        Err(Error::MalformedEncoding)
    }
}


pub open spec fn enc_u32(x: u32) -> Seq<u8> {
    spec_u32_to_le_bytes(x)
}

pub open spec fn dec_u32(s: Seq<u8>) -> Option<(u32, int)> {
    if s.len() >= 4 {
        Some((spec_u32_from_le_bytes(s.take(4)), 4int))
    } else {
        None
    }
}

pub proof fn lemma_dec_enc_u32(x: u32, rest: Seq<u8>)
    ensures
        enc_u32(x).len() == 4,
        dec_u32(enc_u32(x) + rest) == Some((x, 4int)),
{
    lemma_auto_spec_u32_to_from_le_bytes();
    assert((enc_u32(x) + rest).take(4) =~= enc_u32(x));
}

pub fn encode_u32(x: u32, out: &mut Vec<u8>)
    ensures
        final(out)@ == old(out)@ + enc_u32(x),
{
    let mut bytes = u32_to_le_bytes(x);
    out.append(&mut bytes);
}

pub fn decode_u32(data: &Vec<u8>, pos: usize) -> (r: Result<(u32, usize), Error>)
    requires
        pos <= data@.len(),
    ensures
        match r {
            Ok(p) => {
                &&& dec_u32(data@.skip(pos as int)) == Some((p.0, p.1 - pos))
                &&& pos < p.1 <= data@.len()
            },
            Err(e) => dec_u32(data@.skip(pos as int)) is None && e == Error::MalformedEncoding,
        },
{
    if data.len() - pos >= 4 {
        let mut window: Vec<u8> = Vec::new();
        let mut i: usize = 0;
        while i < 4
            invariant
                i <= 4,
                pos + 4 <= data@.len() && data@.len() <= usize::MAX,
                window@ == data@.subrange(pos as int, pos + i),
            decreases 4 - i,
        {
            window.push(data[pos + i]);
            assert(window@ =~= data@.subrange(pos as int, pos + i + 1));
            i = i + 1;
        }
        let v = u32_from_le_bytes(window.as_slice());
        assert(data@.subrange(pos as int, pos + 4) =~= data@.skip(pos as int).take(4));
        Ok((v, pos + 4))
    } else {
        Err(Error::MalformedEncoding)
    }
}

// ---------------------------------------------------------------------
// Sequences of encoded items
//
// A sequence is its count followed by each item's encoding.  The
// specification side is generic in the item codec; executable loops are
// written per item type and proved against these.
// ---------------------------------------------------------------------

/// The concatenated encodings of `items`, without the leading count.
pub open spec fn enc_list_items<A>(items: Seq<A>, enc: spec_fn(A) -> Seq<u8>) -> Seq<u8>
    decreases items.len(),
{
    if items.len() == 0 {
        Seq::empty()
    } else {
        enc(items[0]) + enc_list_items(items.drop_first(), enc)
    }
}

/// A counted sequence: the item count, then each item in order.
pub open spec fn enc_list<A>(items: Seq<A>, enc: spec_fn(A) -> Seq<u8>) -> Seq<u8> {
    enc_varint(items.len() as u64) + enc_list_items(items, enc)
}

/// Decode `n` items, each with `dec`.
pub open spec fn dec_list_items<A>(
    s: Seq<u8>,
    n: nat,
    dec: spec_fn(Seq<u8>) -> Option<(A, int)>,
) -> Option<(Seq<A>, int)>
    decreases n,
{
    if n == 0 {
        Some((Seq::empty(), 0int))
    } else {
        match dec(s) {
            None => None,
            Some((v, k)) => match dec_list_items(s.skip(k), (n - 1) as nat, dec) {
                None => None,
                Some((vs, m)) => Some((seq![v] + vs, k + m)),
            },
        }
    }
}

/// Decode a counted sequence.
pub open spec fn dec_list<A>(s: Seq<u8>, dec: spec_fn(Seq<u8>) -> Option<(A, int)>) -> Option<
    (Seq<A>, int),
> {
    match dec_varint(s) {
        None => None,
        Some((n, k)) => match dec_list_items(s.skip(k), n as nat, dec) {
            None => None,
            Some((vs, m)) => Some((vs, k + m)),
        },
    }
}

/// Appending one item extends the concatenation at its end.
pub proof fn lemma_enc_list_items_snoc<A>(items: Seq<A>, x: A, enc: spec_fn(A) -> Seq<u8>)
    ensures
        enc_list_items(items.push(x), enc) == enc_list_items(items, enc) + enc(x),
    decreases items.len(),
{
    if items.len() == 0 {
        assert(enc_list_items(items, enc) == Seq::<u8>::empty());
        assert(items.push(x)[0] == x);
        assert(items.push(x).drop_first() =~= Seq::<A>::empty());
        assert(enc_list_items(items.push(x).drop_first(), enc) == Seq::<u8>::empty());
        assert(enc_list_items(items.push(x), enc) == enc(x) + Seq::<u8>::empty());
        assert(enc(x) + Seq::<u8>::empty() =~= enc_list_items(items, enc) + enc(x));
    } else {
        assert(enc_list_items(items.push(x), enc) == enc(items.push(x)[0]) + enc_list_items(
            items.push(x).drop_first(),
            enc,
        ));
        assert(items.push(x).drop_first() =~= items.drop_first().push(x));
        assert(items.push(x)[0] == items[0]);
        lemma_enc_list_items_snoc(items.drop_first(), x, enc);
        assert(enc_list_items(items.push(x), enc) == enc(items[0]) + (enc_list_items(
            items.drop_first(),
            enc,
        ) + enc(x)));
        assert(enc(items[0]) + (enc_list_items(items.drop_first(), enc) + enc(x)) =~= (enc(
            items[0],
        ) + enc_list_items(items.drop_first(), enc)) + enc(x));
        assert(enc(items[0]) + enc_list_items(items.drop_first(), enc) == enc_list_items(
            items,
            enc,
        ));
    }
}

/// Round trip for the item concatenation, given an item codec that
/// round-trips on items satisfying `ok`.
pub proof fn lemma_dec_enc_list_items<A>(
    items: Seq<A>,
    rest: Seq<u8>,
    enc: spec_fn(A) -> Seq<u8>,
    dec: spec_fn(Seq<u8>) -> Option<(A, int)>,
    ok: spec_fn(A) -> bool,
)
    requires
        forall|i: int| 0 <= i < items.len() ==> ok(#[trigger] items[i]),
        forall|x: A, r: Seq<u8>|
            ok(x) ==> #[trigger] dec(enc(x) + r) == Some((x, enc(x).len() as int)),
    ensures
        dec_list_items(enc_list_items(items, enc) + rest, items.len(), dec) == Some(
            (items, enc_list_items(items, enc).len() as int),
        ),
    decreases items.len(),
{
    if items.len() == 0 {
        assert(dec_list_items(enc_list_items(items, enc) + rest, 0, dec) == Some(
            (Seq::<A>::empty(), 0int),
        ));
        assert(items =~= Seq::<A>::empty());
    } else {
        let head = enc(items[0]);
        let tail = enc_list_items(items.drop_first(), enc);
        let s = enc_list_items(items, enc) + rest;
        assert(s =~= head + (tail + rest));
        assert(ok(items[0]));
        assert(dec(s) == Some((items[0], head.len() as int)));
        assert(s.skip(head.len() as int) =~= tail + rest);
        assert(forall|i: int|
            0 <= i < items.drop_first().len() ==> ok(#[trigger] items.drop_first()[i]));
        lemma_dec_enc_list_items(items.drop_first(), rest, enc, dec, ok);
        assert(seq![items[0]] + items.drop_first() =~= items);
    }
}

/// Round trip for a counted sequence.
pub proof fn lemma_dec_enc_list<A>(
    items: Seq<A>,
    rest: Seq<u8>,
    enc: spec_fn(A) -> Seq<u8>,
    dec: spec_fn(Seq<u8>) -> Option<(A, int)>,
    ok: spec_fn(A) -> bool,
)
    requires
        items.len() <= u64::MAX,
        forall|i: int| 0 <= i < items.len() ==> ok(#[trigger] items[i]),
        forall|x: A, r: Seq<u8>|
            ok(x) ==> #[trigger] dec(enc(x) + r) == Some((x, enc(x).len() as int)),
    ensures
        dec_list(enc_list(items, enc) + rest, dec) == Some(
            (items, enc_list(items, enc).len() as int),
        ),
{
    let n = items.len() as u64;
    let body = enc_list_items(items, enc);
    lemma_dec_enc_varint(n, body + rest);
    let s = enc_list(items, enc) + rest;
    assert(s =~= enc_varint(n) + (body + rest));
    let k = enc_varint(n).len() as int;
    assert(s.skip(k) =~= body + rest);
    lemma_dec_enc_list_items(items, rest, enc, dec, ok);
}

} // verus!
