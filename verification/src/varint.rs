//! LEB128 variable-length integers, at most five bytes for a `u32`.
use vstd::prelude::*;

verus! {

/// The canonical encoding of `v`: seven bits a byte, least significant group
/// first, the high bit set on every byte but the last.
pub open spec fn varint(v: nat) -> Seq<u8>
    decreases v,
{
    if v < 128 {
        seq![v as u8]
    } else {
        seq![(v % 128 + 128) as u8] + varint(v / 128)
    }
}

/// What decoding finds in `buf` from `pos` on, when `k` bytes of the same
/// integer have been consumed already: the value of the groups, if the integer
/// ends within five bytes and within the buffer, and the position after the
/// last byte consumed.
pub open spec fn varint_from(buf: Seq<u8>, pos: int, k: nat) -> (Option<nat>, int)
    decreases 5 - k,
{
    if !(0 <= pos < buf.len()) {
        (None, pos)
    } else if buf[pos] < 128 {
        (Some(buf[pos] as nat), pos + 1)
    } else if k >= 4 {
        (None, pos + 1)
    } else {
        match varint_from(buf, pos + 1, k + 1) {
            (Some(rest), end) => (Some((buf[pos] - 128 + 128 * rest) as nat), end),
            (None, end) => (None, end),
        }
    }
}

/// Append the encoding of `v` to `buf`.
pub fn write_varint(buf: &mut Vec<u8>, v: u32)
    ensures
        final(buf)@ == old(buf)@ + varint(v as nat),
{
    let mut rest: u32 = v;
    while rest >= 128
        invariant
            buf@ + varint(rest as nat) == old(buf)@ + varint(v as nat),
        decreases rest,
    {
        let ghost before = buf@;
        let ghost prior = rest;
        buf.push((rest % 128 + 128) as u8);
        rest = rest / 128;
        proof {
            assert(before + varint(prior as nat) =~= buf@ + varint(rest as nat));
        }
    }
    let ghost before = buf@;
    buf.push(rest as u8);
    proof {
        assert(buf@ =~= before + varint(rest as nat));
    }
}

/// Decode one integer of `buf` at `pos` and move `pos` behind the bytes that
/// were read. `None` if the buffer ends first or a fifth byte still continues;
/// bits beyond the thirty-second are dropped.
pub fn read_varint(buf: &[u8], pos: &mut usize) -> (r: Option<u32>)
    ensures
        ({
            let found = varint_from(buf@, *old(pos) as int, 0);
            &&& *final(pos) == found.1
            &&& match r {
                Some(v) => found.0 is Some && v == found.0->0 % 0x1_0000_0000,
                None => found.0 is None,
            }
        }),
{
    let mut value: u64 = 0;
    let mut scale: u64 = 1;
    let mut k: u32 = 0;
    let ghost start = *pos as int;
    loop
        invariant
            start == *old(pos),
            k <= 4,
            k == 0 ==> scale == 1,
            k == 1 ==> scale == 0x80,
            k == 2 ==> scale == 0x4000,
            k == 3 ==> scale == 0x20_0000,
            k == 4 ==> scale == 0x1000_0000,
            value < scale,
            ({
                let here = varint_from(buf@, *pos as int, k as nat);
                let found = varint_from(buf@, start, 0);
                &&& found.1 == here.1
                &&& found.0 is Some <==> here.0 is Some
                &&& found.0 is Some ==> found.0->0 == value + scale * here.0->0
            }),
        decreases 5 - k,
    {
        if *pos >= buf.len() {
            return None;
        }
        let byte: u8 = buf[*pos];
        let ghost at = *pos as int;
        *pos = *pos + 1;
        if byte < 128 {
            proof {
                assert(scale * byte <= 0x1000_0000 * 128) by (nonlinear_arith)
                    requires
                        scale <= 0x1000_0000,
                        byte < 128,
                ;
            }
            value = value + scale * (byte as u64);
            return Some((value % 0x1_0000_0000) as u32);
        }
        if k >= 4 {
            return None;
        }
        proof {
            let low = byte - 128;
            assert(scale * low <= scale * 127) by (nonlinear_arith)
                requires
                    low <= 127,
                    scale >= 0,
            ;
            let next = varint_from(buf@, at + 1, (k + 1) as nat);
            if next.0 is Some {
                let rest = next.0->0;
                assert(scale * (low + 128 * rest) == scale * low + (scale * 128) * rest)
                    by (nonlinear_arith);
            }
        }
        value = value + scale * ((byte - 128) as u64);
        scale = scale * 128;
        k = k + 1;
    }
}

/// The bound that `k` consumed bytes leave for the rest of a `u32`.
spec fn room(k: nat) -> nat {
    if k == 0 {
        0x1_0000_0000
    } else if k == 1 {
        0x200_0000
    } else if k == 2 {
        0x4_0000
    } else if k == 3 {
        0x800
    } else {
        0x10
    }
}

proof fn lemma_encoded_is_found(v: nat, k: nat, buf: Seq<u8>, pos: int)
    requires
        k <= 4,
        v < room(k),
        0 <= pos,
        pos + varint(v).len() <= buf.len(),
        buf.subrange(pos, pos + varint(v).len()) == varint(v),
    ensures
        varint_from(buf, pos, k) == (Some(v), pos + varint(v).len()),
    decreases v,
{
    let code = varint(v);
    let here = buf.subrange(pos, pos + code.len());
    assert(here[0] == buf[pos]);
    if v >= 128 {
        let rest = varint(v / 128);
        assert(code.len() == rest.len() + 1);
        assert(buf.subrange(pos + 1, pos + 1 + rest.len()) =~= rest) by {
            assert forall|i: int| 0 <= i < rest.len() implies buf[pos + 1 + i] == rest[i] by {
                assert(here[i + 1] == code[i + 1]);
            }
        }
        lemma_encoded_is_found(v / 128, k + 1, buf, pos + 1);
    }
}

/// Reading gives back what writing wrote: wherever the encoding of a `u32`
/// stands in a buffer, decoding at its first byte yields the integer and stops
/// behind its last byte.
pub proof fn varint_round_trip(v: u32, before: Seq<u8>, after: Seq<u8>)
    ensures
        varint_from(before + varint(v as nat) + after, before.len() as int, 0) == (
            Some(v as nat),
            (before.len() + varint(v as nat).len()) as int,
        ),
{
    let buf = before + varint(v as nat) + after;
    let pos = before.len() as int;
    assert(buf.subrange(pos, pos + varint(v as nat).len()) =~= varint(v as nat));
    lemma_encoded_is_found(v as nat, 0, buf, pos);
}

/// The encoding of a `u32` takes one to five bytes.
pub proof fn varint_length(v: u32)
    ensures
        1 <= varint(v as nat).len() <= 5,
{
    reveal_with_fuel(varint, 6);
}

} // verus!
