//! Little-endian integers, zero-padded fields and UTF-8 text in byte buffers.
use vstd::prelude::*;
use vstd::utf8;

verus! {

/// The `n` low-order bytes of `v`, least significant first.
pub open spec fn le(v: nat, n: nat) -> Seq<u8>
    decreases n,
{
    if n == 0 {
        Seq::empty()
    } else {
        seq![(v % 256) as u8] + le(v / 256, (n - 1) as nat)
    }
}

/// The integer whose bytes are `s`, least significant first.
pub open spec fn from_le(s: Seq<u8>) -> nat
    decreases s.len(),
{
    if s.len() == 0 {
        0
    } else {
        s[0] as nat + 256 * from_le(s.drop_first())
    }
}

/// The `n`-byte integer that stands at `off`.
pub open spec fn le_at(s: Seq<u8>, off: int, n: int) -> nat {
    from_le(s.subrange(off, off + n))
}

/// How many values `n` bytes can hold.
pub open spec fn byte_range(n: nat) -> nat
    decreases n,
{
    if n == 0 {
        1
    } else {
        256 * byte_range((n - 1) as nat)
    }
}

/// `n` zero bytes.
pub open spec fn zeros(n: nat) -> Seq<u8> {
    Seq::new(n, |i: int| 0u8)
}

/// `b` cut to at most `n` bytes and filled up with zeros to exactly `n`.
pub open spec fn padded(b: Seq<u8>, n: nat) -> Seq<u8> {
    if b.len() >= n {
        b.take(n as int)
    } else {
        b + zeros((n - b.len()) as nat)
    }
}

/// The bytes of a field before its first zero byte.
pub open spec fn until_zero(s: Seq<u8>) -> Seq<u8>
    decreases s.len(),
{
    if s.len() == 0 || s[0] == 0 {
        Seq::empty()
    } else {
        seq![s[0]] + until_zero(s.drop_first())
    }
}

pub proof fn lemma_le_len(v: nat, n: nat)
    ensures
        le(v, n).len() == n,
    decreases n,
{
    if n > 0 {
        lemma_le_len(v / 256, (n - 1) as nat);
    }
}

/// An integer that fits in `n` bytes is read back from the bytes written.
pub proof fn le_round_trip(v: nat, n: nat)
    requires
        v < byte_range(n),
    ensures
        from_le(le(v, n)) == v,
        le(v, n).len() == n,
    decreases n,
{
    if n > 0 {
        let rest = le(v / 256, (n - 1) as nat);
        assert(v / 256 < byte_range((n - 1) as nat));
        le_round_trip(v / 256, (n - 1) as nat);
        assert(le(v, n).drop_first() =~= rest);
    }
}

pub proof fn lemma_from_le_bound(s: Seq<u8>)
    ensures
        from_le(s) < byte_range(s.len()),
    decreases s.len(),
{
    if s.len() > 0 {
        lemma_from_le_bound(s.drop_first());
    }
}

pub proof fn lemma_byte_ranges()
    ensures
        byte_range(4) == 0x1_0000_0000,
        byte_range(8) == 0x1_0000_0000_0000_0000,
{
    reveal_with_fuel(byte_range, 9);
}

/// Append the `n` low-order bytes of `v`.
pub fn put_le(out: &mut Vec<u8>, v: u64, n: usize)
    ensures
        final(out)@ == old(out)@ + le(v as nat, n as nat),
{
    let mut rest: u64 = v;
    let mut left: usize = n;
    while left > 0
        invariant
            out@ + le(rest as nat, left as nat) == old(out)@ + le(v as nat, n as nat),
        decreases left,
    {
        let ghost before = out@;
        let ghost prior = rest;
        out.push((rest % 256) as u8);
        rest = rest / 256;
        left = left - 1;
        proof {
            assert(before + le(prior as nat, (left + 1) as nat) =~= out@ + le(
                rest as nat,
                left as nat,
            ));
        }
    }
}

/// The `n`-byte integer that stands at `off`, for at most eight bytes.
pub fn get_le(s: &[u8], off: usize, n: usize) -> (v: u64)
    requires
        n <= 8,
        off + n <= s@.len(),
    ensures
        v == le_at(s@, off as int, n as int),
{
    let mut v: u64 = 0;
    let mut i: usize = n;
    while i > 0
        invariant
            n <= 8,
            i <= n,
            off + n <= s.len(),
            s.len() == s@.len(),
            v == from_le(s@.subrange(off + i, off + n)),
        decreases i,
    {
        i = i - 1;
        proof {
            let tail = s@.subrange(off + i, off + n);
            assert(tail.drop_first() =~= s@.subrange(off + i + 1, off + n));
            lemma_from_le_bound(tail);
            reveal_with_fuel(byte_range, 9);
            assert(tail[0] == s@[off + i]);
        }
        v = s[off + i] as u64 + 256 * v;
    }
    v
}

/// Append all bytes of `s`.
pub fn put_bytes(out: &mut Vec<u8>, s: &[u8])
    ensures
        final(out)@ == old(out)@ + s@,
{
    out.extend_from_slice(s);
    proof {
        assert(out@ =~= old(out)@ + s@);
    }
}

/// Append `n` zero bytes.
pub fn put_zeros(out: &mut Vec<u8>, n: usize)
    ensures
        final(out)@ == old(out)@ + zeros(n as nat),
{
    let mut i: usize = 0;
    while i < n
        invariant
            i <= n,
            out@ == old(out)@ + zeros(i as nat),
        decreases n - i,
    {
        out.push(0);
        i = i + 1;
        proof {
            assert(out@ =~= old(out)@ + zeros(i as nat));
        }
    }
    proof {
        assert(out@ =~= old(out)@ + zeros(n as nat));
    }
}

/// Append `s` as a field of exactly `n` bytes, cut or filled up with zeros.
pub fn put_padded(out: &mut Vec<u8>, s: &[u8], n: usize)
    ensures
        final(out)@ == old(out)@ + padded(s@, n as nat),
{
    if s.len() >= n {
        put_bytes(out, vstd::slice::slice_subrange(s, 0, n));
        proof {
            assert(s@.subrange(0, n as int) =~= s@.take(n as int));
        }
    } else {
        put_bytes(out, s);
        put_zeros(out, n - s.len());
        proof {
            assert(out@ =~= old(out)@ + padded(s@, n as nat));
        }
    }
}

proof fn lemma_until_zero_prefix(s: Seq<u8>, n: int)
    requires
        0 <= n <= s.len(),
        forall|i: int| 0 <= i < n ==> s[i] != 0,
        n < s.len() ==> s[n] == 0,
    ensures
        until_zero(s) == s.take(n),
    decreases n,
{
    if n > 0 {
        lemma_until_zero_prefix(s.drop_first(), n - 1);
        assert(s.take(n) =~= seq![s[0]] + s.drop_first().take(n - 1));
    } else {
        assert(s.take(n) =~= Seq::<u8>::empty());
    }
}

/// A padded field gives back what was put in, when that fits and holds no
/// zero byte.
pub proof fn padded_round_trip(b: Seq<u8>, n: nat)
    requires
        b.len() <= n,
        forall|i: int| 0 <= i < b.len() ==> b[i] != 0,
    ensures
        until_zero(padded(b, n)) == b,
        padded(b, n).len() == n,
{
    let f = padded(b, n);
    assert(f.take(b.len() as int) =~= b);
    assert forall|i: int| 0 <= i < b.len() implies f[i] != 0 by {
        assert(f[i] == b[i]);
    }
    lemma_until_zero_prefix(f, b.len() as int);
}

/// The position of the first zero byte of `s`, or its length.
pub fn zero_position(s: &[u8]) -> (n: usize)
    ensures
        n <= s@.len(),
        until_zero(s@) == s@.take(n as int),
{
    let mut n: usize = 0;
    while n < s.len() && s[n] != 0
        invariant
            n <= s@.len(),
            forall|i: int| 0 <= i < n ==> s@[i] != 0,
        decreases s@.len() - n,
    {
        n = n + 1;
    }
    proof {
        lemma_until_zero_prefix(s@, n as int);
    }
    n
}

/// `std::str::from_utf8`: text exactly when the bytes are valid UTF-8, and
/// then the characters that they encode.
#[verifier::external_body]
pub(crate) fn text_of_utf8(bytes: &[u8]) -> (r: Option<String>)
    ensures
        r is Some <==> utf8::valid_utf8(bytes@),
        r matches Some(s) ==> s@ == utf8::decode_utf8(bytes@),
{
    match std::str::from_utf8(bytes) {
        Ok(s) => Some(s.to_string()),
        Err(_) => None,
    }
}

} // verus!
