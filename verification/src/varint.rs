//! Variable-length integers: seven payload bits per byte, least significant
//! group first, the top bit of a byte set when more bytes follow.

use vstd::prelude::*;

verus! {

/// The longest encoding that is read back: ten bytes hold 70 payload bits.
pub const MAX_LEN: usize = 10;

/// The bytes that encode `v`.
pub open spec fn encoding(v: nat) -> Seq<u8>
    decreases v,
{
    if v < 128 {
        seq![v as u8]
    } else {
        seq![(v % 128 + 128) as u8] + encoding(v / 128)
    }
}

/// The number that starts `s`, with the count of bytes it takes; `None`
/// where `s` ends before a byte without the continuation bit is met.
pub open spec fn decoding(s: Seq<u8>) -> Option<(nat, nat)>
    decreases s.len(),
{
    if s.len() == 0 {
        None
    } else if s[0] < 128 {
        Some((s[0] as nat, 1nat))
    } else {
        match decoding(s.skip(1)) {
            Some((v, n)) => Some((((s[0] - 128) + 128 * v) as nat, n + 1)),
            None => None,
        }
    }
}

/// What `read` accepts: a number of at most `MAX_LEN` bytes that fits 64 bits.
pub open spec fn decoding_u64(s: Seq<u8>) -> Option<(u64, usize)> {
    match decoding(s) {
        Some((v, n)) => if v <= u64::MAX && n <= MAX_LEN {
            Some((v as u64, n as usize))
        } else {
            None
        },
        None => None,
    }
}

pub open spec fn pow128(k: nat) -> nat
    decreases k,
{
    if k == 0 {
        1
    } else {
        128 * pow128((k - 1) as nat)
    }
}

/// An encoding is never empty, and only its last byte lacks the continuation bit.
pub proof fn lemma_encoding_shape(v: nat)
    ensures
        encoding(v).len() >= 1,
        encoding(v).last() < 128,
        forall|i: int| 0 <= i < encoding(v).len() - 1 ==> encoding(v)[i] >= 128,
    decreases v,
{
    if v >= 128 {
        lemma_encoding_shape(v / 128);
        let rest = encoding(v / 128);
        assert forall|i: int| 0 <= i < encoding(v).len() - 1 implies encoding(v)[i] >= 128 by {
            if i > 0 {
                assert(encoding(v)[i] == rest[i - 1]);
            }
        }
    }
}

/// A number below `128^k` takes at most `k` bytes.
pub proof fn lemma_encoding_len(v: nat, k: nat)
    requires
        k >= 1,
        v < pow128(k),
    ensures
        encoding(v).len() <= k,
    decreases k,
{
    if v >= 128 {
        assert(k >= 2) by {
            assert(pow128(1) == 128) by {
                assert(pow128(0) == 1);
            }
        }
        lemma_encoding_len(v / 128, (k - 1) as nat);
    }
}

/// Every 64-bit number takes at most `MAX_LEN` bytes.
pub proof fn lemma_encoding_len_u64(v: u64)
    ensures
        1 <= encoding(v as nat).len() <= MAX_LEN,
{
    lemma_encoding_shape(v as nat);
    assert(pow128(10) == 0x40_0000_0000_0000_0000) by {
        reveal_with_fuel(pow128, 11);
    }
    lemma_encoding_len(v as nat, 10);
}

/// Reading what was written gives the number back, whatever follows it.
pub proof fn lemma_decoding_of_encoding(v: nat, rest: Seq<u8>)
    ensures
        decoding(encoding(v) + rest) == Some((v, encoding(v).len())),
    decreases v,
{
    let s = encoding(v) + rest;
    if v < 128 {
        assert(s[0] == v as u8);
    } else {
        let tail = encoding(v / 128);
        assert(s[0] == (v % 128 + 128) as u8);
        assert(s.skip(1) =~= tail + rest);
        lemma_decoding_of_encoding(v / 128, rest);
    }
}

/// A 64-bit number that was written is read back by `read`.
pub proof fn lemma_roundtrip_u64(v: u64, rest: Seq<u8>)
    ensures
        decoding_u64(encoding(v as nat) + rest) == Some((v, encoding(v as nat).len() as usize)),
{
    lemma_decoding_of_encoding(v as nat, rest);
    lemma_encoding_len_u64(v);
}

/// Appends the encoding of `value` to `out`.
pub fn write(out: &mut Vec<u8>, value: u64)
    ensures
        final(out)@ == old(out)@ + encoding(value as nat),
{
    let ghost start = out@;
    let mut cur: u64 = value;
    while cur >= 128
        invariant
            start + encoding(value as nat) == out@ + encoding(cur as nat),
        decreases cur,
    {
        let byte: u8 = (cur % 128 + 128) as u8;
        let ghost before = out@;
        out.push(byte);
        proof {
            let rest = encoding((cur / 128) as nat);
            assert(encoding(cur as nat) == seq![byte] + rest);
            assert(before + (seq![byte] + rest) =~= before.push(byte) + rest);
        }
        cur = cur / 128;
    }
    let ghost before = out@;
    out.push(cur as u8);
    proof {
        assert(encoding(cur as nat) == seq![cur as u8]);
        assert(before + seq![cur as u8] =~= before.push(cur as u8));
    }
}

/// How a number read from `s.skip(i)` extends to a number read from `s`,
/// given the value `acc` of the first `i` payload groups and `base == 128^i`.
pub open spec fn extended(tail: Option<(nat, nat)>, acc: nat, base: nat, i: nat) -> Option<
    (nat, nat),
> {
    match tail {
        Some((v, n)) => Some((acc + base * v, i + n)),
        None => None,
    }
}

/// Reads the number that starts at `offset` in `buf`.
///
/// Returns the number and the count of bytes it takes, or `None` where the
/// bytes from `offset` on hold no number that `decoding_u64` accepts.
pub fn read(buf: &[u8], offset: usize) -> (r: Option<(u64, usize)>)
    ensures
        offset <= buf@.len() ==> r == decoding_u64(buf@.skip(offset as int)),
        offset > buf@.len() ==> r.is_none(),
{
    if offset > buf.len() {
        return None;
    }
    let ghost s = buf@.skip(offset as int);
    let mut acc: u128 = 0;
    let mut base: u128 = 1;
    let mut i: usize = 0;
    proof {
        assert(s.skip(0) =~= s);
    }
    while i < MAX_LEN && i < buf.len() - offset
        invariant
            offset <= buf@.len(),
            s == buf@.skip(offset as int),
            i <= MAX_LEN,
            i <= s.len(),
            base == pow128(i as nat),
            acc < base,
            decoding(s) == extended(decoding(s.skip(i as int)), acc as nat, base as nat, i as nat),
        decreases MAX_LEN - i,
    {
        let byte: u8 = buf[offset + i];
        let ghost t = s.skip(i as int);
        proof {
            reveal_with_fuel(pow128, 12);
            assert(t[0] == byte);
            assert(t.skip(1) =~= s.skip(i + 1));
            assert(base <= 0x8000_0000_0000_0000);
            assert((byte as u128) * base <= 255 * base) by (nonlinear_arith)
                requires
                    byte <= 255,
                    base >= 0,
            ;
        }
        if byte < 128 {
            let total: u128 = acc + (byte as u128) * base;
            proof {
                assert(decoding(t) == Some((byte as nat, 1nat)));
                assert(decoding(s) == Some(((acc + base * (byte as nat)) as nat, (i + 1) as nat)));
                assert(byte as nat * base as nat == base as nat * byte as nat) by (nonlinear_arith);
            }
            if total <= u64::MAX as u128 {
                return Some((total as u64, i + 1));
            } else {
                return None;
            }
        }
        let payload: u128 = (byte - 128) as u128;
        proof {
            let next = decoding(s.skip(i + 1));
            assert(decoding(t) == match next {
                Some((v, n)) => Some((((byte - 128) + 128 * v) as nat, n + 1)),
                None => None,
            });
            if let Some((v, n)) = next {
                assert(acc + base * ((byte - 128) + 128 * v)
                    == (acc + payload * base) + (base * 128)
                    * v) by (nonlinear_arith)
                    requires
                        payload == byte - 128,
                ;
            }
            assert(payload * base <= 127 * base) by (nonlinear_arith)
                requires
                    payload <= 127,
                    base >= 0,
            ;
        }
        acc = acc + payload * base;
        base = base * 128;
        i = i + 1;
    }
    proof {
        if i < MAX_LEN {
            assert(s.skip(i as int).len() == 0);
        } else {
            match decoding(s.skip(i as int)) {
                Some((v, n)) => {
                    lemma_decoding_takes_a_byte(s.skip(i as int));
                },
                None => {},
            }
        }
    }
    None
}

/// A number that is read takes at least one byte and no more than there are.
pub proof fn lemma_decoding_takes_a_byte(s: Seq<u8>)
    ensures
        decoding(s) matches Some((v, n)) ==> 1 <= n <= s.len(),
    decreases s.len(),
{
    if s.len() > 0 && s[0] >= 128 {
        lemma_decoding_takes_a_byte(s.skip(1));
    }
}

} // verus!
