//! Big-endian 64-bit numbers, as the index keys and segment records hold them.

use byteorder::BigEndian;
use byteorder::ByteOrder;
use vstd::prelude::*;

verus! {

/// The last `n` base-256 digits of `v`, most significant first.
pub open spec fn be_digits(v: nat, n: nat) -> Seq<u8>
    decreases n,
{
    if n == 0 {
        Seq::empty()
    } else {
        be_digits(v / 256, (n - 1) as nat).push((v % 256) as u8)
    }
}

/// The number that the base-256 digits `s` spell, most significant first.
pub open spec fn be_number(s: Seq<u8>) -> nat
    decreases s.len(),
{
    if s.len() == 0 {
        0
    } else {
        be_number(s.drop_last()) * 256 + s.last() as nat
    }
}

/// The eight bytes of `v`, most significant first.
pub open spec fn be_bytes(v: u64) -> Seq<u8> {
    be_digits(v as nat, 8)
}

/// The number that the first eight bytes of `s` spell, most significant first.
pub open spec fn be_value(s: Seq<u8>) -> u64
    recommends
        s.len() >= 8,
{
    be_number(s.take(8)) as u64
}

pub open spec fn pow256(n: nat) -> nat
    decreases n,
{
    if n == 0 {
        1
    } else {
        256 * pow256((n - 1) as nat)
    }
}

pub proof fn lemma_be_digits_len(v: nat, n: nat)
    ensures
        be_digits(v, n).len() == n,
    decreases n,
{
    if n > 0 {
        lemma_be_digits_len(v / 256, (n - 1) as nat);
    }
}

/// Digits spell a number below `256^len`.
pub proof fn lemma_be_number_bound(s: Seq<u8>)
    ensures
        be_number(s) < pow256(s.len()),
    decreases s.len(),
{
    if s.len() > 0 {
        lemma_be_number_bound(s.drop_last());
    }
}

/// A number below `256^n` is spelled by its own `n` digits.
pub proof fn lemma_be_number_of_digits(v: nat, n: nat)
    requires
        v < pow256(n),
    ensures
        be_number(be_digits(v, n)) == v,
    decreases n,
{
    if n > 0 {
        let head = be_digits(v / 256, (n - 1) as nat);
        lemma_be_number_of_digits(v / 256, (n - 1) as nat);
        assert(be_digits(v, n).drop_last() =~= head);
    }
}

/// Digits are the digits of the number they spell.
pub proof fn lemma_be_digits_of_number(s: Seq<u8>)
    ensures
        be_digits(be_number(s), s.len()) == s,
    decreases s.len(),
{
    if s.len() > 0 {
        lemma_be_digits_of_number(s.drop_last());
        assert(be_digits(be_number(s), s.len()) =~= s);
    }
}

/// A number is the value of its own eight bytes.
pub proof fn lemma_be_value_of_bytes(v: u64)
    ensures
        be_bytes(v).len() == 8,
        be_value(be_bytes(v)) == v,
{
    lemma_be_digits_len(v as nat, 8);
    assert(pow256(8) == 0x1_0000_0000_0000_0000) by {
        reveal_with_fuel(pow256, 9);
    }
    lemma_be_number_of_digits(v as nat, 8);
    assert(be_bytes(v).take(8) =~= be_bytes(v));
}

/// Eight bytes are the bytes of their own value.
pub proof fn lemma_be_bytes_of_value(s: Seq<u8>)
    requires
        s.len() == 8,
    ensures
        be_bytes(be_value(s)) == s,
{
    assert(s.take(8) =~= s);
    lemma_be_number_bound(s);
    assert(pow256(8) == 0x1_0000_0000_0000_0000) by {
        reveal_with_fuel(pow256, 9);
    }
    lemma_be_digits_of_number(s);
}

/// `byteorder::BigEndian::write_u64` on a buffer of eight bytes: the buffer
/// then holds the bytes of `n`, most significant first.
#[verifier::external_body]
pub(crate) fn write_u64_be(n: u64) -> (buf: Vec<u8>)
    ensures
        buf@ == be_bytes(n),
{
    let mut buf = vec![0u8; 8];
    BigEndian::write_u64(&mut buf, n);
    buf
}

/// `byteorder::BigEndian::read_u64`: the number that the first eight bytes
/// of `buf` spell. It panics on fewer than eight bytes, which `requires` excludes.
#[verifier::external_body]
pub(crate) fn read_u64_be(buf: &[u8]) -> (n: u64)
    requires
        buf@.len() >= 8,
    ensures
        n == be_value(buf@),
{
    BigEndian::read_u64(buf)
}

} // verus!
