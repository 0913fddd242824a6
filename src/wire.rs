use byteorder::{BigEndian, ByteOrder};
use vstd::prelude::*;

verus! {

/// The value of two bytes read most significant first.
pub open spec fn be16(hi: u8, lo: u8) -> int {
    hi as int * 256 + lo as int
}

/// The value of four bytes read most significant first.
pub open spec fn be32(b0: u8, b1: u8, b2: u8, b3: u8) -> int {
    ((b0 as int * 256 + b1 as int) * 256 + b2 as int) * 256 + b3 as int
}

/// Relies on byteorder's `BigEndian::read_u16`: the two bytes at `pos`,
/// most significant first.
#[verifier::external_body]
pub(crate) fn read_be16(buf: &[u8], pos: usize) -> (r: u16)
    requires
        pos + 2 <= buf@.len(),
    ensures
        r as int == be16(buf@[pos as int], buf@[pos + 1]),
{
    BigEndian::read_u16(&buf[pos..])
}

/// Relies on byteorder's `BigEndian::read_u32`: the four bytes at `pos`,
/// most significant first.
#[verifier::external_body]
pub(crate) fn read_be32(buf: &[u8], pos: usize) -> (r: u32)
    requires
        pos + 4 <= buf@.len(),
    ensures
        r as int == be32(buf@[pos as int], buf@[pos + 1], buf@[pos + 2], buf@[pos + 3]),
{
    BigEndian::read_u32(&buf[pos..])
}

/// Relies on byteorder's `BigEndian::write_u16`: the two bytes at `pos`
/// become `n`, most significant first; nothing else changes.
#[verifier::external_body]
pub(crate) fn write_be16(buf: &mut Vec<u8>, pos: usize, n: u16)
    requires
        pos + 2 <= old(buf)@.len(),
    ensures
        final(buf)@.len() == old(buf)@.len(),
        be16(final(buf)@[pos as int], final(buf)@[pos + 1]) == n as int,
        forall|i: int| 0 <= i < old(buf)@.len() && i != pos && i != pos + 1
            ==> final(buf)@[i] == old(buf)@[i],
{
    BigEndian::write_u16(&mut buf[pos..pos + 2], n)
}

/// Relies on byteorder's `BigEndian::write_u32`: the four bytes at `pos`
/// become `n`, most significant first; nothing else changes.
#[verifier::external_body]
pub(crate) fn write_be32(buf: &mut Vec<u8>, pos: usize, n: u32)
    requires
        pos + 4 <= old(buf)@.len(),
    ensures
        final(buf)@.len() == old(buf)@.len(),
        be32(final(buf)@[pos as int], final(buf)@[pos + 1], final(buf)@[pos + 2],
            final(buf)@[pos + 3]) == n as int,
        forall|i: int| 0 <= i < old(buf)@.len() && !(pos <= i < pos + 4)
            ==> final(buf)@[i] == old(buf)@[i],
{
    BigEndian::write_u32(&mut buf[pos..pos + 4], n)
}

/// Relies on getrandom's `getrandom`: fills two bytes from the system's
/// source of randomness, or fails. Nothing is known of the bytes.
#[verifier::external_body]
pub(crate) fn random_pair() -> (r: Option<(u8, u8)>)
{
    let mut b = [0u8; 2];
    match getrandom::getrandom(&mut b) {
        Ok(()) => Some((b[0], b[1])),
        Err(_) => None,
    }
}

/// Appends `n` as two bytes, most significant first.
pub fn push_be16(buf: &mut Vec<u8>, n: u16)
    ensures
        final(buf)@.len() == old(buf)@.len() + 2,
        final(buf)@.subrange(0, old(buf)@.len() as int) == old(buf)@,
        be16(final(buf)@[old(buf)@.len() as int], final(buf)@[old(buf)@.len() as int + 1]) == n as int,
{
    let pos = buf.len();
    buf.push(0);
    buf.push(0);
    write_be16(buf, pos, n);
    assert(final(buf)@.subrange(0, pos as int) =~= old(buf)@);
}

/// Appends `n` as four bytes, most significant first.
pub fn push_be32(buf: &mut Vec<u8>, n: u32)
    ensures
        final(buf)@.len() == old(buf)@.len() + 4,
        final(buf)@.subrange(0, old(buf)@.len() as int) == old(buf)@,
        be32(final(buf)@[old(buf)@.len() as int], final(buf)@[old(buf)@.len() as int + 1],
            final(buf)@[old(buf)@.len() as int + 2], final(buf)@[old(buf)@.len() as int + 3]) == n as int,
{
    let pos = buf.len();
    buf.push(0);
    buf.push(0);
    buf.push(0);
    buf.push(0);
    write_be32(buf, pos, n);
    assert(final(buf)@.subrange(0, pos as int) =~= old(buf)@);
}

} // verus!
