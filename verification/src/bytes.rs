//! Fixed-width integers at a position in a byte sequence.
//!
//! The spec functions give the value of a little- or big-endian field; the
//! readers decode such a field with `byteorder`.

use byteorder::{BigEndian, ByteOrder, LittleEndian};
use vstd::prelude::*;
use vstd::slice::slice_subrange;

verus! {

/// The little-endian value of the two bytes of `s` that start at `at`.
pub open spec fn le_u16_at(s: Seq<u8>, at: int) -> int {
    s[at] as int + 0x100 * (s[at + 1] as int)
}

/// The little-endian value of the four bytes of `s` that start at `at`.
pub open spec fn le_u32_at(s: Seq<u8>, at: int) -> int {
    s[at] as int + 0x100 * (s[at + 1] as int) + 0x1_0000 * (s[at + 2] as int) + 0x100_0000 * (
    s[at + 3] as int)
}

/// The four bytes of `s` that start at `at`, read as a little-endian
/// two's-complement number.
pub open spec fn le_i32_at(s: Seq<u8>, at: int) -> int {
    let unsigned = le_u32_at(s, at);
    if unsigned >= 0x8000_0000 {
        unsigned - 0x1_0000_0000
    } else {
        unsigned
    }
}

/// The little-endian value of the eight bytes of `s` that start at `at`.
pub open spec fn le_u64_at(s: Seq<u8>, at: int) -> int {
    le_u32_at(s, at) + 0x1_0000_0000 * le_u32_at(s, at + 4)
}

/// The big-endian value of the four bytes of `s` that start at `at`.
pub open spec fn be_u32_at(s: Seq<u8>, at: int) -> int {
    0x100_0000 * (s[at] as int) + 0x1_0000 * (s[at + 1] as int) + 0x100 * (s[at + 2] as int) + (
    s[at + 3] as int)
}

/// `byteorder::LittleEndian::read_u16`: the first two bytes of `buf` as a
/// little-endian number. The outside function panics on a shorter slice.
#[verifier::external_body]
fn read_le_u16(buf: &[u8]) -> (value: u16)
    requires
        buf@.len() >= 2,
    ensures
        value as int == le_u16_at(buf@, 0),
{
    LittleEndian::read_u16(buf)
}

/// `byteorder::LittleEndian::read_u32`: the first four bytes of `buf` as a
/// little-endian number. The outside function panics on a shorter slice.
#[verifier::external_body]
fn read_le_u32(buf: &[u8]) -> (value: u32)
    requires
        buf@.len() >= 4,
    ensures
        value as int == le_u32_at(buf@, 0),
{
    LittleEndian::read_u32(buf)
}

/// `byteorder::LittleEndian::read_i32`: the first four bytes of `buf` as a
/// little-endian two's-complement number. The outside function panics on a
/// shorter slice.
#[verifier::external_body]
fn read_le_i32(buf: &[u8]) -> (value: i32)
    requires
        buf@.len() >= 4,
    ensures
        value as int == le_i32_at(buf@, 0),
{
    LittleEndian::read_i32(buf)
}

/// `byteorder::LittleEndian::read_u64`: the first eight bytes of `buf` as a
/// little-endian number. The outside function panics on a shorter slice.
#[verifier::external_body]
fn read_le_u64(buf: &[u8]) -> (value: u64)
    requires
        buf@.len() >= 8,
    ensures
        value as int == le_u64_at(buf@, 0),
{
    LittleEndian::read_u64(buf)
}

/// `byteorder::BigEndian::read_u32`: the first four bytes of `buf` as a
/// big-endian number. The outside function panics on a shorter slice.
#[verifier::external_body]
fn read_be_u32(buf: &[u8]) -> (value: u32)
    requires
        buf@.len() >= 4,
    ensures
        value as int == be_u32_at(buf@, 0),
{
    BigEndian::read_u32(buf)
}

/// The little-endian `u16` at `at`.
pub fn le_u16(bytes: &[u8], at: usize) -> (value: u16)
    requires
        at + 2 <= bytes.len(),
    ensures
        value as int == le_u16_at(bytes@, at as int),
{
    read_le_u16(slice_subrange(bytes, at, at + 2))
}

/// The little-endian `u32` at `at`.
pub fn le_u32(bytes: &[u8], at: usize) -> (value: u32)
    requires
        at + 4 <= bytes.len(),
    ensures
        value as int == le_u32_at(bytes@, at as int),
{
    read_le_u32(slice_subrange(bytes, at, at + 4))
}

/// The little-endian `i32` at `at`.
pub fn le_i32(bytes: &[u8], at: usize) -> (value: i32)
    requires
        at + 4 <= bytes.len(),
    ensures
        value as int == le_i32_at(bytes@, at as int),
{
    read_le_i32(slice_subrange(bytes, at, at + 4))
}

/// The little-endian `u64` at `at`.
pub fn le_u64(bytes: &[u8], at: usize) -> (value: u64)
    requires
        at + 8 <= bytes.len(),
    ensures
        value as int == le_u64_at(bytes@, at as int),
{
    read_le_u64(slice_subrange(bytes, at, at + 8))
}

/// The big-endian `u32` at `at`.
pub fn be_u32(bytes: &[u8], at: usize) -> (value: u32)
    requires
        at + 4 <= bytes.len(),
    ensures
        value as int == be_u32_at(bytes@, at as int),
{
    read_be_u32(slice_subrange(bytes, at, at + 4))
}

} // verus!
