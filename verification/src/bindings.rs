//! Declarations of the outside types this library carries, and the small
//! trusted wrappers through which it reaches memmap2, bytes, bytemuck and std.

use vstd::prelude::*;
use crate::words::{native_bytes_of, native_i32_words, native_u32_words};
use vstd::utf8::is_ascii_chars;

verus! {

/// A read-only memory map (memmap2). Opaque: its bytes are named by [`mmap_view`].
#[verifier::external_type_specification]
#[verifier::external_body]
pub struct ExMmap(memmap2::Mmap);

/// A reference-counted byte buffer (bytes). Opaque: its bytes are named by [`bytes_view`].
#[verifier::external_type_specification]
#[verifier::external_body]
pub struct ExBytes(bytes::Bytes);

/// A file-system path, carried through untouched.
#[verifier::external_type_specification]
#[verifier::external_body]
pub struct ExPathBuf(std::path::PathBuf);

/// An I/O error, carried through untouched.
#[verifier::external_type_specification]
#[verifier::external_body]
pub struct ExIoError(std::io::Error);

/// The bytes that a memory map holds.
pub uninterp spec fn mmap_view(m: memmap2::Mmap) -> Seq<u8>;

/// The bytes that a `Bytes` buffer holds.
pub uninterp spec fn bytes_view(b: bytes::Bytes) -> Seq<u8>;

/// Borrows the mapped bytes (`<Mmap as Deref>::deref`): the slice is exactly
/// the mapped contents.
#[verifier::external_body]
pub(crate) fn mmap_as_slice(m: &memmap2::Mmap) -> (r: &[u8])
    ensures
        r@ == mmap_view(*m),
{
    &m[..]
}

/// Wraps a memory map into a shared buffer (`bytes::Bytes::from_owner`): the
/// buffer holds exactly the mapped bytes, without copying them.
#[verifier::external_body]
pub(crate) fn bytes_from_mmap(m: memmap2::Mmap) -> (r: bytes::Bytes)
    ensures
        bytes_view(r) == mmap_view(m),
{
    bytes::Bytes::from_owner(m)
}

/// Borrows the bytes of a buffer (`<Bytes as Deref>::deref`).
#[verifier::external_body]
pub(crate) fn bytes_as_slice(b: &bytes::Bytes) -> (r: &[u8])
    ensures
        r@ == bytes_view(*b),
{
    &b[..]
}

/// A shared sub-buffer of `b` (`bytes::Bytes::slice`), which panics unless
/// `start <= end <= len`; it holds exactly the bytes `start..end` of `b`.
#[verifier::external_body]
pub(crate) fn bytes_slice(b: &bytes::Bytes, start: usize, end: usize) -> (r: bytes::Bytes)
    requires
        start <= end <= bytes_view(*b).len(),
    ensures
        bytes_view(r) == bytes_view(*b).subrange(start as int, end as int),
{
    b.slice(start..end)
}

/// `<[usize]>::binary_search`. On a slice sorted in ascending order std documents
/// its result: `Ok(i)` with `s[i] == x` (any one of several matches), or
/// `Err(i)` with `i` the place where `x` could be inserted keeping the order.
/// Which match `Ok` picks among equal elements is left open, as std leaves it.
#[verifier::external_body]
pub(crate) fn search_sorted(s: &[usize], x: usize) -> (r: Result<usize, usize>)
    ensures
        (forall|i: int, j: int| 0 <= i <= j < s@.len() ==> s@[i] <= s@[j]) ==> match r {
            Ok(i) => i < s@.len() && s@[i as int] == x,
            Err(i) => {
                &&& i <= s@.len()
                &&& forall|j: int| 0 <= j < i ==> s@[j] < x
                &&& forall|j: int| i <= j < s@.len() ==> s@[j] > x
            },
        },
{
    s.binary_search(&x)
}

/// `bytemuck::try_cast_slice::<u8, u32>`: the same memory read as words, in
/// the machine's byte order, without copying. It fails when the length is not
/// a multiple of 4, and when the slice does not start on a 4-byte boundary;
/// the second condition is a property of the address, which is not stated.
#[verifier::external_body]
pub(crate) fn cast_u32_words(b: &[u8]) -> (r: Option<&[u32]>)
    ensures
        b@.len() % 4 != 0 ==> r is None,
        r matches Some(w) ==> w@ == native_u32_words(b@),
{
    bytemuck::try_cast_slice::<u8, u32>(b).ok()
}

/// `bytemuck::try_cast_slice::<u8, i32>`: as [`cast_u32_words`], for signed words.
#[verifier::external_body]
pub(crate) fn cast_i32_words(b: &[u8]) -> (r: Option<&[i32]>)
    ensures
        b@.len() % 4 != 0 ==> r is None,
        r matches Some(w) ==> w@ == native_i32_words(b@),
{
    bytemuck::try_cast_slice::<u8, i32>(b).ok()
}

/// `bytemuck::cast_slice::<u32, u8>`: the words' own memory as bytes, in the
/// machine's byte order, without copying. Casting to bytes never fails (bytes
/// need no alignment and every word is a whole number of bytes), so it does
/// not panic.
#[verifier::external_body]
pub(crate) fn token_bytes(ids: &[u32]) -> (r: &[u8])
    ensures
        r@ == native_bytes_of(ids@),
{
    bytemuck::cast_slice::<u32, u8>(ids)
}

/// The Unicode lower-case mapping of a string (`str::to_lowercase`), as std
/// computes it from its Unicode tables.
pub uninterp spec fn lowercase(s: Seq<char>) -> Seq<char>;

/// ASCII lower-casing: `A`..`Z` become `a`..`z`, every other character stays.
pub open spec fn ascii_lowercase(s: Seq<char>) -> Seq<char> {
    Seq::new(
        s.len(),
        |i: int| if 65 <= s[i] as u32 <= 90 { ((s[i] as u32) + 32) as char } else { s[i] },
    )
}

/// `str::to_lowercase`: the result is the lower-case mapping of `s`; on ASCII
/// text that mapping changes `A`..`Z` to `a`..`z` and keeps every other
/// character (Unicode's lower-case mapping agrees with ASCII's on ASCII).
#[verifier::external_body]
pub(crate) fn to_lowercase(s: &str) -> (r: String)
    ensures
        r@ == lowercase(s@),
        is_ascii_chars(s@) ==> r@ == ascii_lowercase(s@),
{
    s.to_lowercase()
}

} // verus!
