use vstd::prelude::*;

verus! {

/// Number of bytes taken by `n` consecutive values of type `T`.
pub open spec fn bytes_of<T>(n: int) -> int {
    n * vstd::layout::size_of::<T>()
}

/// The size in bytes of the whole slice `val`, in the signed width that
/// OpenGL takes for buffer sizes.
///
/// The conversion to `isize` is the plain `as` conversion; a slice that
/// Rust lets exist is never larger than `isize::MAX` bytes, so then the
/// result is exactly the byte size.
pub fn byte_size_of_array<T>(val: &[T]) -> (size: isize)
    ensures
        size == bytes_of::<T>(val@.len() as int) as isize,
        bytes_of::<T>(val@.len() as int) <= isize::MAX ==> size as int == bytes_of::<T>(
            val@.len() as int,
        ),
{
    broadcast use vstd::layout::layout_of_slices;

    let bytes: usize = std::mem::size_of_val(val);
    bytes as isize
}

/// The size in bytes of one value of type `T`, in the width OpenGL takes
/// for strides.
pub fn size_of<T>() -> (size: i32)
    ensures
        size == vstd::layout::size_of::<T>() as i32,
        vstd::layout::size_of::<T>() <= i32::MAX ==> size as int == vstd::layout::size_of::<T>(),
{
    let bytes: usize = std::mem::size_of::<T>();
    bytes as i32
}

/// The byte offset of the `n`-th value in an array of `T`: `n` times the
/// size of `T` (that size taken modulo 2^32, as a `u32`).
pub fn offset<T>(n: u32) -> (bytes: u32)
    requires
        n * (vstd::layout::size_of::<T>() as u32) <= u32::MAX,
    ensures
        bytes == n * (vstd::layout::size_of::<T>() as u32),
{
    let unit: usize = std::mem::size_of::<T>();
    n * (unit as u32)
}

} // verus!
