//! The frame header of the wire protocol: a size and its bitwise complement.
use vstd::prelude::*;

verus! {

/// The largest size a header can carry.
pub const MAX_SIZE: usize = 65535;

/// A frame header: the size of the frame and its complement, which lets a reader
/// tell a damaged header from a valid one.
#[derive(Debug, Clone, Copy, PartialEq, Eq, Structural)]
pub struct Header {
    size: u16,
    size_inv: u16,
}

impl Header {
    /// The size field.
    pub closed spec fn size_field(&self) -> u16 {
        self.size
    }

    /// The complement field.
    pub closed spec fn size_inv_field(&self) -> u16 {
        self.size_inv
    }

    /// A header for `size`.
    pub fn new(size: u16) -> (h: Self)
        ensures
            h.size_field() == size,
            h.size_inv_field() == size ^ 0xffffu16,
    {
        Self { size, size_inv: size ^ 0xffffu16 }
    }

    /// A header as read from the wire.
    pub fn from_parts(size: u16, size_inv: u16) -> (h: Self)
        ensures
            h.size_field() == size,
            h.size_inv_field() == size_inv,
    {
        Self { size, size_inv }
    }

    /// Whether the complement field is the complement of the size field.
    pub fn is_valid(&self) -> (b: bool)
        ensures
            b == (self.size_field() == self.size_inv_field() ^ 0xffffu16),
    {
        self.size == (self.size_inv ^ 0xffffu16)
    }

    /// The size field.
    pub fn size(&self) -> (s: u16)
        ensures
            s == self.size_field(),
    {
        self.size
    }

    /// The complement field.
    pub fn size_inv(&self) -> (s: u16)
        ensures
            s == self.size_inv_field(),
    {
        self.size_inv
    }
}

/// A header made for a size is valid, and reads back that size: a header whose
/// complement field is the complement of its size field passes `is_valid`.
pub proof fn lemma_new_header_valid(h: Header)
    requires
        h.size_inv_field() == h.size_field() ^ 0xffffu16,
    ensures
        h.size_field() == h.size_inv_field() ^ 0xffffu16,
{
    let size = h.size_field();
    assert((size ^ 0xffffu16) ^ 0xffffu16 == size) by (bit_vector);
}

/// A header is valid exactly when its complement field is the complement of its
/// size: one header per size passes the check.
pub proof fn lemma_valid_header_unique(size: u16, size_inv: u16)
    ensures
        (size == size_inv ^ 0xffffu16) <==> (size_inv == size ^ 0xffffu16),
{
    assert((size == size_inv ^ 0xffffu16) <==> (size_inv == size ^ 0xffffu16)) by (bit_vector);
}

} // verus!
