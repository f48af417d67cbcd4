//! Deterministic key equality.
//!
//! Both buffers must agree on which keys are equal, across many lookups of
//! the same key; the map is only correct for key types whose equality is a
//! function of the key's abstract value. `TrustedHashEq` is that promise: an
//! executable equality test whose answer is exactly equality of the views.
//! The map's contracts are stated over those views.

use vstd::prelude::*;

verus! {

/// A key type with a deterministic, view-respecting equality test.
///
/// Implementations must decide exactly whether the two keys have the same
/// abstract value; the map relies on this to keep its two buffers in
/// agreement.
pub trait TrustedHashEq: View + Sized {
    /// Decides whether `self` and `other` are the same key.
    fn th_eq(&self, other: &Self) -> (r: bool)
        ensures
            r == (self@ == other@),
    ;
}

impl TrustedHashEq for u8 {
    fn th_eq(&self, other: &Self) -> (r: bool)
        ensures
            r == (self@ == other@),
    {
        *self == *other
    }
}

impl TrustedHashEq for u16 {
    fn th_eq(&self, other: &Self) -> (r: bool)
        ensures
            r == (self@ == other@),
    {
        *self == *other
    }
}

impl TrustedHashEq for u32 {
    fn th_eq(&self, other: &Self) -> (r: bool)
        ensures
            r == (self@ == other@),
    {
        *self == *other
    }
}

impl TrustedHashEq for u64 {
    fn th_eq(&self, other: &Self) -> (r: bool)
        ensures
            r == (self@ == other@),
    {
        *self == *other
    }
}

impl TrustedHashEq for usize {
    fn th_eq(&self, other: &Self) -> (r: bool)
        ensures
            r == (self@ == other@),
    {
        *self == *other
    }
}

impl TrustedHashEq for i8 {
    fn th_eq(&self, other: &Self) -> (r: bool)
        ensures
            r == (self@ == other@),
    {
        *self == *other
    }
}

impl TrustedHashEq for i16 {
    fn th_eq(&self, other: &Self) -> (r: bool)
        ensures
            r == (self@ == other@),
    {
        *self == *other
    }
}

impl TrustedHashEq for i32 {
    fn th_eq(&self, other: &Self) -> (r: bool)
        ensures
            r == (self@ == other@),
    {
        *self == *other
    }
}

impl TrustedHashEq for i64 {
    fn th_eq(&self, other: &Self) -> (r: bool)
        ensures
            r == (self@ == other@),
    {
        *self == *other
    }
}

impl TrustedHashEq for isize {
    fn th_eq(&self, other: &Self) -> (r: bool)
        ensures
            r == (self@ == other@),
    {
        *self == *other
    }
}

impl TrustedHashEq for bool {
    fn th_eq(&self, other: &Self) -> (r: bool)
        ensures
            r == (self@ == other@),
    {
        *self == *other
    }
}

impl TrustedHashEq for char {
    fn th_eq(&self, other: &Self) -> (r: bool)
        ensures
            r == (self@ == other@),
    {
        *self == *other
    }
}

impl TrustedHashEq for String {
    fn th_eq(&self, other: &Self) -> (r: bool)
        ensures
            r == (self@ == other@),
    {
        self.eq(other)
    }
}

impl<T: TrustedHashEq> TrustedHashEq for Box<T> {
    fn th_eq(&self, other: &Self) -> (r: bool)
        ensures
            r == (self@ == other@),
    {
        (**self).th_eq(&**other)
    }
}

} // verus!
