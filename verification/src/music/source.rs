//! What a presence source is known by.

use crate::session::identity::PeerIdentity;
use crate::text;
use vstd::prelude::*;

verus! {

/// Values by which sources are told apart. A firmware may use local adapter
/// numbers and authenticated peer identities, a browser host connection names.
pub trait SourceKey: Sized {
    /// What makes two sources the same.
    type Id;

    spec fn id(&self) -> Self::Id;

    fn same(&self, other: &Self) -> (r: bool)
        ensures
            r == (self.id() == other.id()),
    ;

    fn copied(&self) -> (copy: Self)
        ensures
            copy.id() == self.id(),
    ;
}

impl SourceKey for u8 {
    type Id = u8;

    open spec fn id(&self) -> u8 {
        *self
    }

    fn same(&self, other: &Self) -> (r: bool) {
        *self == *other
    }

    fn copied(&self) -> (copy: Self) {
        *self
    }
}

impl SourceKey for u32 {
    type Id = u32;

    open spec fn id(&self) -> u32 {
        *self
    }

    fn same(&self, other: &Self) -> (r: bool) {
        *self == *other
    }

    fn copied(&self) -> (copy: Self) {
        *self
    }
}

impl SourceKey for u64 {
    type Id = u64;

    open spec fn id(&self) -> u64 {
        *self
    }

    fn same(&self, other: &Self) -> (r: bool) {
        *self == *other
    }

    fn copied(&self) -> (copy: Self) {
        *self
    }
}

impl SourceKey for i32 {
    type Id = i32;

    open spec fn id(&self) -> i32 {
        *self
    }

    fn same(&self, other: &Self) -> (r: bool) {
        *self == *other
    }

    fn copied(&self) -> (copy: Self) {
        *self
    }
}

impl SourceKey for String {
    type Id = Seq<char>;

    open spec fn id(&self) -> Seq<char> {
        self@
    }

    fn same(&self, other: &Self) -> (r: bool) {
        *self == *other
    }

    fn copied(&self) -> (copy: Self) {
        text::string_of(self.as_str())
    }
}

impl SourceKey for &'static str {
    type Id = Seq<char>;

    open spec fn id(&self) -> Seq<char> {
        self@
    }

    fn same(&self, other: &Self) -> (r: bool) {
        text::string_of(self) == text::string_of(other)
    }

    fn copied(&self) -> (copy: Self) {
        *self
    }
}

impl SourceKey for PeerIdentity {
    type Id = PeerIdentity;

    open spec fn id(&self) -> PeerIdentity {
        *self
    }

    fn same(&self, other: &Self) -> (r: bool) {
        *self == *other
    }

    fn copied(&self) -> (copy: Self) {
        *self
    }
}

} // verus!
