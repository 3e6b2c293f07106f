//! Compact optional entity reference.
//!
//! The index `u32::MAX` stands for "none"; any other index for the entity
//! with that index.

use vstd::prelude::*;
use core::marker::PhantomData;

use crate::entity::EntityRef;

verus! {

/// Space-efficient Option for entity references.
#[derive(Debug, Copy, PartialEq, Eq)]
pub struct PackedOption<T: EntityRef> {
    index: u32,
    _phantom: PhantomData<T>,
}

impl<T: EntityRef> Clone for PackedOption<T> {
    fn clone(&self) -> (r: Self)
        ensures
            r@ == self@,
    {
        *self
    }
}

impl<T: EntityRef> View for PackedOption<T> {
    type V = Option<nat>;

    /// The index held, if any.
    closed spec fn view(&self) -> Option<nat> {
        if self.index == u32::MAX {
            None
        } else {
            Some(self.index as nat)
        }
    }
}

impl<T: EntityRef> PackedOption<T> {
    /// Create a None value
    pub fn none() -> (r: Self)
        ensures
            r@ is None,
    {
        Self { index: u32::MAX, _phantom: PhantomData }
    }

    /// Create a Some value; the entity's index must not be the reserved
    /// all-ones index.
    pub fn some(entity: T) -> (r: Self)
        requires
            entity.ent_index() < u32::MAX,
        ensures
            r@ == Some(entity.ent_index()),
    {
        Self { index: entity.index() as u32, _phantom: PhantomData }
    }

    /// Expand to Option
    pub fn expand(self) -> (r: Option<T>)
        ensures
            r is None <==> self@ is None,
            r matches Some(t) ==> self@ == Some(t.ent_index()),
    {
        if self.index == u32::MAX {
            None
        } else {
            Some(T::from_index(self.index as usize))
        }
    }

    /// Check if this is Some
    pub fn is_some(&self) -> (r: bool)
        ensures
            r == (self@ is Some),
    {
        self.index != u32::MAX
    }

    /// Check if this is None
    pub fn is_none(&self) -> (r: bool)
        ensures
            r == (self@ is None),
    {
        self.index == u32::MAX
    }

    /// Whether two packed options hold the same index (or are both none).
    pub fn same_as(&self, other: &Self) -> (r: bool)
        ensures
            r == (self@ == other@),
    {
        self.index == other.index
    }

    /// Pack an `Option`; a present entity's index must not be the reserved
    /// all-ones index.
    pub fn from_option(opt: Option<T>) -> (r: Self)
        requires
            opt matches Some(e) ==> e.ent_index() < u32::MAX,
        ensures
            opt is None ==> r@ is None,
            opt matches Some(e) ==> r@ == Some(e.ent_index()),
    {
        match opt {
            Some(entity) => Self::some(entity),
            None => Self::none(),
        }
    }
}

impl<T: EntityRef> From<Option<T>> for PackedOption<T> {
    /// Pack an `Option`; an entity with the reserved all-ones index packs
    /// as none.
    fn from(opt: Option<T>) -> (r: Self)
        ensures
            r@ == (match opt {
                Some(e) => if e.ent_index() < u32::MAX {
                    Some(e.ent_index())
                } else {
                    None
                },
                None => None,
            }),
    {
        match opt {
            Some(entity) => {
                if entity.index() < 0xffff_ffff {
                    Self { index: entity.index() as u32, _phantom: PhantomData }
                } else {
                    Self { index: u32::MAX, _phantom: PhantomData }
                }
            },
            None => Self { index: u32::MAX, _phantom: PhantomData },
        }
    }
}

impl<T: EntityRef> vstd::std_specs::convert::FromSpecImpl<Option<T>> for PackedOption<T> {
    open spec fn obeys_from_spec() -> bool {
        true
    }

    closed spec fn from_spec(v: Option<T>) -> Self {
        match v {
            Some(e) => if e.ent_index() < u32::MAX {
                PackedOption { index: e.ent_index() as u32, _phantom: PhantomData }
            } else {
                PackedOption { index: u32::MAX, _phantom: PhantomData }
            },
            None => PackedOption { index: u32::MAX, _phantom: PhantomData },
        }
    }
}

impl<T: EntityRef> Default for PackedOption<T> {
    fn default() -> (r: Self)
        ensures
            r@ is None,
    {
        Self::none()
    }
}

} // verus!
