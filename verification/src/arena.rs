//! Append-only arena and the opaque node handle.
//!
//! The arena owns a growable sequence of slots.  A slot is `Some(value)`
//! while the value is in place and `None` between a `take` and the matching
//! `replace`; reading a `None` slot is ruled out by contract, which is how
//! the "poisoned placeholder" of the take/replace discipline is kept out of
//! every traversal.

use vstd::prelude::*;

verus! {

/// An opaque index into exactly one [`Arena`].  It is a back-reference,
/// never an owner, and carries no information about which arena issued it:
/// keeping handles and arenas paired up is the caller's invariant.
#[derive(Clone, Copy, PartialEq, Eq, Structural, Debug)]
pub struct Node(pub usize);

/// Append-only indexed container.  Indices are stable for the arena's whole
/// lifetime and are never reused once issued.
pub struct Arena<T> {
    items: Vec<Option<T>>,
}

impl<T> Arena<T> {
    /// The abstract value of the arena: one `Option` per slot, `None` for a
    /// slot whose value is currently taken out.
    pub closed spec fn view(&self) -> Seq<Option<T>> {
        self.items@
    }

    /// Whether `n` names a slot of this arena that currently holds a value.
    pub open spec fn holds(&self, n: Node) -> bool {
        n.0 < self.view().len() && self.view()[n.0 as int] is Some
    }

    pub fn new() -> (r: Arena<T>)
        ensures
            r.view() == Seq::<Option<T>>::empty(),
    {
        Arena { items: Vec::new() }
    }

    pub fn len(&self) -> (r: usize)
        ensures
            r == self.view().len(),
    {
        self.items.len()
    }

    /// Appends `value` and hands out the handle of the fresh slot.
    pub fn add(&mut self, value: T) -> (n: Node)
        ensures
            final(self).view() == old(self).view().push(Some(value)),
            n.0 == old(self).view().len(),
            final(self).holds(n),
    {
        let n = Node(self.items.len());
        self.items.push(Some(value));
        n
    }

    pub fn get(&self, n: Node) -> (r: &T)
        requires
            self.holds(n),
        ensures
            *r == self.view()[n.0 as int]->Some_0,
    {
        self.items[n.0].as_ref().unwrap()
    }

    pub fn get_mut(&mut self, n: Node) -> (r: &mut T)
        requires
            old(self).holds(n),
        ensures
            *r == old(self).view()[n.0 as int]->Some_0,
            final(self).view() == old(self).view().update(
                n.0 as int,
                Some(*final(r)),
            ),
    {
        self.items[n.0].as_mut().unwrap()
    }

    /// Moves the value out of slot `n`, leaving the slot empty until a
    /// matching [`Arena::replace`] puts a value back.
    pub fn take(&mut self, n: Node) -> (r: T)
        requires
            old(self).holds(n),
        ensures
            r == old(self).view()[n.0 as int]->Some_0,
            final(self).view() == old(self).view().update(n.0 as int, None),
    {
        self.items[n.0].take().unwrap()
    }

    /// Overwrites slot `n`, typically one previously taken.
    pub fn replace(&mut self, n: Node, value: T)
        requires
            n.0 < old(self).view().len(),
        ensures
            final(self).view() == old(self).view().update(n.0 as int, Some(value)),
    {
        self.items[n.0] = Some(value);
    }
}

} // verus!
