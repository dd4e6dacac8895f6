//! A node's requirements on how many inputs it has, and helpers for vectors of optional slots.
use vstd::prelude::*;

verus! {

/// What are this node's requirements on its count of inputs?
#[derive(Debug, Clone, Copy, PartialEq, Eq, Structural)]
pub struct InputCount {
    pub min: u32,
    pub max: u32,
}

impl InputCount {
    pub fn new(min: u32, max: u32) -> (r: Self)
        ensures
            r == (InputCount { min, max }),
    {
        InputCount { min, max }
    }

    /// No inputs allowed.
    pub fn none() -> (r: Self)
        ensures
            r == (InputCount { min: 0, max: 0 }),
    {
        InputCount::fixed(0)
    }

    /// A fixed number of inputs.
    pub fn fixed(n: u32) -> (r: Self)
        ensures
            r == (InputCount { min: n, max: n }),
    {
        InputCount::new(n, n)
    }

    /// 0 to N.
    pub fn up_to(n: u32) -> (r: Self)
        ensures
            r == (InputCount { min: 0, max: n }),
    {
        InputCount::new(0, n)
    }

    /// At least this many.
    pub fn at_least(n: u32) -> (r: Self)
        ensures
            r == (InputCount { min: n, max: u32::MAX }),
    {
        InputCount::new(n, u32::MAX)
    }

    /// Any number of inputs.
    pub fn any() -> (r: Self)
        ensures
            r == (InputCount { min: 0, max: u32::MAX }),
    {
        InputCount::new(0, u32::MAX)
    }

    /// Return true if this input count specifies that it is safe to push another input.
    pub fn can_push(&self, current_input_count: u32) -> (r: bool)
        ensures
            r == (current_input_count < self.max),
    {
        current_input_count < self.max
    }

    /// Return true if this input count specifies that it is safe to pop the last input.
    pub fn can_pop(&self, current_input_count: u32) -> (r: bool)
        ensures
            r == (current_input_count > self.min),
    {
        current_input_count > self.min
    }
}

/// Push an item onto a vector of optional slots and return a mutable reference to it.
pub fn push_and_get_mut<T>(v: &mut Vec<Option<T>>, item: T) -> (r: &mut T)
    ensures
        *r == item,
        final(v)@ == old(v)@.push(Some(*final(r))),
{
    v.push(Some(item));
    let last = v.len() - 1;
    v[last].as_mut().unwrap()
}

/// Put an item into a slot of a vector of optional slots and return a mutable reference to it.
pub fn insert_and_get_mut<T>(v: &mut Vec<Option<T>>, index: usize, item: T) -> (r: &mut T)
    requires
        index < old(v)@.len(),
    ensures
        *r == item,
        final(v)@ == old(v)@.update(index as int, Some(*final(r))),
{
    let slot = &mut v[index];
    *slot = Some(item);
    slot.as_mut().unwrap()
}

/// Flatten a reference to an optional slot.
pub fn flatten<T>(o: Option<&Option<T>>) -> (r: Option<&T>)
    ensures
        r == match o {
            Some(Some(x)) => Some(x),
            _ => None::<&T>,
        },
{
    match o {
        Some(Some(x)) => Some(x),
        _ => None,
    }
}

/// Flatten a mutable reference to an optional slot.
pub fn flatten_mut<T>(o: Option<&mut Option<T>>) -> (r: Option<&mut T>)
    ensures
        match o {
            Some(slot) => match *slot {
                Some(x) => r matches Some(y) && *y == x && *final(slot) == Some(*final(y)),
                None => r is None && *final(slot) == None::<T>,
            },
            None => r is None,
        },
{
    match o {
        Some(slot) => match slot {
            Some(x) => Some(x),
            None => None,
        },
        None => None,
    }
}

} // verus!
