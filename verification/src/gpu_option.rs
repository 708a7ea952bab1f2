use vstd::prelude::*;

verus! {

/// An optional value laid out for the GPU: a `u32` flag (0 = none,
/// anything else = some) beside a value that is always present.
#[derive(Clone, Copy, Debug)]
pub struct GpuOption<T> {
    pub is_some: u32,
    pub value: T,
}

impl<T: Default> Default for GpuOption<T> {
    fn default() -> (o: Self)
        ensures
            o.is_some == 0,
            call_ensures(T::default, (), o.value),
    {
        GpuOption { is_some: 0, value: T::default() }
    }
}

impl<T> GpuOption<T> {
    /// The value this option stands for.
    pub open spec fn spec_option(self) -> Option<T> {
        if self.is_some != 0 { Some(self.value) } else { None }
    }

    /// No value; `default` fills the value field.
    pub fn none(default: T) -> (o: Self)
        ensures
            o.is_some == 0,
            o.value == default,
    {
        GpuOption { is_some: 0, value: default }
    }

    pub fn some(value: T) -> (o: Self)
        ensures
            o.is_some == 1,
            o.value == value,
    {
        GpuOption { is_some: 1, value }
    }

    pub fn is_some(&self) -> (b: bool)
        ensures
            b == (self.is_some != 0),
    {
        self.is_some != 0
    }

    pub fn is_none(&self) -> (b: bool)
        ensures
            b == (self.is_some == 0),
    {
        self.is_some == 0
    }

    pub fn as_ref(&self) -> (r: Option<&T>)
        ensures
            r == (if self.is_some != 0 { Some(&self.value) } else { None }),
    {
        if self.is_some != 0 {
            Some(&self.value)
        } else {
            None
        }
    }

    pub fn as_mut(&mut self) -> (r: Option<&mut T>)
        ensures
            old(self).is_some != 0 ==> (r matches Some(m) && *m == old(self).value
                && final(self).is_some == old(self).is_some && final(self).value == *final(m)),
            old(self).is_some == 0 ==> r is None && *final(self) == *old(self),
    {
        if self.is_some != 0 {
            Some(&mut self.value)
        } else {
            None
        }
    }
}

} // verus!
