use vstd::prelude::*;

verus! {

pub trait AsUsizeConverter {
    spec fn spec_value(&self) -> int;

    /// Converts the value of `self` to an `usize`.
    fn as_usize(&self) -> (r: usize)
        ensures
            r as int == self.spec_value(),
    ;
}

impl AsUsizeConverter for u32 {
    open spec fn spec_value(&self) -> int {
        *self as int
    }

    fn as_usize(&self) -> (r: usize) {
        *self as usize
    }
}

pub trait TryU32Converter {
    spec fn spec_value(&self) -> int;

    /// Converts the value of `self` to an `u32`; the value must fit.
    fn try_u32(&self) -> (r: u32)
        requires
            self.spec_value() <= u32::MAX,
        ensures
            r as int == self.spec_value(),
    ;
}

impl TryU32Converter for usize {
    open spec fn spec_value(&self) -> int {
        *self as int
    }

    fn try_u32(&self) -> (r: u32) {
        *self as u32
    }
}

pub trait UncheckedNumberConversions {
    spec fn spec_value(&self) -> int;

    fn to_usize(&self) -> (r: usize)
        ensures
            r as int == self.spec_value(),
    ;
}

impl UncheckedNumberConversions for u32 {
    open spec fn spec_value(&self) -> int {
        *self as int
    }

    fn to_usize(&self) -> (r: usize) {
        *self as usize
    }
}

} // verus!
