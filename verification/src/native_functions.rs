use vstd::prelude::*;

verus! {

/// A function that the interpreter provides itself.
#[derive(Debug, Clone, Copy, PartialEq, Eq, Structural)]
pub enum NativeFunction {
    /// The time since the Unix epoch, in seconds.
    Clock,
}

/// The number of arguments a native function takes.
pub open spec fn spec_arity(f: NativeFunction) -> nat {
    match f {
        NativeFunction::Clock => 0,
    }
}

/// The name under which a native function is shown.
pub open spec fn spec_native_name(f: NativeFunction) -> Seq<char> {
    match f {
        NativeFunction::Clock => "clock"@,
    }
}

impl NativeFunction {
    /// The number of arguments this function takes.
    pub fn arity(&self) -> (r: usize)
        ensures
            r == spec_arity(*self),
    {
        match self {
            NativeFunction::Clock => 0,
        }
    }

    /// The name under which this function is shown.
    pub fn describe(&self) -> (r: &'static str)
        ensures
            r@ == spec_native_name(*self),
    {
        match self {
            NativeFunction::Clock => "clock",
        }
    }
}

} // verus!
