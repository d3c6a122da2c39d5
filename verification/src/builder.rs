//! A small fluent builder for value types, driven by a caller-supplied
//! callback.

use vstd::prelude::*;

use crate::module::ValueType;

verus! {

/// A callback a builder hands its finished value to.
pub trait Invoke<A>: Sized {
    type Result;

    /// What the callback returns for a given argument.
    spec fn spec_invoke(self, arg: A) -> Self::Result;

    /// Hand the argument to the callback.
    fn invoke(self, arg: A) -> (r: Self::Result)
        ensures
            r == self.spec_invoke(arg),
    ;
}

/// The callback that returns its argument unchanged.
pub struct Identity;

impl<A> Invoke<A> for Identity {
    type Result = A;

    open spec fn spec_invoke(self, arg: A) -> A {
        arg
    }

    fn invoke(self, arg: A) -> (r: A) {
        arg
    }
}

/// Builder of a single value type.
pub struct ValueTypeBuilder<F = Identity> {
    callback: F,
}

impl<F> ValueTypeBuilder<F> where F: Invoke<ValueType> {
    /// The callback the builder was made with.
    pub closed spec fn spec_callback(&self) -> F {
        self.callback
    }

    /// Create a builder around a callback.
    pub fn with_callback(callback: F) -> (b: Self)
        ensures
            b.spec_callback() == callback,
    {
        ValueTypeBuilder { callback }
    }

    /// Finish with a 32-bit integer type.
    pub fn i32(self) -> (r: F::Result)
        ensures
            r == self.spec_callback().spec_invoke(ValueType::I32),
    {
        self.callback.invoke(ValueType::I32)
    }

    /// Finish with a 64-bit integer type.
    pub fn i64(self) -> (r: F::Result)
        ensures
            r == self.spec_callback().spec_invoke(ValueType::I64),
    {
        self.callback.invoke(ValueType::I64)
    }

    /// Finish with a 32-bit floating-point type.
    pub fn float32(self) -> (r: F::Result)
        ensures
            r == self.spec_callback().spec_invoke(ValueType::F32),
    {
        self.callback.invoke(ValueType::F32)
    }

    /// Finish with a 64-bit floating-point type.
    pub fn float64(self) -> (r: F::Result)
        ensures
            r == self.spec_callback().spec_invoke(ValueType::F64),
    {
        self.callback.invoke(ValueType::F64)
    }
}

/// Builder of a list of value types.
pub struct ValueTypesBuilder<F = Identity> {
    callback: F,
    value_types: Vec<ValueType>,
}

impl<F> ValueTypesBuilder<F> where F: Invoke<Vec<ValueType>> {
    /// The callback the builder was made with.
    pub closed spec fn spec_callback(&self) -> F {
        self.callback
    }

    /// The value types collected so far, as the vector `build` hands
    /// over.
    pub closed spec fn spec_types_vec(&self) -> Vec<ValueType> {
        self.value_types
    }

    /// The value types collected so far.
    pub open spec fn spec_types(&self) -> Seq<ValueType> {
        self.spec_types_vec()@
    }

    /// Create a builder around a callback.
    pub fn with_callback(callback: F) -> (b: Self)
        ensures
            b.spec_callback() == callback,
            b.spec_types() == Seq::<ValueType>::empty(),
    {
        let b = ValueTypesBuilder { callback, value_types: Vec::new() };
        proof {
            assert(b.spec_types() =~= Seq::<ValueType>::empty());
        }
        b
    }

    /// Append a 32-bit integer type.
    pub fn i32(self) -> (r: Self)
        ensures
            r.spec_callback() == self.spec_callback(),
            r.spec_types() == self.spec_types().push(ValueType::I32),
    {
        let mut b = self;
        b.value_types.push(ValueType::I32);
        b
    }

    /// Append a 64-bit integer type.
    pub fn i64(self) -> (r: Self)
        ensures
            r.spec_callback() == self.spec_callback(),
            r.spec_types() == self.spec_types().push(ValueType::I64),
    {
        let mut b = self;
        b.value_types.push(ValueType::I64);
        b
    }

    /// Append a 32-bit floating-point type.
    pub fn float32(self) -> (r: Self)
        ensures
            r.spec_callback() == self.spec_callback(),
            r.spec_types() == self.spec_types().push(ValueType::F32),
    {
        let mut b = self;
        b.value_types.push(ValueType::F32);
        b
    }

    /// Append a 64-bit floating-point type.
    pub fn float64(self) -> (r: Self)
        ensures
            r.spec_callback() == self.spec_callback(),
            r.spec_types() == self.spec_types().push(ValueType::F64),
    {
        let mut b = self;
        b.value_types.push(ValueType::F64);
        b
    }

    /// Hand the collected list to the callback.
    pub fn build(self) -> (r: F::Result)
        ensures
            r == self.spec_callback().spec_invoke(self.spec_types_vec()),
    {
        self.callback.invoke(self.value_types)
    }
}

} // verus!
