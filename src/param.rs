use vstd::prelude::*;
use crate::error::{CodecError, Rendered, SerializationContext};

verus! {

/// A value that renders itself as SQL literal text or as native bytes, in
/// one implementation per type whose branch the context alone selects.
pub trait TypedValue {
    /// What rendering `self` in `ctx` may give.
    spec fn renders_as(&self, ctx: SerializationContext, r: Result<Rendered, CodecError>) -> bool;

    fn serialize(&self, ctx: SerializationContext) -> (r: Result<Rendered, CodecError>)
        ensures
            self.renders_as(ctx, r),
    ;
}

/// A value that can be bound as a query parameter. Every `TypedValue` is one,
/// and binds by rendering itself.
pub trait ClickHouseParam: TypedValue {
    fn serialize_param(&self, ctx: SerializationContext) -> (r: Result<Rendered, CodecError>)
        ensures
            self.renders_as(ctx, r),
    {
        self.serialize(ctx)
    }
}

impl<T: TypedValue> ClickHouseParam for T {
}

} // verus!
