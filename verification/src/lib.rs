//! Volatile type identifiers: values that distinguish a type's declaration
//! and change whenever the compiled unit declaring the type is rebuilt.
//!
//! An identifier pairs a process-stable type token with a base value drawn
//! from a persistent build counter. The counter's read-increment-write logic
//! lives in [`counter`]; this module holds the identifier type and the pure
//! pairing that combines the two components.

use vstd::prelude::*;

pub mod counter;

verus! {

/// An opaque, process-stable token that distinguishes one participating type
/// from another. The code-generation step assigns each participating type a
/// token of its own; the library only compares tokens, never inspects them.
#[derive(Clone, Copy, Debug, Hash, PartialEq, Eq, Structural, PartialOrd, Ord)]
pub struct TypeToken {
    raw: u64,
}

impl TypeToken {
    /// The raw value behind the token, for contracts only.
    pub closed spec fn spec_raw(self) -> u64 {
        self.raw
    }

    /// Wraps a raw token value assigned by the code-generation step.
    pub fn new(raw: u64) -> (r: TypeToken)
        ensures
            r.spec_raw() == raw,
    {
        TypeToken { raw }
    }
}

/// A type identifier that changes between compilations of the containing
/// compiled unit: a type token paired with the build-scoped base value.
#[derive(Clone, Copy, Debug, Hash, PartialEq, Eq, Structural, PartialOrd, Ord)]
pub struct Vtid {
    tid: TypeToken,
    base_id: u64,
}

/// A type that has opted in to volatile identification. Implementations are
/// emitted by the code-generation step, which fixes the type's token and the
/// compiled unit's base value once per build.
pub trait HasVtid {
    fn vtid() -> Vtid where Self: Sized;
}

impl Vtid {
    /// The identity-token component, for contracts only.
    pub closed spec fn spec_token(self) -> TypeToken {
        self.tid
    }

    /// The base-value component, for contracts only.
    pub closed spec fn spec_base(self) -> u64 {
        self.base_id
    }

    /// Creates a volatile type identifier for a type that implements
    /// `HasVtid`: exactly what the type's own `vtid` implementation produces.
    pub fn of<T: HasVtid>() -> (r: Self)
        ensures
            call_ensures(T::vtid, (), r),
    {
        T::vtid()
    }
}

/// Pairs a type token with a base value into an identifier. This is the whole
/// combiner: the identifier holds exactly the two components it was given.
pub fn vtid(token: TypeToken, base_id: u64) -> (r: Vtid)
    ensures
        r.spec_token() == token,
        r.spec_base() == base_id,
{
    Vtid { tid: token, base_id }
}

/// Identifiers built from the same token and the same base value are equal.
/// Within one process a type's token and the cached base value never change,
/// so repeated queries for one type agree; and a process restarted without an
/// intervening counter advance reproduces both components, so its identifiers
/// equal the earlier ones.
pub proof fn lemma_same_components_equal(a: Vtid, b: Vtid)
    requires
        a.spec_token() == b.spec_token(),
        a.spec_base() == b.spec_base(),
    ensures
        a == b,
{
}

/// Identifiers whose tokens differ are distinct, whatever their base values:
/// two distinct types differ in the identity-token field even when they share
/// one compilation's base value.
pub proof fn lemma_distinct_tokens_distinct(a: Vtid, b: Vtid)
    requires
        a.spec_token() != b.spec_token(),
    ensures
        a != b,
{
}

/// Identifiers whose base values differ are distinct: recompiling a unit
/// advances its base value, so every type of the unit gets a new identifier.
pub proof fn lemma_distinct_bases_distinct(a: Vtid, b: Vtid)
    requires
        a.spec_base() != b.spec_base(),
    ensures
        a != b,
{
}

/// Recompiling a unit changes the same type's identifier: the second of two
/// counter updates starts from the text the first one wrote, so it yields a
/// strictly greater base value, and identifiers differing in the base value
/// differ, whatever the token.
pub proof fn lemma_recompilation_changes_identifier(
    content: Seq<u8>,
    seed1: u64,
    seed2: u64,
    a: Vtid,
    b: Vtid,
)
    requires
        counter::spec_previous(content, seed1) + 1 < u64::MAX,
        a.spec_base() == counter::spec_previous(content, seed1) + 1,
        b.spec_base() == counter::spec_previous(
            counter::spec_decimal((counter::spec_previous(content, seed1) + 1) as nat),
            seed2,
        ) + 1,
    ensures
        a.spec_base() != b.spec_base(),
        a != b,
{
    counter::lemma_updates_strictly_increase(content, seed1, seed2);
}

} // verus!
