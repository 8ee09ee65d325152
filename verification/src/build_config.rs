//! Configuration for build-time source generation from record descriptions.

use vstd::prelude::*;

verus! {

/// How a described record should be realized in generated sources.
#[derive(Clone, Copy, PartialEq, Eq, Structural, Debug)]
pub enum MessageConfig {
    /// Generate a borrowed shape: the record is only ever encoded, so its
    /// fields can reference caller data.
    EncodeOnly,
    /// Generate an owned shape: the record is decoded into, so its fields
    /// own their data.
    DecodeOnly,
    /// Leave the record out of the generated sources.
    DoNotGenerate,
}

/// Generation options: a policy choosing a [`MessageConfig`] per record.
pub struct Config<F> {
    policy: F,
}

impl<F> Config<F> {
    /// The policy inside.
    pub closed spec fn spec_policy(&self) -> F {
        self.policy
    }

    /// Wraps a per-record policy.
    pub fn new(policy: F) -> (r: Self)
        ensures
            r.spec_policy() == policy,
    {
        Config { policy }
    }
}

} // verus!
