//! Spans of time, as plain values.
use vstd::prelude::*;

verus! {

/// The nanoseconds in a second.
pub const NANOS_PER_SEC: u32 = 1_000_000_000;

/// A span of time in whole seconds and the nanoseconds past them.
#[derive(Debug, Clone, Copy, PartialEq, Eq, PartialOrd, Ord, Hash, Structural)]
pub struct Duration {
    secs: u64,
    nanos: u32,
}

impl View for Duration {
    type V = nat;

    /// The span in nanoseconds.
    closed spec fn view(&self) -> nat {
        (self.secs * NANOS_PER_SEC + self.nanos) as nat
    }
}

/// What `std::time::Duration`'s own debug form of a span is.
pub uninterp spec fn duration_text(secs: u64, nanos: u32) -> Seq<char>;

/// `<std::time::Duration as Debug>::fmt`: the span in the unit that suits it.
#[verifier::external_body]
fn debug_text(secs: u64, nanos: u32) -> (r: String)
    requires
        nanos < NANOS_PER_SEC,
    ensures
        r@ == duration_text(secs, nanos),
{
    format!("{:?}", std::time::Duration::new(secs, nanos))
}

/// The text of a span of so many nanoseconds.
pub open spec fn span_text(nanos: nat) -> Seq<char> {
    duration_text(
        (nanos / NANOS_PER_SEC as nat) as u64,
        (nanos % NANOS_PER_SEC as nat) as u32,
    )
}

impl Duration {
    #[verifier::type_invariant]
    spec fn normal(self) -> bool {
        self.nanos < NANOS_PER_SEC
    }

    /// A span of whole seconds.
    pub fn from_secs(secs: u64) -> (r: Self)
        ensures
            r@ == secs * NANOS_PER_SEC,
    {
        Duration { secs, nanos: 0 }
    }

    /// A span of whole milliseconds.
    pub fn from_millis(millis: u64) -> (r: Self)
        ensures
            r@ == millis * 1_000_000,
    {
        Duration { secs: millis / 1000, nanos: ((millis % 1000) * 1_000_000) as u32 }
    }

    /// A span of so many nanoseconds, where it can be held.
    fn from_nanos(nanos: u128) -> (r: Self)
        requires
            nanos / 1_000_000_000 <= u64::MAX,
        ensures
            r@ == nanos,
    {
        Duration { secs: (nanos / 1_000_000_000) as u64, nanos: (nanos % 1_000_000_000) as u32 }
    }

    /// The whole seconds of this span.
    pub fn as_secs(&self) -> (r: u64)
        ensures
            r == self@ / NANOS_PER_SEC as nat,
            self@ <= u64::MAX * NANOS_PER_SEC + (NANOS_PER_SEC - 1),
    {
        proof {
            use_type_invariant(self);
        }
        self.secs
    }

    /// The nanoseconds past the whole seconds of this span.
    pub fn subsec_nanos(&self) -> (r: u32)
        ensures
            r == self@ % NANOS_PER_SEC as nat,
    {
        proof {
            use_type_invariant(self);
        }
        self.nanos
    }

    /// This span in nanoseconds.
    pub fn as_nanos(&self) -> (r: u128)
        ensures
            r == self@,
    {
        proof {
            use_type_invariant(self);
        }
        self.secs as u128 * 1_000_000_000 + self.nanos as u128
    }

    /// A `parts`th of this span, rounded down to the nanosecond.
    pub fn divided(&self, parts: u32) -> (r: Self)
        requires
            parts > 0,
        ensures
            r@ == self@ / parts as nat,
    {
        proof {
            use_type_invariant(self);
        }
        let total: u128 = self.as_nanos();
        let part: u128 = total / (parts as u128);
        proof {
            assert(part <= total) by (nonlinear_arith)
                requires
                    part == total / (parts as u128),
                    parts > 0,
            ;
            assert(part / 1_000_000_000 <= total / 1_000_000_000);
        }
        Duration::from_nanos(part)
    }

    /// The text of this span.
    pub fn to_text(&self) -> (r: String)
        ensures
            r@ == span_text(self@),
    {
        proof {
            use_type_invariant(self);
        }
        debug_text(self.secs, self.nanos)
    }
}

} // verus!
