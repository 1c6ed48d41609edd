//! Locale-aware, numeric-aware segment comparison.
//!
//! A [`Collation`] wraps an `icu_collator::Collator` configured once, the
//! same way for every instance: the root locale with numeric ordering
//! switched on, so runs of decimal digits compare by numeric value.  The
//! outcome of comparing two segments is abstracted by the uninterpreted
//! spec function [`seg_cmp`]; everything the rest of the crate proves about
//! ordering is relative to that function.
use vstd::prelude::*;

verus! {

/// The outcome of comparing two values: the three-way ordering that the
/// sorters in this crate work with.
#[derive(Clone, Copy, Debug, PartialEq, Eq, Structural)]
pub enum SegOrdering {
    Less,
    Equal,
    Greater,
}

impl SegOrdering {
    /// True unless `self` is `Greater`; the "may precede" reading of a
    /// three-way comparison.
    pub open spec fn is_le(self) -> bool {
        self != SegOrdering::Greater
    }
}

/// The ordering that swapping the two compared values yields.
pub open spec fn flip(o: SegOrdering) -> SegOrdering {
    match o {
        SegOrdering::Less => SegOrdering::Greater,
        SegOrdering::Equal => SegOrdering::Equal,
        SegOrdering::Greater => SegOrdering::Less,
    }
}

/// How the collator orders two segments.  The collation algorithm is far
/// too large to restate, but for a fixed configuration its result depends
/// on the two strings alone, so the result is given a name and the crate's
/// contracts speak of that name.
pub uninterp spec fn seg_cmp(a: Seq<char>, b: Seq<char>) -> SegOrdering;

#[verifier::external_type_specification]
#[verifier::external_body]
pub struct ExCollator(icu_collator::Collator);

/// A collator fixed to the root locale with numeric ordering on.  The only
/// constructor is [`new_collator`], so every value of this type carries the
/// same configuration and [`Collation::compare`] is a function of the two
/// compared strings alone.
pub struct Collation {
    collator: icu_collator::Collator,
}

/// Relies on `icu_collator::Collator::try_new_unstable` with the data from
/// `icu_testdata`: building a collator for the root locale with numeric
/// ordering on.  The collation data is baked into `icu_testdata`, so the
/// construction succeeds.
#[verifier::external_body]
pub(crate) fn new_collator() -> Collation {
    let mut options = icu_collator::CollatorOptions::new();
    options.numeric = Some(icu_collator::Numeric::On);
    let collator = icu_collator::Collator::try_new_unstable(
        &icu_testdata::unstable(),
        &Default::default(),
        options,
    )
    .unwrap();
    Collation { collator }
}

impl Collation {
    /// Relies on `icu_collator::Collator::compare`: with the fixed
    /// configuration of [`new_collator`] the result is a function of the
    /// two strings alone, named [`seg_cmp`].  `compare` orders the two
    /// strings' collation element sequences, so swapping the arguments
    /// reverses the outcome.
    #[verifier::external_body]
    pub(crate) fn compare(&self, left: &str, right: &str) -> (r: SegOrdering)
        ensures
            r == seg_cmp(left@, right@),
            seg_cmp(right@, left@) == flip(r),
    {
        match self.collator.compare(left, right) {
            core::cmp::Ordering::Less => SegOrdering::Less,
            core::cmp::Ordering::Equal => SegOrdering::Equal,
            core::cmp::Ordering::Greater => SegOrdering::Greater,
        }
    }
}

} // verus!
