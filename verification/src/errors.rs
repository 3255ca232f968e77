use vstd::prelude::*;

verus! {

/// Why a reconciliation pass was aborted. A failed pass commits nothing:
/// the store keeps the state of the last successful pass.
#[derive(Debug)]
pub enum LoadError {
    /// A 65th challenge would have to be assigned an id beyond the solve
    /// bitmask's width.
    Capacity,
    /// A start or stop instant in the competition definition is not a
    /// valid RFC 3339 timestamp.
    BadTimestamp,
    /// Two challenge definitions in the repository claim the same slug.
    DuplicateSlug,
}

impl LoadError {
    /// A short operator-visible description.
    pub fn message(&self) -> (r: &'static str)
        ensures
            r@ == self.message_text(),
    {
        match self {
            LoadError::Capacity => "challenge capacity exceeded",
            LoadError::BadTimestamp => "invalid start or stop timestamp",
            LoadError::DuplicateSlug => "duplicate challenge slug",
        }
    }

    pub open spec fn message_text(self) -> Seq<char> {
        match self {
            LoadError::Capacity => "challenge capacity exceeded"@,
            LoadError::BadTimestamp => "invalid start or stop timestamp"@,
            LoadError::DuplicateSlug => "duplicate challenge slug"@,
        }
    }
}

} // verus!
