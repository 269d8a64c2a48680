//! The finding record and the duplicate relation.

use vstd::prelude::*;

verus! {

/// One reported occurrence of a detected secret.
///
/// Records are immutable once loaded: no field is changed by partitioning or
/// rendering.  The entropy score is carried opaquely as the bit pattern of a
/// 32-bit IEEE 754 value; no logic here reads it, it only travels with the
/// record.
pub struct Finding {
    pub description: String,
    pub start_line: usize,
    pub end_line: usize,
    pub start_column: usize,
    pub end_column: usize,
    /// The matched text.
    pub match_: String,
    /// The secret itself; one half of the duplicate relation.
    pub secret: String,
    pub file: String,
    pub symlink_file: String,
    pub commit: String,
    /// Bit pattern of the 32-bit floating-point entropy score.
    pub entropy_bits: u32,
    pub author: String,
    pub email: String,
    pub date: String,
    pub message: String,
    pub tags: Vec<String>,
    /// Identifier of the detection rule; the other half of the duplicate relation.
    pub rule_id: String,
    /// Stable identifier of this occurrence (location and rule).
    pub fingerprint: String,
}

/// The duplicate relation: two findings are duplicates of one another when
/// their secrets and their rule identifiers agree.  It is an equivalence
/// relation on findings.
pub open spec fn same_key(a: Finding, b: Finding) -> bool {
    a.secret@ == b.secret@ && a.rule_id@ == b.rule_id@
}

impl Finding {
    /// Tests the duplicate relation against another finding.
    pub fn is_duplicate_of(&self, other: &Finding) -> (r: bool)
        ensures
            r == same_key(*self, *other),
    {
        self.secret == other.secret && self.rule_id == other.rule_id
    }
}

} // verus!
