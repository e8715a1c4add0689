//! Query input validation.

use vstd::prelude::*;

use crate::query::plan::QueryError;
use crate::query::settings::QuerySettings;

verus! {

/// Validates raw query input before planning starts.
pub struct PatternValidator;

/// A regex pattern that passed cheap input validation.
#[derive(Debug, Clone, Copy)]
pub struct ValidatedPattern<'a> {
    pattern: &'a str,
}

/// The planner takes a pattern of this length in bytes.
pub open spec fn fits(pattern: &str) -> bool {
    pattern.len() <= QuerySettings::MAX_PATTERN_LEN
}

/// The refusal of a pattern that is too long.
pub open spec fn too_long(pattern: &str) -> QueryError {
    QueryError::PatternTooLong { len: pattern.len(), max: QuerySettings::MAX_PATTERN_LEN }
}

impl PatternValidator {
    /// Validate one regex pattern: it is refused when it exceeds the planner's
    /// byte limit, and only then.
    pub fn validate(pattern: &str) -> (out: Result<ValidatedPattern<'_>, QueryError>)
        ensures
            match out {
                Ok(valid) => fits(pattern) && valid.text() == pattern@,
                Err(err) => !fits(pattern) && err == too_long(pattern),
            },
    {
        if pattern.len() > QuerySettings::MAX_PATTERN_LEN {
            return Err(
                QueryError::PatternTooLong {
                    len: pattern.len(),
                    max: QuerySettings::MAX_PATTERN_LEN,
                },
            );
        }
        Ok(ValidatedPattern { pattern })
    }
}

impl<'a> ValidatedPattern<'a> {
    /// The pattern's characters.
    pub closed spec fn text(self) -> Seq<char> {
        self.pattern@
    }

    /// The validated pattern text.
    #[must_use]
    pub fn as_str(self) -> (pattern: &'a str)
        ensures
            pattern@ == self.text(),
    {
        self.pattern
    }
}

} // verus!
