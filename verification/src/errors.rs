//! Error taxonomy of the experiment engine.
//!
//! Construction-time problems (bad input data, unknown names) abort a
//! node's experiment; a degenerate score is never an error and travels
//! through the result series as a missing value instead.

use crate::text::u64_to_string;
use vstd::prelude::*;
use vstd::string::StringExecFns;

verus! {

/// What can go wrong while preparing or scoring an experiment.
#[derive(Clone, Debug)]
pub enum DataFillError {
    /// An input series is malformed (columns of unequal length, an
    /// unsorted timeline, a missing column).  Fatal for that node.
    Data(String),
    /// Too few joined rows survived for the requested sample count; the
    /// node is skipped with a warning, not failed.
    InsufficientData { rows: usize, required: usize },
    /// An unrecognized error-metric name; surfaced immediately.
    UnknownMetric(String),
    /// An unrecognized fill-strategy name; surfaced immediately.
    UnknownStrategy(String),
}

impl DataFillError {
    /// A human-readable description of the error.
    pub fn message(&self) -> (r: String)
        ensures
            self matches DataFillError::Data(s) ==> r@ == "data error: "@ + s@,
            self matches DataFillError::InsufficientData { rows, required } ==> r@
                == "insufficient data: "@ + crate::text::dec_digits(rows as nat) + " rows, "@
                + crate::text::dec_digits(required as nat) + " required"@,
            self matches DataFillError::UnknownMetric(s) ==> r@ == "unknown error metric: "@ + s@,
            self matches DataFillError::UnknownStrategy(s) ==> r@
                == "unknown data fill strategy: "@ + s@,
    {
        match self {
            DataFillError::Data(s) => {
                let mut m = String::new();
                m.append("data error: ");
                m.append(s.as_str());
                proof {
                    assert(m@ =~= "data error: "@ + s@);
                }
                m
            },
            DataFillError::InsufficientData { rows, required } => {
                let mut m = String::new();
                m.append("insufficient data: ");
                m.append(u64_to_string(*rows as u64).as_str());
                m.append(" rows, ");
                m.append(u64_to_string(*required as u64).as_str());
                m.append(" required");
                proof {
                    assert(m@ =~= "insufficient data: "@ + crate::text::dec_digits(*rows as nat)
                        + " rows, "@ + crate::text::dec_digits(*required as nat) + " required"@);
                }
                m
            },
            DataFillError::UnknownMetric(s) => {
                let mut m = String::new();
                m.append("unknown error metric: ");
                m.append(s.as_str());
                proof {
                    assert(m@ =~= "unknown error metric: "@ + s@);
                }
                m
            },
            DataFillError::UnknownStrategy(s) => {
                let mut m = String::new();
                m.append("unknown data fill strategy: ");
                m.append(s.as_str());
                proof {
                    assert(m@ =~= "unknown data fill strategy: "@ + s@);
                }
                m
            },
        }
    }
}

} // verus!
