//! Regular bag expressions: grammars over unordered multisets of keyed
//! occurrences, with a matcher that decides whether a bag conforms to a
//! grammar and explains why it does not, and a harness that runs declarative
//! fixtures against the matcher.

pub mod bag;
pub mod candidate;
pub mod cardinality;
pub mod fixture;
pub mod iri;
pub mod laws;
pub mod manifest;
pub mod matcher;
pub mod rbe;
pub mod report;
pub mod suite;
mod text;
pub mod valued;

pub use bag::{Bag, BagError};
pub use candidate::{Candidate, Component, MatchCond};
pub use cardinality::{Cardinality, CardinalityError, Max};
pub use fixture::{ExpectedResult, RbeTest, RbeTestResult};
pub use iri::{IriS, IriSError};
pub use manifest::{ManifestError, ManifestSchemas, ManifestSchemasGraph, RunStep, Schema, SchemasEntry};
pub use matcher::{FailureReason, MatchResult};
pub use rbe::Rbe;
pub use report::ValidationReport;
pub use suite::{RbeTestResults, RbeTests};
pub use valued::{Rbe1, ValuedResult};
