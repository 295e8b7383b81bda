//! A parameterized golden-file test engine.
//!
//! A golden file is a plain-text file holding named test cases; each case
//! holds named, multi-line parameter values.  The engine parses such a file,
//! hands every case to caller-supplied test logic (a [`Testable`]), records
//! each mismatch between a stored value and the freshly computed one, and can
//! serialize the cases back out so the file becomes the new baseline.
//!
//! The grammar, the compare-and-update protocol, the failure report and the
//! two run modes (check and update) are verified here; reading and writing
//! the file itself is left to the caller, who hands the engine the file's
//! text and receives the rewritten text back.

pub mod case;
pub mod engine;
pub mod laws;
pub mod params;
pub mod parse;
pub mod render;
pub mod report;
pub mod text;

pub use case::TestCase;
pub use case::Testable;
pub use engine::RunError;
pub use engine::TestFile;
pub use parse::FormatError;
pub use parse::parse_cases;
pub use render::render;
pub use report::build_report;
