//! Splits a script of SQL-like statements into individual statements.
//!
//! The work is done by a small quote-aware scanner that decides which
//! semicolons end a statement, preceded by a pass that drops comment lines
//! and followed by trimming and a check that rejects transaction-control
//! commands. There is no intention to validate or prepare statements; the
//! use case is per-statement execution, timing and feedback.

pub mod text;
pub mod scanner;
pub mod comments;
pub mod statements;

pub use scanner::{Parser, ScanMode};
pub use statements::{parse, ReservedCommand, Statement, StatementGroup};
