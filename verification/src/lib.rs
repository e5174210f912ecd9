//! The decisions of an embedded SQL engine over paged trees.
//!
//! A connection reads and writes rows in trees of pages, through a log for each
//! file it holds. What it does with the bytes is done elsewhere; what it decides
//! is decided here, over plain values, and proved.
//!
//! - Rows and keys: [`values`] and [`text`] say what a value is and how two
//!   compare, [`codes`] and [`radix`] turn that order into one over words, and
//!   [`entries`] sorts an index's entries by it.
//! - Shapes: [`rowshape`] and [`tables`] say which tree a table or an index has
//!   and where each column stands in it; [`write`] puts rows in a tree's order.
//! - Catalogs: [`import`] carries one into a new file, [`loading`] reads one out
//!   of a file, and [`reattach`] finds its trees again.
//! - Names: [`sessions`] and [`handles`] number the databases and the trees of a
//!   connection.
//! - Changes: [`transactions`], [`logs`] and [`statement_run`] say what a write
//!   leaves behind and how it is taken back, [`keys`] which foreign keys are
//!   looked at and when, [`counters`] what is counted, and [`multi`] how a commit
//!   over several files is decided by the deletion of one.
//! - Files: [`open`] and [`locks`] say when a file is read again, folded and let
//!   go.
//! - Statements: [`statements`] and [`plans`] say what a statement is compiled to
//!   and when it is compiled again, [`pragma`] what each pragma is answered,
//!   [`explain`], [`introspect`] and [`inspect`] how statements and pages are
//!   described.
//! - Checks: [`integrity`] compares indexes with their tables, and [`pages`] the
//!   trees with the free map.
//! - [`database`] is a connection as a whole, [`state`] what it is set to, and
//!   [`refusals`] what it refuses.

use vstd::prelude::*;

pub mod codes;
pub mod counters;
pub mod database;
pub mod entries;
pub mod explain;
pub mod handles;
pub mod import;
pub mod inspect;
pub mod integrity;
pub mod introspect;
pub mod keys;
pub mod loading;
pub mod locks;
pub mod logs;
pub mod multi;
pub mod numbers;
pub mod open;
pub mod pages;
pub mod plans;
pub mod pragma;
pub mod radix;
pub mod reattach;
pub mod refusals;
pub mod rowshape;
pub mod schema;
pub mod sessions;
pub mod sorting;
pub mod state;
pub mod statement_run;
pub mod statements;
pub mod tables;
pub mod text;
pub mod transactions;
pub mod values;
pub mod write;

verus! {

} // verus!
