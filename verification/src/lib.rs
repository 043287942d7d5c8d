//! Inject declared items into config files owned by another program.
//!
//! A config file you want to manage from a repository is often not yours alone.
//! The application writes to it too: a model choice, a remembered permission, a
//! UI toggle. Owning the whole file (symlink, template render, `cp`) throws
//! those away. Owning nothing means the repository cannot configure anything.
//!
//! So this crate injects *items* and leaves everything else alone. One rule
//! covers every operation: **apply what is provably ours, report what is not,
//! never overwrite a disagreement.**
//!
//! # The unit is an item, not a file format
//!
//! Managing config from above means declaring, per item, what its value should
//! be. Where that item lives is a question of *representation*: how the item is
//! addressed, read, and written. It does not change what the management decision
//! is.
//!
//! That split is the whole architecture:
//!
//! - [`policy`] decides. One table, no knowledge of any format.
//! - [`port::Store`] is the interface a representation implements.
//! - [`adapter`] holds the implementations ([JSON documents][adapter::json]).
//! - [`engine`] walks the items and applies the decisions.
//! - [`prior`] keeps provenance for representations that cannot hold it inline.
//! - [`atomic`] names the file a document is written to before it replaces the
//!   target.
//! - [`cli`] says what the front end prints, writes back and records.
//!
//! Adding a representation means adding an adapter. No other module changes.
//!
//! # Three inputs, not two
//!
//! The central invariant: **a decision needs three values, not two.**
//!
//! | | |
//! |---|---|
//! | `declared` | what the repository says the value should be |
//! | `prior` | what this tool wrote on its last run |
//! | `observed` | what is in the target right now |
//!
//! Comparing only `declared` against `observed` cannot answer the question that
//! matters, which is *who wrote the value that is there*. Without `prior`, a
//! value this tool wrote itself is indistinguishable from a value the other
//! program wrote, so every change to a declaration looks like a conflict and no
//! value can ever be updated or withdrawn.
//!
//! `prior` collapses that ambiguity into [`port::Ownership`], which is what the
//! policy actually branches on.
//!
//! # What is proved
//!
//! Every function states what it does over mathematical models: a JSON value is
//! a [`tree::Tree`], a document under management a
//! [`adapter::model::DocView`], a run a sequence of stores
//! ([`engine::ran`]). What holds of the library as a whole is stated as laws:
//!
//! - of the decision table, in [`policy`];
//! - of the values a document holds at its paths, in [`tree`];
//! - of what a declaration asks for, in [`adapter::expansion`], of what writing and
//!   withdrawing an item do, in [`adapter::writing`], and of what a run promises about
//!   each item, in [`adapter::promises`]: a hand edit survives, and what is ours
//!   follows the declaration;
//! - of an invocation as a whole, in [`invocation`]: where the declaration comes from
//!   and goes to, what is written back and recorded, and what the report tells;
//! - of every run, in [`runs`], and of a second run over any representation whose
//!   addresses name independent slots, in [`slots`];
//! - of runs over JSON documents, in [`adapter::laws`]: what is clear of the
//!   items is left alone, a refused value survives, what is not refused is
//!   applied, and what is withdrawn is gone;
//! - of a second run over a JSON document, in [`adapter::reruns`]: it has nothing
//!   to do and hands the same record back;
//! - of the record of what was written, in [`prior`];
//! - of canonical forms, in [`canon`] and [`unique`], of indented text, in
//!   [`layout`], and of addresses, in [`adapter::path`].

pub mod adapter;
pub mod atomic;
pub mod canon;
pub mod cli;
pub mod engine;
pub mod error;
pub mod invocation;
pub mod layout;
pub mod policy;
pub mod port;
pub mod prior;
pub mod runs;
pub mod slots;
pub mod text;
pub mod tree;
pub mod unique;
pub mod value;

pub use crate::error::Error;
