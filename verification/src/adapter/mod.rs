//! The representations this crate can manage.
//!
//! Each adapter answers the same four questions about a different kind of
//! target: how an item is addressed, what is at an address, whether that value
//! is this tool's, and how to write or withdraw it. Nothing about *which* change
//! to make lives here: [`crate::policy`] decides that once, for all of them.
//!
//! | adapter | target | address | provenance |
//! |---|---|---|---|
//! | [`json::JsonDoc`] | a JSON document | dotted key path | side-car, via [`crate::prior`] |
//!
//! # Dispatch
//!
//! [`Adapter`] is an enum rather than a trait object because the set of
//! representations is closed within this crate: an enum keeps the dispatch
//! visible and costs nothing at runtime, and [`Store`] exists to state the
//! contract an implementation must meet rather than to be implemented from
//! outside.
//!
//! Adding a representation is a new module, a new variant, and two lines in each
//! match below.

pub mod expansion;
pub mod json;
pub mod laws;
pub mod model;
pub mod path;
pub mod promises;
pub mod reruns;
pub mod writing;

use crate::error::{Error, Failure};
use crate::port::{Addr, Item, ItemView, Output, OutputView, State, StateView, Store};
use vstd::prelude::*;

pub use self::json::JsonDoc;

verus! {

/// One of the representations this crate manages.
pub enum Adapter {
    /// A JSON document addressed by key path.
    Json(JsonDoc),
}

impl Store for Adapter {
    open spec fn inv(&self) -> bool {
        match self {
            Adapter::Json(a) => a.inv(),
        }
    }

    open spec fn declares(&self) -> Result<Seq<ItemView>, Failure> {
        match self {
            Adapter::Json(a) => a.declares(),
        }
    }

    open spec fn records(&self) -> Seq<ItemView> {
        match self {
            Adapter::Json(a) => a.records(),
        }
    }

    open spec fn reads(&self, addr: Seq<char>) -> Result<StateView, Failure> {
        match self {
            Adapter::Json(a) => a.reads(addr),
        }
    }

    open spec fn writes(&self, addr: Seq<char>, after: &Self, result: Result<(), Failure>) -> bool {
        match (self, after) {
            (Adapter::Json(a), Adapter::Json(b)) => a.writes(addr, b, result),
        }
    }

    open spec fn retracts(
        &self,
        addr: Seq<char>,
        after: &Self,
        result: Result<(), Failure>,
    ) -> bool {
        match (self, after) {
            (Adapter::Json(a), Adapter::Json(b)) => a.retracts(addr, b, result),
        }
    }

    open spec fn renders(
        &self,
        owned: Seq<ItemView>,
        after: &Self,
        result: Result<OutputView, Failure>,
    ) -> bool {
        match (self, after) {
            (Adapter::Json(a), Adapter::Json(b)) => a.renders(owned, b, result),
        }
    }

    fn declared(&self) -> (r: Result<Vec<Item>, Error>) {
        match self {
            Adapter::Json(a) => a.declared(),
        }
    }

    fn owned(&self) -> (r: Vec<Item>) {
        match self {
            Adapter::Json(a) => a.owned(),
        }
    }

    fn state(&self, addr: &Addr) -> (r: Result<State, Error>) {
        match self {
            Adapter::Json(a) => a.state(addr),
        }
    }

    fn write(&mut self, addr: &Addr) -> (r: Result<(), Error>) {
        match self {
            Adapter::Json(a) => a.write(addr),
        }
    }

    fn retract(&mut self, addr: &Addr) -> (r: Result<(), Error>) {
        match self {
            Adapter::Json(a) => a.retract(addr),
        }
    }

    fn finish(&mut self, owned: &[Item]) -> (r: Result<Output, Error>) {
        match self {
            Adapter::Json(a) => a.finish(owned),
        }
    }
}

} // verus!
