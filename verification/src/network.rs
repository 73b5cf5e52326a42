//! Orders exchanged between players over the network, and which of them an
//! opponent gets to see.

use vstd::prelude::*;
use crate::cubic::{Cube, key_of};
use crate::fog::Fog;

verus! {

/// An order of the army at `from` against `to`.
#[derive(Clone, Copy, PartialEq, Eq, Debug, Structural)]
pub struct Command {
    pub from: Cube<i32>,
    pub to: Cube<i32>,
}

/// The server could not answer a request.
#[derive(Debug)]
pub struct ServerResponseError;

impl Command {
    /// The parts of this order that the given observers see: all of it when
    /// either end lies among them (or when nobody is watching for fog), else
    /// nothing.
    pub fn get_observed_sections(&self, observers: Option<&Fog>) -> (r: Vec<Command>)
        ensures
            r@ == match observers {
                Some(fog) => if fog.0@.contains_key(key_of(self.from)) || fog.0@.contains_key(key_of(self.to)) {
                    seq![*self]
                } else {
                    Seq::empty()
                },
                None => seq![*self],
            },
    {
        match observers {
            Some(fog) => {
                if fog.0.contains_key(&self.from.key()) || fog.0.contains_key(&self.to.key()) {
                    vec![*self]
                } else {
                    Vec::new()
                }
            },
            None => vec![*self],
        }
    }
}

} // verus!
