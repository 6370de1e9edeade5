//! A topos: a category with a terminal object, an object of truth values
//! and, per object, a classifying morphism into the truth values.
//!
//! Which object is terminal and how many subobjects the category has is
//! not decided here: the constructor takes both answers from its caller.

use crate::categories::{Category, Morphism, Object};
use std::collections::HashMap;
use vstd::prelude::*;

verus! {

/// A category together with the index of its terminal object, an object
/// `Omega` of truth values, and the classifying morphisms into it, keyed by
/// object index.
#[verifier::reject_recursive_types(O)]
#[verifier::reject_recursive_types(Omega)]
pub struct Topos<O: Object, Omega: Object> {
    base_category: Category<O>,
    terminal: usize,
    truths: Omega,
    characteristics: HashMap<usize, Box<dyn Morphism<O, Omega>>>,
}

/// The message reported for a classifier that covers too few subobjects.
pub open spec fn incomplete_classifier() -> Seq<char> {
    "Incomplete classifier"@
}

impl<O: Object, Omega: Object> Topos<O, Omega> {
    /// The category the topos is built on.
    pub closed spec fn base(&self) -> Category<O> {
        self.base_category
    }

    /// The index of the terminal object.
    pub closed spec fn terminal_object(&self) -> usize {
        self.terminal
    }

    /// The object of truth values.
    pub closed spec fn truth_object(&self) -> Omega {
        self.truths
    }

    /// The classifying morphism of each object index.
    pub closed spec fn classifier(&self) -> Map<usize, Box<dyn Morphism<O, Omega>>> {
        self.characteristics@
    }

    /// The category the topos is built on.
    pub fn base_category(&self) -> (r: &Category<O>)
        ensures
            *r == self.base(),
    {
        &self.base_category
    }

    /// The index of the terminal object.
    pub fn terminal_index(&self) -> (r: usize)
        ensures
            r == self.terminal_object(),
    {
        self.terminal
    }

    /// The object of truth values.
    pub fn truths(&self) -> (r: &Omega)
        ensures
            *r == self.truth_object(),
    {
        &self.truths
    }

    /// The classifying morphism of each object index.
    pub fn characteristics(&self) -> (r: &HashMap<usize, Box<dyn Morphism<O, Omega>>>)
        ensures
            r@ == self.classifier(),
    {
        &self.characteristics
    }

    /// Builds a topos on `base`. `terminal` is the answer to the search for
    /// a terminal object of `base`, `subobjects` the number of subobjects of
    /// `base`. A failed search is passed on; a classifier with fewer entries
    /// than there are subobjects is rejected.
    pub fn from_subobject_classifier(
        base: Category<O>,
        truths: Omega,
        characteristics: HashMap<usize, Box<dyn Morphism<O, Omega>>>,
        terminal: Result<usize, String>,
        subobjects: usize,
    ) -> (r: Result<Self, String>)
        ensures
            match terminal {
                Err(e) => r == Err::<Self, String>(e),
                Ok(t) => if characteristics@.len() < subobjects {
                    r is Err && r->Err_0@ == incomplete_classifier()
                } else {
                    &&& r is Ok
                    &&& r->Ok_0.base() == base
                    &&& r->Ok_0.terminal_object() == t
                    &&& r->Ok_0.truth_object() == truths
                    &&& r->Ok_0.classifier() == characteristics@
                },
            },
    {
        let terminal: usize = match terminal {
            Ok(t) => t,
            Err(e) => {
                return Err(e);
            },
        };
        if characteristics.len() < subobjects {
            return Err("Incomplete classifier".to_string());
        }
        Ok(Topos { base_category: base, terminal, truths, characteristics })
    }
}

} // verus!
