use vstd::prelude::*;

use crate::components::{Id, Identify};

verus! {

/// A named generated value: a script produces it from no inputs.
#[derive(Debug, Clone, PartialEq)]
pub struct Generator {
    pub id: Id,
    pub script: String,
    /// `None` until the script has run, the produced value afterwards.
    pub value: Option<String>,
}

/// The mathematical form of a generator.
pub struct GeneratorView {
    pub id: Seq<char>,
    pub script: Seq<char>,
    pub value: Option<Seq<char>>,
}

impl View for Generator {
    type V = GeneratorView;

    open spec fn view(&self) -> GeneratorView {
        GeneratorView {
            id: self.id@,
            script: self.script@,
            value: match &self.value {
                Some(v) => Some(v@),
                None => None,
            },
        }
    }
}

impl GeneratorView {
    /// How a generator renders: nothing until it is resolved, its value
    /// afterwards.
    pub open spec fn display(self) -> Seq<char> {
        match self.value {
            Some(v) => v,
            None => Seq::empty(),
        }
    }
}

impl Identify for Generator {
    open spec fn spec_id(&self) -> Seq<char> {
        self@.id
    }

    fn get_id(&self) -> (r: &Id)
        ensures
            r@ == self@.id,
    {
        &self.id
    }
}

impl Generator {
    /// The rendered form of this generator: empty while unresolved, the
    /// produced value afterwards.
    pub fn to_text(&self) -> (r: String)
        ensures
            r@ == self@.display(),
    {
        match &self.value {
            Some(v) => v.clone(),
            None => String::new(),
        }
    }

    /// An exact copy of this generator.
    pub fn duplicate(&self) -> (r: Generator)
        ensures
            r@ == self@,
    {
        Generator {
            id: Id(self.id.0.clone()),
            script: self.script.clone(),
            value: match &self.value {
                Some(v) => Some(v.clone()),
                None => None,
            },
        }
    }
}

} // verus!
