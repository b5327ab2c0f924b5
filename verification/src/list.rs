use vstd::prelude::*;

use crate::components::{Id, Identify};

verus! {

/// A named list of delimited raw text that a transform script may turn
/// into a final value.
#[derive(Debug, Clone, PartialEq)]
pub enum List {
    /// Not resolved yet: the raw text, its separator, and the optional
    /// transform script.
    Raw { id: Id, separator: String, value: String, script: Option<String> },
    /// Resolved to its final value.
    Expanded { id: Id, value: String },
}

/// The mathematical form of a list.
pub enum ListView {
    Raw { id: Seq<char>, separator: Seq<char>, value: Seq<char>, script: Option<Seq<char>> },
    Expanded { id: Seq<char>, value: Seq<char> },
}

impl View for List {
    type V = ListView;

    open spec fn view(&self) -> ListView {
        match self {
            List::Raw { id, separator, value, script } => ListView::Raw {
                id: id@,
                separator: separator@,
                value: value@,
                script: match script {
                    Some(s) => Some(s@),
                    None => None,
                },
            },
            List::Expanded { id, value } => ListView::Expanded { id: id@, value: value@ },
        }
    }
}

impl ListView {
    pub open spec fn spec_id(self) -> Seq<char> {
        match self {
            ListView::Raw { id, .. } => id,
            ListView::Expanded { id, .. } => id,
        }
    }

    /// How a list renders: nothing until it is resolved, its value
    /// afterwards.
    pub open spec fn display(self) -> Seq<char> {
        match self {
            ListView::Raw { .. } => Seq::empty(),
            ListView::Expanded { value, .. } => value,
        }
    }

    /// The underlying raw text of the list.
    pub open spec fn raw_text(self) -> Seq<char> {
        match self {
            ListView::Raw { value, .. } => value,
            ListView::Expanded { value, .. } => value,
        }
    }
}

impl Identify for List {
    open spec fn spec_id(&self) -> Seq<char> {
        self@.spec_id()
    }

    fn get_id(&self) -> (r: &Id)
        ensures
            r@ == self@.spec_id(),
    {
        match self {
            List::Raw { id, .. } => id,
            List::Expanded { id, .. } => id,
        }
    }
}

impl List {
    /// The rendered form of this list: empty while raw, the resolved
    /// value afterwards.
    pub fn to_text(&self) -> (r: String)
        ensures
            r@ == self@.display(),
    {
        match self {
            List::Raw { .. } => String::new(),
            List::Expanded { value, .. } => value.clone(),
        }
    }

    /// The raw text this list carries.
    pub fn raw_text(&self) -> (r: String)
        ensures
            r@ == self@.raw_text(),
    {
        match self {
            List::Raw { value, .. } => value.clone(),
            List::Expanded { value, .. } => value.clone(),
        }
    }

    /// An exact copy of this list.
    pub fn duplicate(&self) -> (r: List)
        ensures
            r@ == self@,
    {
        match self {
            List::Raw { id, separator, value, script } => List::Raw {
                id: Id(id.0.clone()),
                separator: separator.clone(),
                value: value.clone(),
                script: match script {
                    Some(s) => Some(s.clone()),
                    None => None,
                },
            },
            List::Expanded { id, value } => List::Expanded {
                id: Id(id.0.clone()),
                value: value.clone(),
            },
        }
    }
}

} // verus!
