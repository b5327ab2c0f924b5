use vstd::prelude::*;

use crate::generator::{Generator, GeneratorView};
use crate::list::{List, ListView};
use crate::query::{Query, QueryView};

verus! {

/// The unique string key identifying a fragment within a store.
#[derive(Debug, Clone, PartialEq, Eq, Hash)]
pub struct Id(pub String);

impl View for Id {
    type V = Seq<char>;

    open spec fn view(&self) -> Seq<char> {
        self.0@
    }
}

impl Id {
    pub fn new(text: &str) -> (r: Id)
        ensures
            r@ == text@,
    {
        Id(text.to_owned())
    }

    /// The display label of this id.
    pub fn to_text(&self) -> (r: String)
        ensures
            r@ == self@,
    {
        self.0.clone()
    }

    /// Structural equality of two ids, decided on their text.
    pub fn same_as(&self, other: &Id) -> (r: bool)
        ensures
            r == (self@ == other@),
    {
        self.0 == other.0
    }

    /// Whether this id reads as the given text.
    pub fn same_text(&self, other: &String) -> (r: bool)
        ensures
            r == (self@ == other@),
    {
        self.0 == *other
    }
}

/// Everything a store holds can say which id it carries.
pub trait Identify {
    /// The id of this fragment, as a sequence of characters.
    spec fn spec_id(&self) -> Seq<char>;

    fn get_id(&self) -> (r: &Id)
        ensures
            r@ == self.spec_id(),
    ;
}

/// A named unit of content: a list, a query, or a generated value.
#[derive(Debug, Clone, PartialEq)]
pub enum Q3Components {
    List(List),
    Query(Query),
    Generator(Generator),
}

/// The mathematical form of a component.
pub enum CompView {
    List(ListView),
    Query(QueryView),
    Generator(GeneratorView),
}

impl View for Q3Components {
    type V = CompView;

    open spec fn view(&self) -> CompView {
        match self {
            Q3Components::List(l) => CompView::List(l@),
            Q3Components::Query(q) => CompView::Query(q@),
            Q3Components::Generator(g) => CompView::Generator(g@),
        }
    }
}

impl CompView {
    pub open spec fn spec_id(self) -> Seq<char> {
        match self {
            CompView::List(l) => l.spec_id(),
            CompView::Query(q) => q.spec_id(),
            CompView::Generator(g) => g.id,
        }
    }

    /// A fragment is resolved once its final value exists: an expanded
    /// query or list, or a generator whose script has produced a value.
    pub open spec fn resolved(self) -> bool {
        match self {
            CompView::List(l) => l is Expanded,
            CompView::Query(q) => q is Expanded,
            CompView::Generator(g) => g.value is Some,
        }
    }

    /// How a component renders.
    pub open spec fn display(self) -> Seq<char> {
        match self {
            CompView::List(l) => l.display(),
            CompView::Query(q) => q.display(),
            CompView::Generator(g) => g.display(),
        }
    }

    /// The underlying raw text of a component.
    pub open spec fn raw_text(self) -> Seq<char> {
        match self {
            CompView::List(l) => l.raw_text(),
            CompView::Query(q) => q.query_text(),
            CompView::Generator(g) => g.display(),
        }
    }

    /// Both components are of the same variant.
    pub open spec fn same_kind(self, other: CompView) -> bool {
        match self {
            CompView::List(_) => other is List,
            CompView::Query(_) => other is Query,
            CompView::Generator(_) => other is Generator,
        }
    }

    /// The component's own well-formedness: queries keep literal tokens
    /// and rendered text in step once expanded.
    pub open spec fn wf(self) -> bool {
        match self {
            CompView::Query(q) => q.wf(),
            _ => true,
        }
    }
}

impl Identify for Q3Components {
    open spec fn spec_id(&self) -> Seq<char> {
        self@.spec_id()
    }

    fn get_id(&self) -> (r: &Id)
        ensures
            r@ == self@.spec_id(),
    {
        match self {
            Q3Components::List(l) => l.get_id(),
            Q3Components::Query(q) => q.get_id(),
            Q3Components::Generator(g) => g.get_id(),
        }
    }
}

impl Q3Components {
    /// The rendered form of this component.
    pub fn to_text(&self) -> (r: String)
        ensures
            r@ == self@.display(),
    {
        match self {
            Q3Components::List(l) => l.to_text(),
            Q3Components::Query(q) => q.to_text(),
            Q3Components::Generator(g) => g.to_text(),
        }
    }

    /// The underlying raw text of this component.
    pub fn raw(&self) -> (r: String)
        ensures
            r@ == self@.raw_text(),
    {
        match self {
            Q3Components::List(l) => l.raw_text(),
            Q3Components::Query(q) => q.raw_text(),
            Q3Components::Generator(g) => g.to_text(),
        }
    }

    /// An exact copy of this component.
    pub fn duplicate(&self) -> (r: Q3Components)
        ensures
            r@ == self@,
    {
        match self {
            Q3Components::List(l) => Q3Components::List(l.duplicate()),
            Q3Components::Query(q) => Q3Components::Query(q.duplicate()),
            Q3Components::Generator(g) => Q3Components::Generator(g.duplicate()),
        }
    }
}

} // verus!
