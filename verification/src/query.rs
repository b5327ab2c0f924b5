use vstd::prelude::*;

use crate::components::{Id, Identify};
use crate::error::Q3Error;
use crate::parser::{
    all_literal, ast_text, concat_texts, duplicate_tokens, has_reference, lemma_literal_text_is_source,
    lemma_parse_round_trip, parse_query, parse_spec, tokens_source, tokens_text, views_of, AstView,
    Q3Ast,
};

verus! {

/// A named query: a token sequence over its source text, together with
/// its resolution state.
#[derive(Debug, Clone, PartialEq)]
pub enum Query {
    /// Not expanded yet: at least one token is still a reference.
    Raw { id: Id, query: String, tokens: Vec<Q3Ast> },
    /// Fully expanded: every token is literal and `query` holds the
    /// rendered text.
    Expanded { id: Id, tokens: Vec<Q3Ast>, query: String },
}

/// The mathematical form of a query.
pub enum QueryView {
    Raw { id: Seq<char>, query: Seq<char>, tokens: Seq<AstView> },
    Expanded { id: Seq<char>, tokens: Seq<AstView>, query: Seq<char> },
}

impl View for Query {
    type V = QueryView;

    open spec fn view(&self) -> QueryView {
        match self {
            Query::Raw { id, query, tokens } => QueryView::Raw {
                id: id@,
                query: query@,
                tokens: views_of(tokens@),
            },
            Query::Expanded { id, tokens, query } => QueryView::Expanded {
                id: id@,
                tokens: views_of(tokens@),
                query: query@,
            },
        }
    }
}

impl QueryView {
    pub open spec fn spec_id(self) -> Seq<char> {
        match self {
            QueryView::Raw { id, .. } => id,
            QueryView::Expanded { id, .. } => id,
        }
    }

    pub open spec fn tokens(self) -> Seq<AstView> {
        match self {
            QueryView::Raw { tokens, .. } => tokens,
            QueryView::Expanded { tokens, .. } => tokens,
        }
    }

    pub open spec fn query_text(self) -> Seq<char> {
        match self {
            QueryView::Raw { query, .. } => query,
            QueryView::Expanded { query, .. } => query,
        }
    }

    /// How a query renders: its original source while it is raw, the
    /// concatenation of its literal tokens once it is expanded.
    pub open spec fn display(self) -> Seq<char> {
        match self {
            QueryView::Raw { query, .. } => query,
            QueryView::Expanded { tokens, .. } => tokens_text(tokens),
        }
    }

    /// An expanded query holds literal tokens alone, and its stored text
    /// is their concatenation.
    pub open spec fn wf(self) -> bool {
        self is Expanded ==> {
            &&& all_literal(self.tokens())
            &&& self.query_text() == tokens_text(self.tokens())
        }
    }
}

impl Identify for Query {
    open spec fn spec_id(&self) -> Seq<char> {
        self@.spec_id()
    }

    fn get_id(&self) -> (r: &Id)
        ensures
            r@ == self@.spec_id(),
    {
        match self {
            Query::Raw { id, .. } => id,
            Query::Expanded { id, .. } => id,
        }
    }
}

impl Query {
    /// Parse `query` into tokens under the name `id`. The query starts
    /// expanded exactly when no token is a reference; its stored text is
    /// the source either way.
    pub fn new(id: &str, query: &str) -> (r: Result<Query, Q3Error>)
        ensures
            r is Ok,
            r matches Ok(q) ==> {
                &&& q@.spec_id() == id@
                &&& q@.tokens() == parse_spec(query@)
                &&& q@.query_text() == query@
                &&& (q@ is Expanded <==> all_literal(parse_spec(query@)))
                &&& q@.wf()
            },
    {
        let id = Id::new(id);
        let tokens = match parse_query(query) {
            Ok(ts) => ts,
            Err(e) => {
                return Err(e);
            }
        };
        let source = query.to_owned();
        if has_reference(&tokens) {
            Ok(Query::Raw { id, query: source, tokens })
        } else {
            proof {
                lemma_parse_round_trip(query@);
                lemma_literal_text_is_source(parse_spec(query@));
            }
            Ok(Query::Expanded { id, tokens, query: source })
        }
    }

    /// The rendered form of this query: original source while raw, the
    /// concatenated literal texts once expanded.
    pub fn to_text(&self) -> (r: String)
        ensures
            r@ == self@.display(),
    {
        match self {
            Query::Raw { query, .. } => query.clone(),
            Query::Expanded { tokens, .. } => concat_texts(tokens),
        }
    }

    /// The stored source text of this query.
    pub fn raw_text(&self) -> (r: String)
        ensures
            r@ == self@.query_text(),
    {
        match self {
            Query::Raw { query, .. } => query.clone(),
            Query::Expanded { query, .. } => query.clone(),
        }
    }

    /// An exact copy of this query.
    pub fn duplicate(&self) -> (r: Query)
        ensures
            r@ == self@,
    {
        match self {
            Query::Raw { id, query, tokens } => Query::Raw {
                id: Id(id.0.clone()),
                query: query.clone(),
                tokens: duplicate_tokens(tokens),
            },
            Query::Expanded { id, tokens, query } => Query::Expanded {
                id: Id(id.0.clone()),
                tokens: duplicate_tokens(tokens),
                query: query.clone(),
            },
        }
    }
}

} // verus!
