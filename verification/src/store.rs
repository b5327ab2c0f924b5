use vstd::prelude::*;

use crate::components::{CompView, Id, Identify, Q3Components};
use crate::error::Q3Error;
use crate::generator::{Generator, GeneratorView};
use crate::list::{List, ListView};
use crate::parser::{concat_texts, duplicate_tokens, tokens_text, AstView, Q3Ast};
use crate::python::{run_generator_script, run_list_script};
use crate::query::{Query, QueryView};
use crate::script::{filter_empty, join_all, join_with, split_on};

verus! {

/// The fragment store: an insertion-ordered mapping from id to component,
/// together with the transient set of ids that are being resolved, used
/// for cycle detection during one resolution pass.
#[derive(Debug, Clone, PartialEq)]
pub struct QStore {
    failed_expansions: Vec<Id>,
    pub components: Vec<Q3Components>,
}

/// The mathematical form of a store: the component views in insertion
/// order, and the in-flight ids.
#[verifier::ext_equal]
pub struct StoreView {
    pub failed: Seq<Seq<char>>,
    pub components: Seq<CompView>,
}

impl View for QStore {
    type V = StoreView;

    closed spec fn view(&self) -> StoreView {
        StoreView {
            failed: Seq::new(self.failed_expansions@.len(), |i: int| self.failed_expansions@[i]@),
            components: Seq::new(self.components@.len(), |i: int| self.components@[i]@),
        }
    }
}

impl StoreView {
    /// The ids of the components, in insertion order.
    pub open spec fn ids(self) -> Seq<Seq<char>> {
        Seq::new(self.components.len(), |i: int| self.components[i].spec_id())
    }

    /// A store is well formed when its ids are pairwise distinct and each
    /// component is itself well formed.
    pub open spec fn wf(self) -> bool {
        &&& forall|i: int, j: int|
            0 <= i < j < self.components.len() ==> self.components[i].spec_id()
                != self.components[j].spec_id()
        &&& forall|i: int| 0 <= i < self.components.len() ==> #[trigger] self.components[i].wf()
    }

    /// Some component carries this id.
    pub open spec fn has_id(self, name: Seq<char>) -> bool {
        exists|i: int|
            0 <= i < self.components.len() && #[trigger] self.components[i].spec_id() == name
    }

    /// The index of the component carrying this id; meaningful under
    /// `has_id` and unique under `wf`.
    pub open spec fn idx_of(self, name: Seq<char>) -> int {
        choose|i: int|
            0 <= i < self.components.len() && #[trigger] self.components[i].spec_id() == name
    }

    /// The component carrying this id.
    pub open spec fn lookup(self, name: Seq<char>) -> CompView {
        self.components[self.idx_of(name)]
    }

    /// How the component carrying this id renders.
    pub open spec fn display_of(self, name: Seq<char>) -> Seq<char> {
        self.lookup(name).display()
    }

    /// The ids marked as currently resolving.
    pub open spec fn marks(self) -> Set<Seq<char>> {
        self.failed.to_set()
    }

    pub open spec fn ids_set(self) -> Set<Seq<char>> {
        self.ids().to_set()
    }

    /// How many components may still enter resolution: the engine's
    /// termination measure.
    pub open spec fn measure(self) -> nat {
        self.ids_set().difference(self.marks()).len()
    }

    /// Every component has reached its final value.
    pub open spec fn all_resolved(self) -> bool {
        forall|i: int|
            0 <= i < self.components.len() ==> (#[trigger] self.components[i]).resolved()
    }
}

/// How one token of a raw query relates to its substituted form in a
/// later store `b`: a literal stays itself, a reference has become the
/// rendered text of its target, which `b` holds resolved.
pub open spec fn token_substituted(orig: AstView, now: AstView, b: StoreView) -> bool {
    match orig {
        AstView::Other { text } => now == orig,
        AstView::Id { name } => {
            &&& b.has_id(name)
            &&& b.lookup(name).resolved()
            &&& now == (AstView::Other { text: b.display_of(name) })
        },
    }
}

/// Pointwise substitution of a whole token sequence.
pub open spec fn tokens_substituted(orig: Seq<AstView>, now: Seq<AstView>, b: StoreView) -> bool {
    &&& now.len() == orig.len()
    &&& forall|t: int| 0 <= t < orig.len() ==> token_substituted(orig[t], #[trigger] now[t], b)
}

/// An unresolved component `a` has stepped to its resolved form `n`,
/// read against the store `b` in which `n` stands: a raw query's
/// references were replaced by the rendered texts of their targets and
/// its rendered text is their concatenation; a list without a script
/// kept its raw value, one with a script took whatever the script
/// produced; a generator gained some produced value.
pub open spec fn comp_step(a: CompView, n: CompView, b: StoreView) -> bool {
    match a {
        CompView::Query(qa) => {
            &&& qa is Raw
            &&& n matches CompView::Query(qn)
            &&& qn matches QueryView::Expanded { id, tokens, query }
            &&& id == qa.spec_id()
            &&& tokens_substituted(qa.tokens(), tokens, b)
            &&& query == tokens_text(tokens)
        },
        CompView::List(la) => {
            &&& la matches ListView::Raw { id, separator, value, script }
            &&& n matches CompView::List(ln)
            &&& ln matches ListView::Expanded { id: nid, value: nvalue }
            &&& nid == id
            &&& (script is None ==> nvalue == value)
        },
        CompView::Generator(ga) => {
            &&& ga.value is None
            &&& n matches CompView::Generator(gn)
            &&& gn.id == ga.id
            &&& gn.script == ga.script
            &&& gn.value is Some
        },
    }
}

/// Store `b` is a later state of store `a` within one resolution pass:
/// the same ids in the same order and of the same kind, every resolved
/// component frozen, and every unresolved one either untouched or
/// stepped to a resolved form correct for `b`.
pub open spec fn evolves(a: StoreView, b: StoreView) -> bool {
    &&& b.components.len() == a.components.len()
    &&& forall|i: int|
        0 <= i < a.components.len() ==> (#[trigger] b.components[i]).spec_id()
            == a.components[i].spec_id()
    &&& forall|i: int|
        0 <= i < a.components.len() ==> a.components[i].same_kind(#[trigger] b.components[i])
    &&& forall|i: int|
        0 <= i < a.components.len() && (#[trigger] a.components[i]).resolved()
            ==> b.components[i] == a.components[i]
    &&& forall|i: int|
        0 <= i < a.components.len() && !(#[trigger] a.components[i]).resolved() ==> (
        b.components[i] == a.components[i] || comp_step(a.components[i], b.components[i], b))
}

/// Unresolved queries whose ids are marked in `a` stand unchanged in
/// `b`: a resolution pass never touches what is already on its stack.
pub open spec fn untouched_marked(a: StoreView, b: StoreView) -> bool {
    forall|i: int|
        0 <= i < a.components.len() && (#[trigger] a.components[i]) is Query
            && !a.components[i].resolved() && a.marks().contains(a.components[i].spec_id())
            ==> b.components[i] == a.components[i]
}

pub proof fn lemma_evolves_refl(a: StoreView)
    ensures
        evolves(a, a),
{
}

/// Evolution keeps every id at its place, so lookups agree.
pub proof fn lemma_lookup_same(a: StoreView, b: StoreView, name: Seq<char>)
    requires
        a.wf(),
        evolves(a, b),
        a.has_id(name),
    ensures
        b.has_id(name),
        b.idx_of(name) == a.idx_of(name),
        b.wf(),
    decreases 0int,
{
    let i = a.idx_of(name);
    assert(0 <= i < a.components.len() && a.components[i].spec_id() == name);
    assert(b.components[i].spec_id() == name);
    assert(b.has_id(name));
    lemma_evolves_wf(a, b);
    let j = b.idx_of(name);
    assert(0 <= j < b.components.len() && b.components[j].spec_id() == name);
    if i != j {
        assert(a.components[i].spec_id() == a.components[j].spec_id());
        assert(false);
    }
}

/// Evolution preserves well-formedness: ids stay distinct and a stepped
/// component is well formed again.
pub proof fn lemma_evolves_wf(a: StoreView, b: StoreView)
    requires
        a.wf(),
        evolves(a, b),
    ensures
        b.wf(),
{
    assert forall|i: int| 0 <= i < b.components.len() implies (#[trigger] b.components[i]).wf()
    by {
        if !a.components[i].resolved() && b.components[i] != a.components[i] {
            assert(comp_step(a.components[i], b.components[i], b));
            match a.components[i] {
                CompView::Query(qa) => {
                    match b.components[i] {
                        CompView::Query(qn) => {
                            let ts = qn.tokens();
                            assert(forall|t: int|
                                0 <= t < ts.len() ==> (#[trigger] ts[t]) is Other) by {
                                assert(tokens_substituted(qa.tokens(), ts, b));
                                assert forall|t: int|
                                    0 <= t < ts.len() implies (#[trigger] ts[t]) is Other by {
                                    assert(token_substituted(qa.tokens()[t], ts[t], b));
                                }
                            }
                        },
                        _ => {},
                    }
                },
                _ => {},
            }
        }
    }
}

/// A substituted token stays correct in any later store: its target is
/// resolved, and resolved components are frozen.
pub proof fn lemma_token_substituted_stable(
    orig: AstView,
    now: AstView,
    b: StoreView,
    c: StoreView,
)
    requires
        token_substituted(orig, now, b),
        b.wf(),
        evolves(b, c),
    ensures
        token_substituted(orig, now, c),
{
    match orig {
        AstView::Other { text } => {},
        AstView::Id { name } => {
            lemma_lookup_same(b, c, name);
        },
    }
}

pub proof fn lemma_tokens_substituted_stable(
    orig: Seq<AstView>,
    now: Seq<AstView>,
    b: StoreView,
    c: StoreView,
)
    requires
        tokens_substituted(orig, now, b),
        b.wf(),
        evolves(b, c),
    ensures
        tokens_substituted(orig, now, c),
{
    assert forall|t: int|
        0 <= t < orig.len() implies token_substituted(orig[t], #[trigger] now[t], c) by {
        lemma_token_substituted_stable(orig[t], now[t], b, c);
    }
}

/// A completed step stays a completed step in any later store.
pub proof fn lemma_comp_step_stable(a: CompView, n: CompView, b: StoreView, c: StoreView)
    requires
        comp_step(a, n, b),
        b.wf(),
        evolves(b, c),
    ensures
        comp_step(a, n, c),
{
    match a {
        CompView::Query(qa) => {
            match n {
                CompView::Query(qn) => {
                    lemma_tokens_substituted_stable(qa.tokens(), qn.tokens(), b, c);
                },
                _ => {},
            }
        },
        _ => {},
    }
}

/// Evolution composes: two stages of one pass make one stage.
pub proof fn lemma_evolves_trans(a: StoreView, b: StoreView, c: StoreView)
    requires
        a.wf(),
        evolves(a, b),
        evolves(b, c),
    ensures
        evolves(a, c),
{
    lemma_evolves_wf(a, b);
    assert forall|i: int|
        0 <= i < a.components.len() && !(#[trigger] a.components[i]).resolved() implies (
    c.components[i] == a.components[i] || comp_step(
        a.components[i],
        c.components[i],
        c,
    )) by {
        if b.components[i] == a.components[i] {
            if c.components[i] != b.components[i] {
                assert(comp_step(b.components[i], c.components[i], c));
            }
        } else {
            assert(comp_step(a.components[i], b.components[i], b));
            assert(b.components[i].resolved());
            assert(c.components[i] == b.components[i]);
            lemma_comp_step_stable(a.components[i], b.components[i], b, c);
        }
    }
}

/// One line of the rendered store: the id, a spaced colon, and how the
/// component renders.
pub open spec fn store_line(c: CompView) -> Seq<char> {
    c.spec_id() + seq![' ', ':', ' '] + c.display()
}

pub open spec fn store_lines(comps: Seq<CompView>) -> Seq<Seq<char>> {
    comps.map_values(|c: CompView| store_line(c))
}

/// A store on which resolution is owed success, certified by a ranking:
/// every reference names a component, the ranking shows there is no
/// cycle, and no script remains to run.
pub open spec fn expandable_store(a: StoreView, rank: Map<Seq<char>, nat>) -> bool {
    closed_refs(a) && ranked(a, rank) && no_pending_scripts(a)
}

/// Every reference among the query's tokens names a component of `a`.
pub open spec fn query_refs_closed(a: StoreView, q: QueryView) -> bool {
    forall|t: int|
        0 <= t < q.tokens().len() ==> ((#[trigger] q.tokens()[t]) matches AstView::Id { name }
            ==> a.has_id(name))
}

/// Every reference of every query of the store names a component of the
/// store.
pub open spec fn closed_refs(a: StoreView) -> bool {
    forall|i: int|
        0 <= i < a.components.len() ==> ((#[trigger] a.components[i]) matches CompView::Query(q)
            ==> query_refs_closed(a, q))
}

/// Under this ranking the query's references point strictly downwards.
pub open spec fn query_rank_ok(q: QueryView, rank: Map<Seq<char>, nat>) -> bool {
    forall|t: int|
        0 <= t < q.tokens().len() ==> ((#[trigger] q.tokens()[t]) matches AstView::Id { name }
            ==> rank[name] < rank[q.spec_id()])
}

/// The ranking certifies that the store's reference graph has no cycle:
/// every reference of a raw query points to a strictly smaller rank.
pub open spec fn ranked(a: StoreView, rank: Map<Seq<char>, nat>) -> bool {
    forall|i: int|
        0 <= i < a.components.len() ==> ((#[trigger] a.components[i]) matches CompView::Query(q)
            ==> (q is Raw ==> query_rank_ok(q, rank)))
}

/// No component of the store still needs a script run: raw lists carry
/// no script and generators hold their values already.
pub open spec fn no_pending_scripts(a: StoreView) -> bool {
    forall|i: int|
        0 <= i < a.components.len() ==> match #[trigger] a.components[i] {
            CompView::List(l) => l matches ListView::Raw { script, .. } ==> script is None,
            CompView::Generator(g) => g.value is Some,
            CompView::Query(_) => true,
        }
}

/// The query registered under `from` holds a reference to `to`.
pub open spec fn references(a: StoreView, from: Seq<char>, to: Seq<char>) -> bool {
    &&& a.has_id(from)
    &&& a.lookup(from) matches CompView::Query(q)
    &&& exists|t: int|
        0 <= t < q.tokens().len() && #[trigger] q.tokens()[t] == (AstView::Id { name: to })
}

/// The chain is a reference cycle: each id references the next, and the
/// last references the first again.
pub open spec fn is_ref_cycle(a: StoreView, chain: Seq<Seq<char>>) -> bool {
    &&& chain.len() > 0
    &&& forall|i: int|
        0 <= i < chain.len() - 1 ==> references(a, #[trigger] chain[i], chain[i + 1])
    &&& references(a, chain[chain.len() - 1], chain[0])
}

/// On a well-formed ranked store, a reference steps strictly down in
/// rank.
proof fn lemma_edge_descends(
    a: StoreView,
    rank: Map<Seq<char>, nat>,
    from: Seq<char>,
    to: Seq<char>,
)
    requires
        a.wf(),
        ranked(a, rank),
        references(a, from, to),
    ensures
        rank[to] < rank[from],
{
    let idx = a.idx_of(from);
    assert(0 <= idx < a.components.len() && a.components[idx].spec_id() == from);
    match a.components[idx] {
        CompView::Query(q) => {
            let t = choose|t: int|
                0 <= t < q.tokens().len() && #[trigger] q.tokens()[t] == (AstView::Id {
                    name: to,
                });
            if q is Expanded {
                assert(a.components[idx].wf());
                assert(q.tokens()[t] is Other);
                assert(false);
            }
            assert(query_rank_ok(q, rank));
            assert(rank[to] < rank[q.spec_id()]);
        },
        _ => {
            assert(false);
        },
    }
}

/// Ranks descend strictly along a chain of references.
proof fn lemma_chain_descends(
    a: StoreView,
    rank: Map<Seq<char>, nat>,
    chain: Seq<Seq<char>>,
    i: int,
)
    requires
        a.wf(),
        ranked(a, rank),
        0 <= i < chain.len(),
        forall|j: int| 0 <= j < chain.len() - 1 ==> references(a, #[trigger] chain[j], chain[j + 1]),
    ensures
        rank[chain[i]] + i <= rank[chain[0]],
    decreases i,
{
    if i > 0 {
        lemma_chain_descends(a, rank, chain, i - 1);
        lemma_edge_descends(a, rank, chain[i - 1], chain[i]);
    }
}

/// A reference cycle defeats every ranking: around the cycle the ranks
/// would have to descend forever. A store holding a cycle is therefore
/// never owed resolution.
pub proof fn lemma_cycle_defeats_ranking(
    a: StoreView,
    chain: Seq<Seq<char>>,
    rank: Map<Seq<char>, nat>,
)
    requires
        a.wf(),
        is_ref_cycle(a, chain),
    ensures
        !ranked(a, rank),
{
    if ranked(a, rank) {
        let last = chain.len() - 1;
        lemma_chain_descends(a, rank, chain, last);
        lemma_edge_descends(a, rank, chain[last], chain[0]);
        assert(false);
    }
}

/// Every in-flight id outranks `d`: what must hold of the marks before
/// the query named `d` may enter resolution on a ranked store.
pub open spec fn marks_above(a: StoreView, rank: Map<Seq<char>, nat>, d: Seq<char>) -> bool {
    forall|m: Seq<char>| #[trigger] a.marks().contains(m) ==> rank[d] < rank[m]
}

/// Every reference among the tokens from `from` on names a component of
/// `a` and sits strictly below every in-flight id.
pub open spec fn tokens_expandable(
    a: StoreView,
    rank: Map<Seq<char>, nat>,
    toks: Seq<Q3Ast>,
    from: int,
) -> bool {
    forall|t: int|
        from <= t < toks.len() ==> ((#[trigger] toks[t])@ matches AstView::Id { name } ==> (
        a.has_id(name) && marks_above(a, rank, name)))
}

/// The success conditions survive one stage of evolution: stepped
/// components hold no references and need no script any more.
proof fn lemma_conditions_preserved(a: StoreView, b: StoreView, rank: Map<Seq<char>, nat>)
    requires
        a.wf(),
        evolves(a, b),
        closed_refs(a),
        ranked(a, rank),
        no_pending_scripts(a),
    ensures
        closed_refs(b),
        ranked(b, rank),
        no_pending_scripts(b),
{
    assert forall|i: int|
        0 <= i < b.components.len() implies ((#[trigger] b.components[i]) matches
    CompView::Query(q) ==> (query_refs_closed(b, q) && (q is Raw ==> query_rank_ok(
        q,
        rank,
    )))) by {
        match b.components[i] {
            CompView::Query(q) => {
                if b.components[i] == a.components[i] {
                    assert(a.components[i] == CompView::Query(q));
                    assert(query_refs_closed(a, q));
                    assert forall|t: int|
                        0 <= t < q.tokens().len() implies ((#[trigger] q.tokens()[t]) matches
                    AstView::Id { name } ==> b.has_id(name)) by {
                        match q.tokens()[t] {
                            AstView::Id { name } => {
                                assert(a.has_id(name));
                                let x = a.idx_of(name);
                                assert(b.components[x].spec_id() == name);
                            },
                            _ => {},
                        }
                    }
                } else {
                    assert(!a.components[i].resolved());
                    assert(comp_step(a.components[i], b.components[i], b));
                    match a.components[i] {
                        CompView::Query(qa) => {
                            assert forall|t: int|
                                0 <= t < q.tokens().len() implies ((#[trigger] q.tokens()[t])
                                is Other) by {
                                assert(tokens_substituted(qa.tokens(), q.tokens(), b));
                                assert(token_substituted(qa.tokens()[t], q.tokens()[t], b));
                            }
                            assert(q is Expanded);
                        },
                        _ => {},
                    }
                }
            },
            _ => {},
        }
    }
    assert forall|i: int|
        0 <= i < b.components.len() implies match #[trigger] b.components[i] {
        CompView::List(l) => l matches ListView::Raw { script, .. } ==> script is None,
        CompView::Generator(g) => g.value is Some,
        CompView::Query(_) => true,
    } by {
        if b.components[i] != a.components[i] && !a.components[i].resolved() {
            assert(comp_step(a.components[i], b.components[i], b));
        }
    }
}

/// What each error of a resolution step says of the store `a` it
/// started from: a cycle names an unresolved query of the store (or an
/// id that was already in flight when the step began), a missing name is
/// truly absent, script failures may always come, and the parse error
/// never arises during resolution.
pub open spec fn expansion_error_ok(e: Q3Error, a: StoreView) -> bool {
    match e {
        Q3Error::FailedToExpand(x) => (a.has_id(x@) && a.lookup(x@) is Query && !a.lookup(
            x@,
        ).resolved()) || a.marks().contains(x@),
        Q3Error::IdNotFound(n) => !a.has_id(n@),
        Q3Error::PythonScriptFailed(_) => has_pending_script(a),
        Q3Error::PythonScriptVariableNotAssigned => has_pending_script(a),
        Q3Error::FailedToParseQuery => false,
    }
}

/// The component still needs a script run before it can resolve.
pub open spec fn pending_script(c: CompView) -> bool {
    match c {
        CompView::List(l) => l matches ListView::Raw { script, .. } && script is Some,
        CompView::Generator(g) => g.value is None,
        CompView::Query(_) => false,
    }
}

/// Some component of the store still needs a script run: only then can a
/// script failure arise.
pub open spec fn has_pending_script(a: StoreView) -> bool {
    exists|i: int| 0 <= i < a.components.len() && pending_script(#[trigger] a.components[i])
}

/// A component that still needs a script in a later state needed it in
/// the earlier one too: script work is never created, only discharged.
proof fn lemma_pending_script_lift(a: StoreView, b: StoreView)
    requires
        evolves(a, b),
        has_pending_script(b),
    ensures
        has_pending_script(a),
{
    let i = choose|i: int| 0 <= i < b.components.len() && pending_script(#[trigger] b.components[i]);
    assert(!b.components[i].resolved());
    if a.components[i].resolved() {
        assert(b.components[i] == a.components[i]);
        assert(false);
    }
    if b.components[i] != a.components[i] {
        assert(comp_step(a.components[i], b.components[i], b));
        assert(b.components[i].resolved());
        assert(false);
    }
    assert(pending_script(a.components[i]));
}

/// An error claim read against a later state of the same pass lifts back
/// to the earlier state, as long as the in-flight marks are the same.
proof fn lemma_error_stable(e: Q3Error, a: StoreView, b: StoreView)
    requires
        expansion_error_ok(e, b),
        a.wf(),
        evolves(a, b),
        b.marks() == a.marks(),
    ensures
        expansion_error_ok(e, a),
{
    match e {
        Q3Error::FailedToExpand(x) => {
            if b.has_id(x@) && b.lookup(x@) is Query && !b.lookup(x@).resolved() {
                let j = b.idx_of(x@);
                assert(b.components[j].spec_id() == x@);
                assert(a.components[j].spec_id() == x@);
                assert(a.has_id(x@));
                let i = a.idx_of(x@);
                if i != j {
                    assert(a.components[i].spec_id() == a.components[j].spec_id());
                    assert(false);
                }
                if a.components[i].resolved() {
                    assert(b.components[i] == a.components[i]);
                    assert(false);
                }
            }
        },
        Q3Error::PythonScriptFailed(_) => {
            lemma_pending_script_lift(a, b);
        },
        Q3Error::PythonScriptVariableNotAssigned => {
            lemma_pending_script_lift(a, b);
        },
        _ => {},
    }
}

/// The same lift across the marking step of one query: the freshly
/// marked id is itself an unresolved query of the earlier state.
proof fn lemma_error_lift_mark(e: Q3Error, a: StoreView, b: StoreView, extra: Seq<char>)
    requires
        expansion_error_ok(e, b),
        a.wf(),
        evolves(a, b),
        b.marks() == a.marks().insert(extra),
        a.has_id(extra),
        a.lookup(extra) is Query,
        !a.lookup(extra).resolved(),
    ensures
        expansion_error_ok(e, a),
{
    match e {
        Q3Error::FailedToExpand(x) => {
            if b.has_id(x@) && b.lookup(x@) is Query && !b.lookup(x@).resolved() {
                let j = b.idx_of(x@);
                assert(b.components[j].spec_id() == x@);
                assert(a.components[j].spec_id() == x@);
                assert(a.has_id(x@));
                let i = a.idx_of(x@);
                if i != j {
                    assert(a.components[i].spec_id() == a.components[j].spec_id());
                    assert(false);
                }
                if a.components[i].resolved() {
                    assert(b.components[i] == a.components[i]);
                    assert(false);
                }
            } else {
                assert(b.marks().contains(x@));
                if x@ == extra {
                    assert(a.has_id(x@) && a.lookup(x@) is Query && !a.lookup(x@).resolved());
                } else {
                    assert(a.marks().contains(x@));
                }
            }
        },
        Q3Error::PythonScriptFailed(_) => {
            lemma_pending_script_lift(a, b);
        },
        Q3Error::PythonScriptVariableNotAssigned => {
            lemma_pending_script_lift(a, b);
        },
        _ => {},
    }
}

/// Evolution without a change of marks keeps the termination measure.
proof fn lemma_measure_same(a: StoreView, b: StoreView)
    requires
        evolves(a, b),
        b.failed == a.failed,
    ensures
        b.measure() == a.measure(),
{
    assert(b.ids() =~= a.ids());
}

/// Marking one more id that names a component strictly shrinks the
/// termination measure.
proof fn lemma_mark_decreases(a: StoreView, b: StoreView, id: Seq<char>)
    requires
        b.components == a.components,
        b.failed == a.failed.push(id),
        a.ids_set().contains(id),
        !a.marks().contains(id),
    ensures
        b.measure() < a.measure(),
{
    vstd::seq_lib::seq_to_set_is_finite(a.ids());
    a.failed.lemma_push_to_set_commute(id);
    assert(b.marks() == a.marks().insert(id));
    assert(b.ids() =~= a.ids());
    a.ids_set().lemma_set_insert_diff_decreases(a.marks(), id);
}

/// A pushed mark that was not there before comes straight off again.
proof fn lemma_push_remove_value(s: Seq<Seq<char>>, x: Seq<char>)
    requires
        !s.contains(x),
    ensures
        s.push(x).remove_value(x) == s,
{
    let p = s.push(x);
    p.index_of_first_ensures(x);
    assert(p[s.len() as int] == x);
    match p.index_of_first(x) {
        Some(i) => {
            if i < s.len() {
                assert(p[i] == s[i]);
                assert(s.contains(x)) by {
                    assert(s[i] == x);
                }
                assert(false);
            }
            assert(i == s.len());
            assert(p.remove(i) =~= s);
        },
        None => {
            assert(p.contains(x)) by {
                assert(p[s.len() as int] == x);
            }
            assert(false);
        },
    }
}

/// A substituted token sequence stays correct when one unresolved
/// component is replaced by another carrying the same id.
proof fn lemma_substituted_after_update(
    orig: Seq<AstView>,
    now: Seq<AstView>,
    b: StoreView,
    c: StoreView,
    k: int,
)
    requires
        tokens_substituted(orig, now, b),
        b.wf(),
        0 <= k < b.components.len(),
        !b.components[k].resolved(),
        c.components.len() == b.components.len(),
        forall|i: int|
            0 <= i < b.components.len() && i != k ==> #[trigger] c.components[i]
                == b.components[i],
        c.components[k].spec_id() == b.components[k].spec_id(),
    ensures
        tokens_substituted(orig, now, c),
{
    assert forall|t: int|
        0 <= t < orig.len() implies token_substituted(orig[t], #[trigger] now[t], c) by {
        assert(token_substituted(orig[t], now[t], b));
        match orig[t] {
            AstView::Other { text } => {},
            AstView::Id { name } => {
                assert(b.has_id(name));
                let j = b.idx_of(name);
                assert(0 <= j < b.components.len());
                assert(b.components[j].spec_id() == name && b.components[j].resolved());
                assert(j != k);
                assert(c.components[j] == b.components[j]);
                assert(c.has_id(name));
                let j2 = c.idx_of(name);
                assert(c.components[j2].spec_id() == name);
                if j2 != j {
                    assert(b.components[j2].spec_id() == c.components[j2].spec_id());
                    assert(b.components[j].spec_id() == b.components[j2].spec_id());
                    assert(false);
                }
            },
        }
    }
}

/// The kinds a component may have, used to pick the matching resolution
/// step.
enum CompKind {
    Qry,
    Lst,
    Gen,
}

impl QStore {
    /// An empty store: no components, nothing in flight.
    pub fn new() -> (r: QStore)
        ensures
            r@.components == Seq::<CompView>::empty(),
            r@.failed == Seq::<Seq<char>>::empty(),
            r@.wf(),
    {
        let r = QStore { failed_expansions: Vec::new(), components: Vec::new() };
        proof {
            assert(r@.components =~= Seq::<CompView>::empty());
            assert(r@.failed =~= Seq::<Seq<char>>::empty());
        }
        r
    }

    /// The index of the component carrying `name`, if any.
    fn find_index(&self, name: &String) -> (r: Option<usize>)
        ensures
            match r {
                Some(i) => {
                    &&& i < self@.components.len()
                    &&& self@.components[i as int].spec_id() == name@
                    &&& self@.has_id(name@)
                    &&& self@.wf() ==> i as int == self@.idx_of(name@)
                },
                None => !self@.has_id(name@),
            },
    {
        let n = self.components.len();
        let mut i: usize = 0;
        while i < n
            invariant
                n == self@.components.len(),
                i <= n,
                forall|k: int| 0 <= k < i ==> self@.components[k].spec_id() != name@,
            decreases n - i,
        {
            if self.components[i].get_id().same_text(name) {
                proof {
                    assert(self@.components[i as int].spec_id() == name@);
                    if self@.wf() {
                        let j = self@.idx_of(name@);
                        assert(0 <= j < self@.components.len() && self@.components[j].spec_id()
                            == name@);
                        assert(j == i as int);
                    }
                }
                return Some(i);
            }
            i = i + 1;
        }
        None
    }

    /// The component registered under `id`, as an exact copy.
    pub fn get(&self, id: &str) -> (r: Option<Q3Components>)
        ensures
            match r {
                Some(c) => {
                    &&& self@.has_id(id@)
                    &&& self@.wf() ==> c@ == self@.lookup(id@)
                },
                None => !self@.has_id(id@),
            },
    {
        let key = id.to_owned();
        match self.find_index(&key) {
            Some(i) => Some(self.components[i].duplicate()),
            None => None,
        }
    }

    /// The raw text of the component registered under `id`, if any.
    pub fn get_raw(&self, id: &str) -> (r: Option<String>)
        ensures
            match r {
                Some(t) => {
                    &&& self@.has_id(id@)
                    &&& self@.wf() ==> t@ == self@.lookup(id@).raw_text()
                },
                None => !self@.has_id(id@),
            },
    {
        let key = id.to_owned();
        match self.find_index(&key) {
            Some(i) => Some(self.components[i].raw()),
            None => None,
        }
    }

    /// Register a component under its id: a new id is appended, an
    /// existing one has its component replaced in place, keeping the
    /// insertion order.
    pub fn insert(&mut self, component: Q3Components)
        requires
            old(self)@.wf(),
            component@.wf(),
        ensures
            final(self)@.wf(),
            final(self)@.failed == old(self)@.failed,
            final(self)@.has_id(component@.spec_id()),
            !old(self)@.has_id(component@.spec_id()) ==> final(self)@.components == old(
                self,
            )@.components.push(component@),
            old(self)@.has_id(component@.spec_id()) ==> final(self)@.components == old(
                self,
            )@.components.update(old(self)@.idx_of(component@.spec_id()), component@),
    {
        let ghost cv = component@;
        let key = component.get_id().0.clone();
        match self.find_index(&key) {
            Some(i) => {
                self.components.set(i, component);
                proof {
                    assert(final(self)@.components =~= old(self)@.components.update(i as int, cv));
                    assert(final(self)@.failed =~= old(self)@.failed);
                    assert(final(self)@.has_id(cv.spec_id())) by {
                        assert(final(self)@.components[i as int].spec_id() == cv.spec_id());
                    }
                }
            }
            None => {
                self.components.push(component);
                proof {
                    assert(final(self)@.components =~= old(self)@.components.push(cv));
                    assert(final(self)@.failed =~= old(self)@.failed);
                    let n = old(self)@.components.len() as int;
                    assert(final(self)@.components[n].spec_id() == cv.spec_id());
                }
            }
        }
    }

    /// Whether `id` is marked as currently resolving.
    fn is_marked(&self, id: &Id) -> (r: bool)
        ensures
            r == self@.marks().contains(id@),
    {
        let n = self.failed_expansions.len();
        let mut i: usize = 0;
        while i < n
            invariant
                n == self@.failed.len(),
                i <= n,
                forall|k: int| 0 <= k < i ==> self@.failed[k] != id@,
            decreases n - i,
        {
            if self.failed_expansions[i].same_as(id) {
                proof {
                    assert(self@.failed[i as int] == id@);
                    assert(self@.marks().contains(id@));
                }
                return true;
            }
            i = i + 1;
        }
        proof {
            if self@.marks().contains(id@) {
                let k = choose|k: int| 0 <= k < self@.failed.len() && self@.failed[k] == id@;
                assert(self@.failed[k] == id@);
            }
        }
        false
    }

    /// Mark `id` as currently resolving. Finding it already marked means
    /// a reference chain has come back to it: the cycle error.
    pub fn set_failed_expansion(&mut self, id: Id) -> (r: Result<(), Q3Error>)
        ensures
            final(self)@.components == old(self)@.components,
            match r {
                Ok(()) => {
                    &&& !old(self)@.marks().contains(id@)
                    &&& final(self)@.failed == old(self)@.failed.push(id@)
                },
                Err(e) => {
                    &&& e matches Q3Error::FailedToExpand(x) && x@ == id@
                    &&& old(self)@.marks().contains(id@)
                    &&& final(self)@.failed == old(self)@.failed
                },
            },
    {
        if self.is_marked(&id) {
            proof {
                assert(final(self)@.components =~= old(self)@.components);
                assert(final(self)@.failed =~= old(self)@.failed);
            }
            Err(Q3Error::FailedToExpand(id))
        } else {
            let ghost idv = id@;
            self.failed_expansions.push(id);
            proof {
                assert(final(self)@.components =~= old(self)@.components);
                assert(final(self)@.failed =~= old(self)@.failed.push(idv));
            }
            Ok(())
        }
    }

    /// Whether the component at `j` has reached its final value.
    fn resolved_at(&self, j: usize) -> (r: bool)
        requires
            j < self@.components.len(),
        ensures
            r == self@.components[j as int].resolved(),
    {
        match &self.components[j] {
            Q3Components::List(l) => match l {
                List::Expanded { .. } => true,
                List::Raw { .. } => false,
            },
            Q3Components::Query(q) => match q {
                Query::Expanded { .. } => true,
                Query::Raw { .. } => false,
            },
            Q3Components::Generator(g) => g.value.is_some(),
        }
    }

    /// The rendered text of the component at `j`.
    fn display_at(&self, j: usize) -> (r: String)
        requires
            j < self@.components.len(),
        ensures
            r@ == self@.components[j as int].display(),
    {
        self.components[j].to_text()
    }

    /// Resolve the list at `j` in place: without a script its raw value
    /// is final as it stands; with one, the script takes the split,
    /// empty-filtered elements under the name `value` and must hand a
    /// string back under the same name.
    pub fn expand_list_at(&mut self, j: usize) -> (r: Result<(), Q3Error>)
        requires
            old(self)@.wf(),
            j < old(self)@.components.len(),
            old(self)@.components[j as int] is List,
        ensures
            final(self)@.wf(),
            evolves(old(self)@, final(self)@),
            untouched_marked(old(self)@, final(self)@),
            final(self)@.failed == old(self)@.failed,
            match r {
                Ok(()) => final(self)@.components[j as int].resolved(),
                Err(e) => {
                    &&& final(self)@.components == old(self)@.components
                    &&& (e is PythonScriptFailed || e is PythonScriptVariableNotAssigned)
                },
            },
            (old(self)@.components[j as int] matches CompView::List(lv) && (lv matches
                ListView::Raw { script, .. } ==> script is None)) ==> r is Ok,
            r matches Err(_) ==> pending_script(old(self)@.components[j as int]),
    {
        proof {
            lemma_evolves_refl(old(self)@);
        }
        let (id, separator, value, script) = match &self.components[j] {
            Q3Components::List(List::Raw { id, separator, value, script }) => (
                Id(id.0.clone()),
                separator.clone(),
                value.clone(),
                match script {
                    Some(s) => Some(s.clone()),
                    None => None,
                },
            ),
            _ => {
                return Ok(());
            },
        };
        let final_value = match &script {
            None => value,
            Some(script_text) => {
                let elements = filter_empty(split_on(value.as_str(), separator.as_str()));
                match run_list_script(script_text, &elements) {
                    Err(msg) => {
                        proof {
                            assert(final(self)@.components =~= old(self)@.components);
                            assert(final(self)@.failed =~= old(self)@.failed);
                        }
                        return Err(Q3Error::PythonScriptFailed(msg));
                    },
                    Ok(None) => {
                        proof {
                            assert(final(self)@.components =~= old(self)@.components);
                            assert(final(self)@.failed =~= old(self)@.failed);
                        }
                        return Err(Q3Error::PythonScriptVariableNotAssigned);
                    },
                    Ok(Some(v)) => v,
                }
            },
        };
        let replacement = Q3Components::List(List::Expanded { id, value: final_value });
        let ghost rv = replacement@;
        self.components.set(j, replacement);
        proof {
            let a = old(self)@;
            let b = final(self)@;
            assert(b.components =~= a.components.update(j as int, rv));
            assert(b.failed =~= a.failed);
            assert(comp_step(a.components[j as int], b.components[j as int], b));
            lemma_evolves_wf(a, b);
        }
        Ok(())
    }

    /// Resolve the generator at `j` in place: its script runs with no
    /// input bindings and must bind a string to the name `value`. A
    /// generator that already holds a value keeps it: its script never
    /// runs again.
    pub fn expand_generator_at(&mut self, j: usize) -> (r: Result<(), Q3Error>)
        requires
            old(self)@.wf(),
            j < old(self)@.components.len(),
            old(self)@.components[j as int] is Generator,
        ensures
            final(self)@.wf(),
            evolves(old(self)@, final(self)@),
            untouched_marked(old(self)@, final(self)@),
            final(self)@.failed == old(self)@.failed,
            match r {
                Ok(()) => final(self)@.components[j as int].resolved(),
                Err(e) => {
                    &&& final(self)@.components == old(self)@.components
                    &&& (e is PythonScriptFailed || e is PythonScriptVariableNotAssigned)
                },
            },
            (old(self)@.components[j as int] matches CompView::Generator(g) && g.value is Some)
                ==> r is Ok,
            r matches Err(_) ==> pending_script(old(self)@.components[j as int]),
    {
        proof {
            lemma_evolves_refl(old(self)@);
        }
        let (id, script) = match &self.components[j] {
            Q3Components::Generator(g) => {
                if g.value.is_some() {
                    return Ok(());
                }
                (Id(g.id.0.clone()), g.script.clone())
            },
            _ => {
                return Ok(());
            },
        };
        match run_generator_script(&script) {
            Err(msg) => {
                proof {
                    assert(final(self)@.components =~= old(self)@.components);
                    assert(final(self)@.failed =~= old(self)@.failed);
                }
                Err(Q3Error::PythonScriptFailed(msg))
            },
            Ok(None) => {
                proof {
                    assert(final(self)@.components =~= old(self)@.components);
                    assert(final(self)@.failed =~= old(self)@.failed);
                }
                Err(Q3Error::PythonScriptVariableNotAssigned)
            },
            Ok(Some(v)) => {
                let replacement = Q3Components::Generator(
                    Generator { id, script, value: Some(v) },
                );
                let ghost rv = replacement@;
                self.components.set(j, replacement);
                proof {
                    let a = old(self)@;
                    let b = final(self)@;
                    assert(b.components =~= a.components.update(j as int, rv));
                    assert(b.failed =~= a.failed);
                    assert(comp_step(a.components[j as int], b.components[j as int], b));
                    lemma_evolves_wf(a, b);
                }
                Ok(())
            },
        }
    }

    /// Which kind of component stands at `j`.
    fn kind_at(&self, j: usize) -> (r: CompKind)
        requires
            j < self@.components.len(),
        ensures
            r is Qry <==> self@.components[j as int] is Query,
            r is Lst <==> self@.components[j as int] is List,
            r is Gen <==> self@.components[j as int] is Generator,
    {
        match &self.components[j] {
            Q3Components::Query(_) => CompKind::Qry,
            Q3Components::List(_) => CompKind::Lst,
            Q3Components::Generator(_) => CompKind::Gen,
        }
    }

    /// Substitute every reference among `tokens` from position `from`
    /// on, resolving each target first, depth first and in place. On
    /// success each such token has become the rendered text of its
    /// resolved target as the final store holds it.
    fn expand_tokens_from(&mut self, tokens: &mut Vec<Q3Ast>, from: usize) -> (r: Result<
        (),
        Q3Error,
    >)
        requires
            old(self)@.wf(),
            from <= old(tokens)@.len(),
        ensures
            final(self)@.wf(),
            evolves(old(self)@, final(self)@),
            match r {
                Ok(()) => {
                    &&& final(self)@.failed == old(self)@.failed
                    &&& untouched_marked(old(self)@, final(self)@)
                    &&& final(tokens)@.len() == old(tokens)@.len()
                    &&& forall|t: int|
                        0 <= t < from ==> #[trigger] final(tokens)@[t] == old(tokens)@[t]
                    &&& forall|t: int|
                        from <= t < old(tokens)@.len() ==> token_substituted(
                            old(tokens)@[t]@,
                            (#[trigger] final(tokens)@[t])@,
                            final(self)@,
                        )
                },
                Err(e) => expansion_error_ok(e, old(self)@),
            },
            forall|rank: Map<Seq<char>, nat>|
                (#[trigger] expandable_store(old(self)@, rank) && tokens_expandable(
                    old(self)@,
                    rank,
                    old(tokens)@,
                    from as int,
                )) ==> r is Ok,
        decreases self@.measure(), tokens@.len() - from,
    {
        proof {
            lemma_evolves_refl(old(self)@);
        }
        let ghost a0 = old(self)@;
        let ghost toks0 = old(tokens)@;
        if from >= tokens.len() {
            return Ok(());
        }
        let name = match &tokens[from] {
            Q3Ast::Id(n) => Some(n.clone()),
            Q3Ast::Other(_) => None,
        };
        if let Some(name) = name {
            match self.find_index(&name) {
                None => {
                    proof {
                        assert forall|rank: Map<Seq<char>, nat>|
                            !(#[trigger] expandable_store(a0, rank) && tokens_expandable(
                                a0,
                                rank,
                                toks0,
                                from as int,
                            )) by {
                            if tokens_expandable(a0, rank, toks0, from as int) {
                                assert((toks0[from as int])@ matches AstView::Id { name: nm }
                                    && a0.has_id(nm));
                            }
                        }
                    }
                    return Err(Q3Error::IdNotFound(name));
                },
                Some(j) => {
                    if !self.resolved_at(j) {
                        let step = match self.kind_at(j) {
                            CompKind::Qry => self.expand_query_at(j),
                            CompKind::Lst => self.expand_list_at(j),
                            CompKind::Gen => self.expand_generator_at(j),
                        };
                        match step {
                            Err(e) => {
                                proof {
                                    assert(expansion_error_ok(e, a0)) by {
                                        if pending_script(a0.components[j as int]) {
                                            assert(has_pending_script(a0));
                                        }
                                    }
                                    assert forall|rank: Map<Seq<char>, nat>|
                                        !(#[trigger] expandable_store(a0, rank)
                                            && tokens_expandable(
                                            a0,
                                            rank,
                                            toks0,
                                            from as int,
                                        )) by {
                                        if expandable_store(a0, rank) && tokens_expandable(
                                            a0,
                                            rank,
                                            toks0,
                                            from as int,
                                        ) {
                                            assert((toks0[from as int])@ matches AstView::Id {
                                                name: nm,
                                            } && a0.has_id(nm) && marks_above(a0, rank, nm));
                                            assert(a0.components[j as int].spec_id() == name@);
                                            match a0.components[j as int] {
                                                CompView::Query(_) => {},
                                                CompView::List(_) => {},
                                                CompView::Generator(_) => {},
                                            }
                                            assert(step is Ok);
                                            assert(false);
                                        }
                                    }
                                }
                                return Err(e);
                            },
                            Ok(()) => {},
                        }
                    }
                    let text = self.display_at(j);
                    tokens.set(from, Q3Ast::Other(text));
                    proof {
                        let mid = self@;
                        lemma_evolves_wf(old(self)@, mid);
                        assert(mid.components[j as int].spec_id() == name@);
                        assert(mid.has_id(name@));
                        let j2 = mid.idx_of(name@);
                        if j2 != j as int {
                            assert(mid.components[j2].spec_id()
                                == mid.components[j as int].spec_id());
                            assert(false);
                        }
                        assert(token_substituted(old(tokens)@[from as int]@, tokens@[from as int]@, mid));
                    }
                },
            }
        }
        let ghost mid = self@;
        let ghost toks_mid = tokens@;
        proof {
            lemma_measure_same(old(self)@, mid);
            assert(mid.failed == a0.failed);
            assert(forall|t: int|
                from + 1 <= t < toks0.len() ==> #[trigger] toks_mid[t] == toks0[t]);
        }
        let res = self.expand_tokens_from(tokens, from + 1);
        proof {
            lemma_evolves_trans(old(self)@, mid, self@);
        }
        match res {
            Err(e) => {
                proof {
                    lemma_error_stable(e, old(self)@, mid);
                    assert forall|rank: Map<Seq<char>, nat>|
                        !(#[trigger] expandable_store(a0, rank) && tokens_expandable(
                            a0,
                            rank,
                            toks0,
                            from as int,
                        )) by {
                        if expandable_store(a0, rank) && tokens_expandable(
                            a0,
                            rank,
                            toks0,
                            from as int,
                        ) {
                            lemma_conditions_preserved(a0, mid, rank);
                            assert(expandable_store(mid, rank));
                            assert(tokens_expandable(mid, rank, toks_mid, from + 1)) by {
                                assert forall|t: int|
                                    from + 1 <= t < toks_mid.len() implies ((
                                #[trigger] toks_mid[t])@ matches AstView::Id { name: nm } ==> (
                                mid.has_id(nm) && marks_above(mid, rank, nm))) by {
                                    assert(toks_mid[t] == toks0[t]);
                                    match toks_mid[t]@ {
                                        AstView::Id { name: nm } => {
                                            assert(a0.has_id(nm) && marks_above(a0, rank, nm));
                                            let x = a0.idx_of(nm);
                                            assert(mid.components[x].spec_id() == nm);
                                            assert(mid.has_id(nm));
                                            assert forall|m: Seq<char>|
                                                mid.marks().contains(m) implies rank[nm] < rank[m] by {
                                                assert(a0.marks().contains(m));
                                            }
                                        },
                                        _ => {},
                                    }
                                }
                            }
                            assert(res is Ok);
                            assert(false);
                        }
                    }
                }
                Err(e)
            },
            Ok(()) => {
                proof {
                    lemma_evolves_wf(old(self)@, mid);
                    let ghost toks0 = old(tokens)@;
                    assert(forall|t: int|
                        from + 1 <= t < toks0.len() ==> #[trigger] toks_mid[t] == toks0[t]);
                    assert forall|t: int|
                        from as int <= t < old(tokens)@.len() implies token_substituted(
                        old(tokens)@[t]@,
                        (#[trigger] final(tokens)@[t])@,
                        final(self)@,
                    ) by {
                        if t == from as int {
                            assert(final(tokens)@[t] == toks_mid[t]);
                            assert(token_substituted(old(tokens)@[t]@, toks_mid[t]@, mid));
                            lemma_token_substituted_stable(
                                old(tokens)@[t]@,
                                toks_mid[t]@,
                                mid,
                                final(self)@,
                            );
                        } else {
                            assert(token_substituted(toks_mid[t]@, final(tokens)@[t]@, final(self)@));
                        }
                    }
                }
                Ok(())
            },
        }
    }

    /// Substitute every reference among `tokens` in place, resolving
    /// each target first, depth first. On success each reference has
    /// become the rendered text of its resolved target as the final
    /// store holds it, and every literal is untouched.
    pub fn expand_tokens(&mut self, tokens: &mut Vec<Q3Ast>) -> (r: Result<(), Q3Error>)
        requires
            old(self)@.wf(),
        ensures
            final(self)@.wf(),
            evolves(old(self)@, final(self)@),
            match r {
                Ok(()) => {
                    &&& final(self)@.failed == old(self)@.failed
                    &&& untouched_marked(old(self)@, final(self)@)
                    &&& final(tokens)@.len() == old(tokens)@.len()
                    &&& forall|t: int|
                        0 <= t < old(tokens)@.len() ==> token_substituted(
                            old(tokens)@[t]@,
                            (#[trigger] final(tokens)@[t])@,
                            final(self)@,
                        )
                },
                Err(e) => expansion_error_ok(e, old(self)@),
            },
            forall|rank: Map<Seq<char>, nat>|
                (#[trigger] expandable_store(old(self)@, rank) && tokens_expandable(
                    old(self)@,
                    rank,
                    old(tokens)@,
                    0,
                )) ==> r is Ok,
    {
        self.expand_tokens_from(tokens, 0)
    }

    /// Expand the query at `k` in place, depth first: mark it as in
    /// flight, resolve and substitute every reference among its tokens,
    /// unmark it, and leave it expanded with the concatenated rendered
    /// text. Finding it marked already is the cycle error; expanding an
    /// already expanded query changes nothing but drops a stale mark.
    pub fn expand_query_at(&mut self, k: usize) -> (r: Result<(), Q3Error>)
        requires
            old(self)@.wf(),
            k < old(self)@.components.len(),
            old(self)@.components[k as int] is Query,
        ensures
            final(self)@.wf(),
            evolves(old(self)@, final(self)@),
            match r {
                Ok(()) => {
                    &&& final(self)@.components[k as int].resolved()
                    &&& untouched_marked(old(self)@, final(self)@)
                    &&& (!old(self)@.components[k as int].resolved() ==> {
                        &&& final(self)@.failed == old(self)@.failed
                        &&& !old(self)@.marks().contains(
                            old(self)@.components[k as int].spec_id(),
                        )
                    })
                    &&& (old(self)@.components[k as int].resolved() ==> {
                        &&& final(self)@.components == old(self)@.components
                        &&& final(self)@.failed == old(self)@.failed.remove_value(
                            old(self)@.components[k as int].spec_id(),
                        )
                    })
                },
                Err(e) => expansion_error_ok(e, old(self)@),
            },
            forall|rank: Map<Seq<char>, nat>|
                (#[trigger] expandable_store(old(self)@, rank) && marks_above(
                    old(self)@,
                    rank,
                    old(self)@.components[k as int].spec_id(),
                )) ==> r is Ok,
        decreases self@.measure(), 0int,
    {
        proof {
            lemma_evolves_refl(old(self)@);
        }
        let raw = match &self.components[k] {
            Q3Components::Query(Query::Raw { .. }) => true,
            _ => false,
        };
        if !raw {
            let id = Id(self.components[k].get_id().0.clone());
            self.remove_failed_expansion(&id);
            proof {
                assert(final(self)@.components == old(self)@.components);
            }
            return Ok(());
        }
        let (id, mut toks) = match &self.components[k] {
            Q3Components::Query(Query::Raw { id, tokens, .. }) => (
                Id(id.0.clone()),
                duplicate_tokens(tokens),
            ),
            _ => {
                return Err(Q3Error::FailedToParseQuery);
            },
        };
        let ghost a = old(self)@;
        let ghost idv = id@;
        let ghost orig_tokens = a.components[k as int]->Query_0.tokens();
        match self.set_failed_expansion(Id(id.0.clone())) {
            Err(e) => {
                proof {
                    assert(a.marks().contains(idv));
                    assert(final(self)@.components == a.components);
                    assert(final(self)@.failed == a.failed);
                    // No ranking allows resolving a query already in flight.
                    assert forall|rank: Map<Seq<char>, nat>|
                        !(#[trigger] expandable_store(a, rank) && marks_above(
                            a,
                            rank,
                            a.components[k as int].spec_id(),
                        )) by {
                        if marks_above(a, rank, idv) {
                            assert(rank[idv] < rank[idv]);
                        }
                    }
                }
                return Err(e);
            },
            Ok(()) => {},
        }
        let ghost m1 = self@;
        proof {
            assert(a.ids_set().contains(idv)) by {
                assert(a.ids()[k as int] == idv);
                assert(a.ids().contains(idv));
            }
            lemma_mark_decreases(a, m1, idv);
            assert(evolves(a, m1));
        }
        let ghost toks0 = toks@;
        let res = self.expand_tokens_from(&mut toks, 0);
        let ghost s2 = self@;
        proof {
            lemma_evolves_wf(a, m1);
        }
        match res {
            Err(e) => {
                self.remove_failed_expansion(&id);
                proof {
                    lemma_evolves_trans(a, m1, s2);
                    assert(evolves(s2, final(self)@));
                    lemma_evolves_trans(a, s2, final(self)@);
                    lemma_evolves_wf(a, final(self)@);
                    a.failed.lemma_push_to_set_commute(idv);
                    assert(m1.marks() == a.marks().insert(idv));
                    assert(a.lookup(idv) == a.components[k as int]) by {
                        assert(a.components[k as int].spec_id() == idv);
                        let i2 = a.idx_of(idv);
                        if i2 != k as int {
                            assert(a.components[i2].spec_id()
                                == a.components[k as int].spec_id());
                            assert(false);
                        }
                    }
                    lemma_error_lift_mark(e, a, m1, idv);
                    // On a closed, ranked store with no pending scripts the
                    // token pass could not have failed.
                    assert forall|rank: Map<Seq<char>, nat>|
                        !(#[trigger] expandable_store(a, rank) && marks_above(
                            a,
                            rank,
                            a.components[k as int].spec_id(),
                        )) by {
                        if expandable_store(a, rank) && marks_above(a, rank, idv) {
                            lemma_conditions_preserved(a, m1, rank);
                            assert(expandable_store(m1, rank));
                            assert(m1.components == a.components);
                            assert(a.components[k as int] matches CompView::Query(qa) && qa
                                == a.components[k as int]->Query_0);
                            let qa = a.components[k as int]->Query_0;
                            assert(query_refs_closed(a, qa));
                            assert(query_rank_ok(qa, rank));
                            assert(tokens_expandable(m1, rank, toks0, 0)) by {
                                assert forall|t: int|
                                    0 <= t < toks0.len() implies ((#[trigger] toks0[t])@ matches
                                AstView::Id { name } ==> (m1.has_id(name) && marks_above(
                                    m1,
                                    rank,
                                    name,
                                ))) by {
                                    assert(orig_tokens[t] == toks0[t]@);
                                    match toks0[t]@ {
                                        AstView::Id { name } => {
                                            assert(a.has_id(name));
                                            let x = a.idx_of(name);
                                            assert(m1.components[x].spec_id() == name);
                                            assert(m1.has_id(name));
                                            assert(rank[name] < rank[idv]);
                                            assert forall|m: Seq<char>|
                                                m1.marks().contains(m) implies rank[name] < rank[m] by {
                                                if m != idv {
                                                    assert(a.marks().contains(m));
                                                    assert(rank[idv] < rank[m]);
                                                }
                                            }
                                        },
                                        _ => {},
                                    }
                                }
                            }
                            assert(res is Ok);
                            assert(false);
                        }
                    }
                }
                return Err(e);
            },
            Ok(()) => {},
        }
        self.remove_failed_expansion(&id);
        let ghost s3 = self@;
        let text = concat_texts(&toks);
        let replacement = Q3Components::Query(
            Query::Expanded { id, tokens: toks, query: text },
        );
        let ghost rv = replacement@;
        self.components.set(k, replacement);
        proof {
            let b = final(self)@;
            // The store after the replacement.
            assert(b.components =~= s2.components.update(k as int, rv));
            // The marks are exactly as they were at entry.
            assert(b.failed =~= a.failed.push(idv).remove_value(idv));
            assert(!a.failed.contains(idv)) by {
                if a.failed.contains(idv) {
                    let t = choose|t: int| 0 <= t < a.failed.len() && a.failed[t] == idv;
                    assert(a.marks().contains(idv));
                }
            }
            lemma_push_remove_value(a.failed, idv);
            assert(b.failed == a.failed);
            // The query at `k` sat marked and untouched through the token pass.
            assert(a.components[k as int].spec_id() == idv);
            a.failed.lemma_push_to_set_commute(idv);
            assert(m1.marks() == a.marks().insert(idv));
            assert(m1.marks().contains(idv));
            assert(s2.components[k as int] == a.components[k as int]) by {
                assert(untouched_marked(m1, s2));
            }
            // Its replacement is the correct substitution against the final store.
            lemma_evolves_wf(m1, s2);
            assert(tokens_substituted(orig_tokens, rv->Query_0.tokens(), s2));
            lemma_substituted_after_update(orig_tokens, rv->Query_0.tokens(), s2, b, k as int);
            assert(comp_step(s2.components[k as int], b.components[k as int], b));
            // The whole move is one evolution.
            lemma_evolves_trans(a, m1, s2);
            assert(evolves(s2, b));
            lemma_evolves_trans(a, s2, b);
            lemma_evolves_wf(a, b);
            // Marked unresolved queries other than this one were never touched.
            assert forall|i: int|
                0 <= i < a.components.len() && (#[trigger] a.components[i]) is Query
                    && !a.components[i].resolved() && a.marks().contains(
                    a.components[i].spec_id(),
                ) implies b.components[i] == a.components[i] by {
                assert(i != k as int);
                assert(m1.marks().contains(a.components[i].spec_id()));
                assert(s2.components[i] == m1.components[i]);
            }
        }
        Ok(())
    }

    /// Resolve every component of the store in place: queries depth
    /// first with cycle detection, lists and generators through their
    /// scripts. On success every component is resolved, and every query
    /// that held references holds instead the rendered texts of its
    /// targets as the final store has them. Resolving an already fully
    /// resolved store changes nothing. Any failure aborts the whole
    /// pass: no partial result is promised beyond a store that evolved
    /// monotonically.
    pub fn expand(&mut self) -> (r: Result<(), Q3Error>)
        requires
            old(self)@.wf(),
            old(self)@.failed == Seq::<Seq<char>>::empty(),
        ensures
            final(self)@.wf(),
            evolves(old(self)@, final(self)@),
            match r {
                Ok(()) => {
                    &&& final(self)@.all_resolved()
                    &&& final(self)@.failed == old(self)@.failed
                    &&& (old(self)@.all_resolved() ==> final(self)@ == old(self)@)
                },
                Err(e) => expansion_error_ok(e, old(self)@),
            },
            forall|rank: Map<Seq<char>, nat>|
                #[trigger] expandable_store(old(self)@, rank) ==> r is Ok,
    {
        proof {
            lemma_evolves_refl(old(self)@);
        }
        let n = self.components.len();
        let mut k: usize = 0;
        while k < n
            invariant
                n == old(self)@.components.len(),
                k <= n,
                old(self)@.wf(),
                old(self)@.failed == Seq::<Seq<char>>::empty(),
                self@.wf(),
                evolves(old(self)@, self@),
                self@.components.len() == n,
                self@.failed == old(self)@.failed,
                forall|i: int| 0 <= i < k ==> (#[trigger] self@.components[i]).resolved(),
                old(self)@.all_resolved() ==> self@ == old(self)@,
            decreases n - k,
        {
            let ghost prev = self@;
            let step = match self.kind_at(k) {
                CompKind::Qry => self.expand_query_at(k),
                CompKind::Lst => self.expand_list_at(k),
                CompKind::Gen => self.expand_generator_at(k),
            };
            match step {
                Err(e) => {
                    proof {
                        lemma_error_stable(e, old(self)@, prev);
                        lemma_evolves_trans(old(self)@, prev, final(self)@);
                        lemma_evolves_wf(old(self)@, final(self)@);
                        assert forall|rank: Map<Seq<char>, nat>|
                            !(#[trigger] expandable_store(old(self)@, rank)) by {
                            if expandable_store(old(self)@, rank) {
                                lemma_conditions_preserved(old(self)@, prev, rank);
                                assert(expandable_store(prev, rank));
                                assert(prev.marks() =~= Set::<Seq<char>>::empty());
                                assert(marks_above(prev, rank, prev.components[k as int].spec_id()));
                                match prev.components[k as int] {
                                    CompView::Query(_) => {},
                                    CompView::List(_) => {},
                                    CompView::Generator(_) => {},
                                }
                                assert(step is Ok);
                                assert(false);
                            }
                        }
                    }
                    return Err(e);
                },
                Ok(()) => {},
            }
            proof {
                let cur = self@;
                lemma_evolves_trans(old(self)@, prev, cur);
                lemma_evolves_wf(old(self)@, cur);
                // The marks stayed empty: a query found expanded drops a
                // mark that an empty mark list cannot hold.
                if prev.components[k as int] is Query && prev.components[k as int].resolved() {
                    let idk = prev.components[k as int].spec_id();
                    prev.failed.index_of_first_ensures(idk);
                    match prev.failed.index_of_first(idk) {
                        Some(i) => {
                            assert(false);
                        },
                        None => {},
                    }
                }
                assert(cur.failed == prev.failed);
                // Everything resolved so far stays resolved.
                assert(forall|i: int|
                    0 <= i < k ==> (#[trigger] cur.components[i]).resolved());
                assert(cur.components[k as int].resolved());
                // A fully resolved store is left exactly as it was.
                if old(self)@.all_resolved() {
                    assert(cur.components =~= prev.components);
                    assert(cur =~= prev);
                }
            }
            k = k + 1;
        }
        Ok(())
    }

    /// The rendered store: one `id : value` line per component, in
    /// insertion order, joined with line breaks.
    pub fn to_text(&self) -> (r: String)
        ensures
            r@ == join_with(store_lines(self@.components), seq!['\n']),
    {
        let n = self.components.len();
        let mut lines: Vec<String> = Vec::new();
        let mut i: usize = 0;
        while i < n
            invariant
                n == self@.components.len(),
                i <= n,
                lines.deep_view() =~= store_lines(self@.components.take(i as int)),
            decreases n - i,
        {
            let mut line = self.components[i].get_id().to_text();
            line.append(" : ");
            let disp = self.components[i].to_text();
            line.append(disp.as_str());
            proof {
                reveal_strlit(" : ");
                assert(line@ =~= store_line(self@.components[i as int]));
            }
            let ghost prev = lines.deep_view();
            let ghost lv = line@;
            lines.push(line);
            proof {
                assert(lines.deep_view() =~= prev.push(lv));
                assert(lines.deep_view() =~= store_lines(self@.components.take(i + 1)));
            }
            i = i + 1;
        }
        proof {
            assert(self@.components.take(n as int) =~= self@.components);
        }
        let r = join_all(&lines, "\n");
        proof {
            reveal_strlit("\n");
            assert("\n"@ =~= seq!['\n']);
        }
        r
    }

    /// Unmark `id`: its resolution attempt is over.
    pub fn remove_failed_expansion(&mut self, id: &Id)
        ensures
            final(self)@.components == old(self)@.components,
            final(self)@.failed == old(self)@.failed.remove_value(id@),
    {
        let n = self.failed_expansions.len();
        let mut i: usize = 0;
        while i < n
            invariant
                n == self@.failed.len(),
                i <= n,
                self@ == old(self)@,
                forall|k: int| 0 <= k < i ==> self@.failed[k] != id@,
            decreases n - i,
        {
            if self.failed_expansions[i].same_as(id) {
                proof {
                    let fv = old(self)@.failed;
                    assert(fv[i as int] == id@);
                    assert(fv.contains(id@));
                    fv.index_of_first_ensures(id@);
                    match fv.index_of_first(id@) {
                        Some(j) => {
                            if j < i as int {
                                assert(fv[j] != id@);
                            }
                            assert(j == i as int);
                        },
                        None => {
                            assert(false);
                        },
                    }
                }
                self.failed_expansions.remove(i);
                proof {
                    assert(final(self)@.components =~= old(self)@.components);
                    assert(final(self)@.failed =~= old(self)@.failed.remove(i as int));
                }
                return ;
            }
            i = i + 1;
        }
        proof {
            let fv = old(self)@.failed;
            fv.index_of_first_ensures(id@);
            match fv.index_of_first(id@) {
                Some(j) => {
                    assert(fv[j] != id@);
                    assert(false);
                },
                None => {},
            }
            assert(final(self)@.components =~= old(self)@.components);
            assert(final(self)@.failed =~= old(self)@.failed);
        }
    }
}

} // verus!
