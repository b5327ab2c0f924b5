use vstd::prelude::*;

use crate::error::Q3Error;

verus! {

/// A parsed piece of a query's source text.
#[derive(Debug, Clone, PartialEq, Eq)]
pub enum Q3Ast {
    /// A reference of the form `#{name}`; the field holds the name alone.
    Id(String),
    /// Anything except a reference, kept verbatim.
    Other(String),
}

/// The mathematical form of a token.
pub enum AstView {
    Id { name: Seq<char> },
    Other { text: Seq<char> },
}

impl View for Q3Ast {
    type V = AstView;

    open spec fn view(&self) -> AstView {
        match self {
            Q3Ast::Id(name) => AstView::Id { name: name@ },
            Q3Ast::Other(text) => AstView::Other { text: text@ },
        }
    }
}

/// The views of a token sequence, in order.
pub open spec fn views_of(ts: Seq<Q3Ast>) -> Seq<AstView> {
    ts.map_values(|t: Q3Ast| t@)
}

/// The characters allowed inside a placeholder name.
pub open spec fn id_char(c: char) -> bool {
    c != '{' && c != '}' && c != ' ' && c != '\t'
}

/// The first position at or after `from` whose character may not stand in a
/// name, or the end of the text.
pub open spec fn id_run_end(s: Seq<char>, from: int) -> int
    decreases s.len() - from,
{
    if from >= s.len() {
        s.len() as int
    } else if id_char(s[from]) {
        id_run_end(s, from + 1)
    } else {
        from
    }
}

/// A well-formed reference `#{name}` starts at position `i`: the opening
/// delimiter, a non-empty run of name characters, and a closing brace.
pub open spec fn ref_match_at(s: Seq<char>, i: int) -> bool {
    &&& 0 <= i
    &&& i + 1 < s.len()
    &&& s[i] == '#'
    &&& s[i + 1] == '{'
    &&& i + 2 < id_run_end(s, i + 2)
    &&& id_run_end(s, i + 2) < s.len()
    &&& s[id_run_end(s, i + 2)] == '}'
}

/// The position just past the closing brace of the reference at `i`.
pub open spec fn ref_end(s: Seq<char>, i: int) -> int {
    id_run_end(s, i + 2) + 1
}

/// The name captured by the reference at `i`, without its delimiters.
pub open spec fn ref_name(s: Seq<char>, i: int) -> Seq<char> {
    s.subrange(i + 2, id_run_end(s, i + 2))
}

/// The first position at or after `i` where a well-formed reference starts,
/// or the end of the text: a literal span runs up to this position.
pub open spec fn lit_end(s: Seq<char>, i: int) -> int
    decreases s.len() - i,
{
    if i >= s.len() {
        s.len() as int
    } else if ref_match_at(s, i) {
        i
    } else {
        lit_end(s, i + 1)
    }
}

pub proof fn lemma_id_run_end(s: Seq<char>, from: int)
    requires
        0 <= from <= s.len(),
    ensures
        from <= id_run_end(s, from) <= s.len(),
        forall|k: int| from <= k < id_run_end(s, from) ==> id_char(s[k]),
        id_run_end(s, from) < s.len() ==> !id_char(s[id_run_end(s, from)]),
    decreases s.len() - from,
{
    if from < s.len() && id_char(s[from]) {
        lemma_id_run_end(s, from + 1);
    }
}

pub proof fn lemma_lit_end(s: Seq<char>, i: int)
    requires
        0 <= i <= s.len(),
    ensures
        i <= lit_end(s, i) <= s.len(),
        forall|k: int| i <= k < lit_end(s, i) ==> !ref_match_at(s, k),
        lit_end(s, i) == s.len() || ref_match_at(s, lit_end(s, i)),
    decreases s.len() - i,
{
    if i < s.len() && !ref_match_at(s, i) {
        lemma_lit_end(s, i + 1);
    }
}

/// The token sequence of an input, in source order: references where the
/// grammar matches, and maximal literal spans everywhere else.
pub open spec fn parse_from(s: Seq<char>, i: int) -> Seq<AstView>
    decreases s.len() - i,
    via parse_from_decreases
{
    if i < 0 || i >= s.len() {
        Seq::empty()
    } else if ref_match_at(s, i) {
        seq![AstView::Id { name: ref_name(s, i) }] + parse_from(s, ref_end(s, i))
    } else {
        seq![AstView::Other { text: s.subrange(i, lit_end(s, i + 1)) }] + parse_from(
            s,
            lit_end(s, i + 1),
        )
    }
}

#[via_fn]
proof fn parse_from_decreases(s: Seq<char>, i: int) {
    if 0 <= i < s.len() && !ref_match_at(s, i) {
        lemma_lit_end(s, i + 1);
    }
}

/// What `parse` yields on a whole input.
pub open spec fn parse_spec(s: Seq<char>) -> Seq<AstView> {
    parse_from(s, 0)
}

/// The rendered form of a token: a literal renders as its text, a
/// reference renders as its inner name.
pub open spec fn ast_text(t: AstView) -> Seq<char> {
    match t {
        AstView::Id { name } => name,
        AstView::Other { text } => text,
    }
}

/// The source spelling of a token: a reference keeps its `#{name}` form.
pub open spec fn ast_source(t: AstView) -> Seq<char> {
    match t {
        AstView::Id { name } => seq!['#', '{'] + name + seq!['}'],
        AstView::Other { text } => text,
    }
}

/// The source spellings of a token sequence, concatenated in order.
pub open spec fn tokens_source(ts: Seq<AstView>) -> Seq<char>
    decreases ts.len(),
{
    if ts.len() == 0 {
        Seq::empty()
    } else {
        ast_source(ts[0]) + tokens_source(ts.drop_first())
    }
}

/// The rendered texts of a token sequence, concatenated in order.
pub open spec fn tokens_text(ts: Seq<AstView>) -> Seq<char>
    decreases ts.len(),
{
    if ts.len() == 0 {
        Seq::empty()
    } else {
        ast_text(ts[0]) + tokens_text(ts.drop_first())
    }
}

proof fn lemma_tokens_source_cons(t: AstView, ts: Seq<AstView>)
    ensures
        tokens_source(seq![t] + ts) == ast_source(t) + tokens_source(ts),
{
    let whole = seq![t] + ts;
    assert(whole.len() == ts.len() + 1);
    assert(whole[0] == t);
    assert(whole.drop_first() =~= ts);
}

proof fn lemma_parse_round_trip_from(s: Seq<char>, i: int)
    requires
        0 <= i <= s.len(),
    ensures
        tokens_source(parse_from(s, i)) == s.subrange(i, s.len() as int),
    decreases s.len() - i,
{
    if i >= s.len() {
        assert(tokens_source(parse_from(s, i)) =~= s.subrange(i, s.len() as int));
    } else if ref_match_at(s, i) {
        let e = ref_end(s, i);
        lemma_tokens_source_cons(AstView::Id { name: ref_name(s, i) }, parse_from(s, e));
        lemma_parse_round_trip_from(s, e);
        assert(ast_source(AstView::Id { name: ref_name(s, i) }) =~= s.subrange(i, e));
        assert(s.subrange(i, e) + s.subrange(e, s.len() as int) =~= s.subrange(
            i,
            s.len() as int,
        ));
    } else {
        let j = lit_end(s, i + 1);
        lemma_lit_end(s, i + 1);
        lemma_tokens_source_cons(
            AstView::Other { text: s.subrange(i, j) },
            parse_from(s, j),
        );
        lemma_parse_round_trip_from(s, j);
        assert(s.subrange(i, j) + s.subrange(j, s.len() as int) =~= s.subrange(
            i,
            s.len() as int,
        ));
    }
}

/// Round trip: concatenating the source spellings of the parsed tokens,
/// in order, reproduces the input exactly, for every input.
pub proof fn lemma_parse_round_trip(s: Seq<char>)
    ensures
        tokens_source(parse_spec(s)) == s,
{
    lemma_parse_round_trip_from(s, 0);
    assert(s.subrange(0, s.len() as int) =~= s);
}

impl Q3Ast {
    /// The rendered form of this token: its inner text either way.
    pub fn to_text(&self) -> (r: String)
        ensures
            r@ == ast_text(self@),
    {
        match self {
            Q3Ast::Id(name) => name.clone(),
            Q3Ast::Other(text) => text.clone(),
        }
    }

    /// The source spelling of this token: a reference regains its
    /// `#{name}` delimiters.
    pub fn source_text(&self) -> (r: String)
        ensures
            r@ == ast_source(self@),
    {
        match self {
            Q3Ast::Id(name) => {
                let mut s = String::from_str("#{");
                s.append(name.as_str());
                s.append("}");
                proof {
                    reveal_strlit("#{");
                    reveal_strlit("}");
                    assert(s@ =~= ast_source(self@));
                }
                s
            }
            Q3Ast::Other(text) => text.clone(),
        }
    }
}

/// A token sequence is fully literal: no reference remains in it.
pub open spec fn all_literal(ts: Seq<AstView>) -> bool {
    forall|k: int| 0 <= k < ts.len() ==> ts[k] is Other
}

pub proof fn lemma_tokens_text_append(a: Seq<AstView>, b: Seq<AstView>)
    ensures
        tokens_text(a + b) == tokens_text(a) + tokens_text(b),
    decreases a.len(),
{
    if a.len() == 0 {
        assert(a + b =~= b);
        assert(tokens_text(a) + tokens_text(b) =~= tokens_text(b));
    } else {
        assert((a + b).drop_first() =~= a.drop_first() + b);
        lemma_tokens_text_append(a.drop_first(), b);
        assert(ast_text(a[0]) + (tokens_text(a.drop_first()) + tokens_text(b)) =~= (ast_text(a[0])
            + tokens_text(a.drop_first())) + tokens_text(b));
    }
}

/// A fully literal token sequence renders exactly as it is spelt.
pub proof fn lemma_literal_text_is_source(ts: Seq<AstView>)
    requires
        all_literal(ts),
    ensures
        tokens_text(ts) == tokens_source(ts),
    decreases ts.len(),
{
    if ts.len() > 0 {
        assert(all_literal(ts.drop_first())) by {
            assert(forall|k: int|
                0 <= k < ts.drop_first().len() ==> ts.drop_first()[k] == ts[k + 1]);
        }
        lemma_literal_text_is_source(ts.drop_first());
    }
}

impl Q3Ast {
    /// An exact copy of this token.
    pub fn duplicate(&self) -> (r: Q3Ast)
        ensures
            r == *self,
    {
        match self {
            Q3Ast::Id(name) => Q3Ast::Id(name.clone()),
            Q3Ast::Other(text) => Q3Ast::Other(text.clone()),
        }
    }
}

/// An exact copy of a token sequence.
pub fn duplicate_tokens(tokens: &Vec<Q3Ast>) -> (r: Vec<Q3Ast>)
    ensures
        r@ == tokens@,
{
    let mut out: Vec<Q3Ast> = Vec::new();
    let n = tokens.len();
    let mut i: usize = 0;
    while i < n
        invariant
            n == tokens@.len(),
            i <= n,
            out@ =~= tokens@.take(i as int),
        decreases n - i,
    {
        out.push(tokens[i].duplicate());
        i = i + 1;
    }
    proof {
        assert(out@ =~= tokens@);
    }
    out
}

/// The rendered texts of the tokens, concatenated in order.
pub fn concat_texts(tokens: &Vec<Q3Ast>) -> (r: String)
    ensures
        r@ == tokens_text(views_of(tokens@)),
{
    let mut acc = String::new();
    let n = tokens.len();
    let mut i: usize = 0;
    while i < n
        invariant
            n == tokens@.len(),
            i <= n,
            acc@ == tokens_text(views_of(tokens@).take(i as int)),
        decreases n - i,
    {
        let piece = tokens[i].to_text();
        acc.append(piece.as_str());
        proof {
            let vs = views_of(tokens@);
            let single = seq![vs[i as int]];
            assert(vs.take(i + 1) =~= vs.take(i as int) + single);
            lemma_tokens_text_append(vs.take(i as int), single);
            assert(single.drop_first() =~= Seq::<AstView>::empty());
            assert(tokens_text(single) == ast_text(single[0]) + tokens_text(single.drop_first()));
            assert(tokens_text(single) =~= ast_text(vs[i as int]));
        }
        i = i + 1;
    }
    proof {
        assert(views_of(tokens@).take(n as int) =~= views_of(tokens@));
    }
    acc
}

/// Whether any reference remains among the tokens.
pub fn has_reference(tokens: &Vec<Q3Ast>) -> (r: bool)
    ensures
        r == !all_literal(views_of(tokens@)),
{
    let n = tokens.len();
    let mut i: usize = 0;
    while i < n
        invariant
            n == tokens@.len(),
            i <= n,
            forall|k: int| 0 <= k < i ==> views_of(tokens@)[k] is Other,
        decreases n - i,
    {
        if let Q3Ast::Id(_name) = &tokens[i] {
            assert(!(views_of(tokens@)[i as int] is Other));
            return true;
        }
        i = i + 1;
    }
    false
}

/// Decide whether a character may stand inside a placeholder name.
fn is_id_char(c: char) -> (r: bool)
    ensures
        r == id_char(c),
{
    c != '{' && c != '}' && c != ' ' && c != '\t'
}

/// The end of the run of name characters of `s` that starts at `from`.
fn id_run_end_exec(s: &str, from: usize) -> (r: usize)
    requires
        from <= s@.len(),
    ensures
        r == id_run_end(s@, from as int),
{
    let n = s.unicode_len();
    let mut j = from;
    while j < n
        invariant
            n == s@.len(),
            from <= j <= n,
            id_run_end(s@, from as int) == id_run_end(s@, j as int),
        decreases n - j,
    {
        if !is_id_char(s.get_char(j)) {
            return j;
        }
        j = j + 1;
    }
    j
}

/// If a well-formed reference starts at `i`, the position just past its
/// closing brace.
fn try_ref_end(s: &str, i: usize) -> (r: Option<usize>)
    requires
        i <= s@.len(),
    ensures
        match r {
            Some(e) => ref_match_at(s@, i as int) && e == ref_end(s@, i as int),
            None => !ref_match_at(s@, i as int),
        },
{
    let n = s.unicode_len();
    if i >= n || i + 1 >= n {
        proof {
            lemma_id_run_end(s@, if i + 2 <= n { i + 2 } else { n as int });
        }
        return None;
    }
    if s.get_char(i) != '#' {
        return None;
    }
    if s.get_char(i + 1) != '{' {
        return None;
    }
    let e = id_run_end_exec(s, i + 2);
    proof {
        lemma_id_run_end(s@, i + 2);
    }
    if e == i + 2 {
        return None;
    }
    if e >= n {
        return None;
    }
    if s.get_char(e) != '}' {
        return None;
    }
    Some(e + 1)
}

/// Parse a reference at the start of the input: `#{`, a non-empty name
/// without braces, spaces or tabs, and `}`. Yields the token and how many
/// characters it spans; yields nothing when the input starts otherwise.
pub fn parse_id(input: &str) -> (r: Option<(Q3Ast, usize)>)
    ensures
        match r {
            Some(p) => {
                &&& ref_match_at(input@, 0)
                &&& p.0@ == (AstView::Id { name: ref_name(input@, 0) })
                &&& p.1 == ref_end(input@, 0)
            },
            None => !ref_match_at(input@, 0),
        },
{
    match try_ref_end(input, 0) {
        Some(e) => {
            let name = input.substring_char(2, e - 1).to_owned();
            Some((Q3Ast::Id(name), e))
        }
        None => None,
    }
}

/// Parse the greedy literal span at the start of the input: everything up
/// to the first well-formed reference, or the whole input if none starts
/// in it. At a reference start the span is empty.
pub fn parse_any(input: &str) -> (r: (Q3Ast, usize))
    ensures
        r.0@ == (AstView::Other { text: input@.subrange(0, lit_end(input@, 0)) }),
        r.1 == lit_end(input@, 0),
{
    let n = input.unicode_len();
    let mut j: usize = 0;
    while j < n
        invariant_except_break
            n == input@.len(),
            j <= n,
            lit_end(input@, 0) == lit_end(input@, j as int),
        ensures
            n == input@.len(),
            j <= n,
            j == lit_end(input@, 0),
        decreases n - j,
    {
        if let Some(_e) = try_ref_end(input, j) {
            break;
        }
        j = j + 1;
    }
    let text = input.substring_char(0, j).to_owned();
    (Q3Ast::Other(text), j)
}

/// Parse a whole input into its token sequence. Total: every input yields
/// some token sequence, so the result is always a success.
pub fn parse_query(input: &str) -> (r: Result<Vec<Q3Ast>, Q3Error>)
    ensures
        r is Ok,
        r matches Ok(ts) ==> views_of(ts@) == parse_spec(input@),
{
    let n = input.unicode_len();
    let mut out: Vec<Q3Ast> = Vec::new();
    let mut i: usize = 0;
    while i < n
        invariant
            n == input@.len(),
            i <= n,
            parse_spec(input@) == views_of(out@) + parse_from(input@, i as int),
        decreases n - i,
    {
        let ghost prev = out@;
        match try_ref_end(input, i) {
            Some(e) => {
                proof {
                    lemma_id_run_end(input@, i + 2);
                }
                let name = input.substring_char(i + 2, e - 1).to_owned();
                out.push(Q3Ast::Id(name));
                proof {
                    assert(views_of(out@) =~= views_of(prev) + seq![
                        AstView::Id { name: ref_name(input@, i as int) },
                    ]);
                    assert(views_of(prev) + parse_from(input@, i as int) =~= views_of(out@)
                        + parse_from(input@, e as int));
                }
                i = e;
            }
            None => {
                let mut j = i + 1;
                while j < n
                    invariant_except_break
                        n == input@.len(),
                        i < j <= n,
                        lit_end(input@, i + 1) == lit_end(input@, j as int),
                    ensures
                        n == input@.len(),
                        i < j <= n,
                        j == lit_end(input@, i + 1),
                    decreases n - j,
                {
                    if let Some(_e) = try_ref_end(input, j) {
                        break;
                    }
                    j = j + 1;
                }
                let text = input.substring_char(i, j).to_owned();
                out.push(Q3Ast::Other(text));
                proof {
                    assert(views_of(out@) =~= views_of(prev) + seq![
                        AstView::Other {
                            text: input@.subrange(i as int, lit_end(input@, i + 1)),
                        },
                    ]);
                    assert(views_of(prev) + parse_from(input@, i as int) =~= views_of(out@)
                        + parse_from(input@, j as int));
                }
                i = j;
            }
        }
    }
    proof {
        assert(views_of(out@) + parse_from(input@, i as int) =~= views_of(out@));
    }
    Ok(out)
}

} // verus!
