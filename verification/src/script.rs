use vstd::prelude::*;

verus! {

/// The first position at or after `from` where the separator occurs as a
/// subrange of `s`, or `-1` when it occurs nowhere at or after `from`.
pub open spec fn find_sep(s: Seq<char>, sep: Seq<char>, from: int) -> int
    decreases s.len() - from + 1,
{
    if from < 0 || from + sep.len() > s.len() {
        -1
    } else if s.subrange(from, from + sep.len() as int) == sep {
        from
    } else {
        find_sep(s, sep, from + 1)
    }
}

pub proof fn lemma_find_sep(s: Seq<char>, sep: Seq<char>, from: int)
    requires
        0 <= from,
    ensures
        find_sep(s, sep, from) == -1 || (from <= find_sep(s, sep, from) && find_sep(s, sep, from)
            + sep.len() <= s.len()),
        find_sep(s, sep, from) >= 0 ==> s.subrange(
            find_sep(s, sep, from),
            find_sep(s, sep, from) + sep.len() as int,
        ) == sep,
    decreases s.len() - from + 1,
{
    if !(from + sep.len() > s.len()) && s.subrange(from, from + sep.len() as int) != sep {
        lemma_find_sep(s, sep, from + 1);
    }
}

/// The pieces of `s` from `base` on, cut at each occurrence of the
/// non-empty separator, leftmost first and without overlap.
pub open spec fn split_from(s: Seq<char>, sep: Seq<char>, base: int) -> Seq<Seq<char>>
    decreases s.len() - base,
    via split_from_decreases
{
    if sep.len() == 0 || base < 0 || base > s.len() {
        Seq::empty()
    } else {
        let i = find_sep(s, sep, base);
        if i < 0 {
            seq![s.subrange(base, s.len() as int)]
        } else {
            seq![s.subrange(base, i)] + split_from(s, sep, i + sep.len() as int)
        }
    }
}

#[via_fn]
proof fn split_from_decreases(s: Seq<char>, sep: Seq<char>, base: int) {
    if !(sep.len() == 0 || base < 0 || base > s.len()) {
        lemma_find_sep(s, sep, base);
    }
}

/// What splitting `s` on the separator yields: for an empty separator a
/// piece at every character boundary, as Rust's `str::split` has it; for
/// a non-empty one the pieces between its occurrences.
pub open spec fn split_spec(s: Seq<char>, sep: Seq<char>) -> Seq<Seq<char>> {
    if sep.len() == 0 {
        seq![Seq::<char>::empty()] + Seq::new(s.len(), |i: int| seq![s[i]]) + seq![
            Seq::<char>::empty(),
        ]
    } else {
        split_from(s, sep, 0)
    }
}

/// Whether the separator occurs in `s` exactly at position `at`.
fn sep_matches_at(s: &str, sep: &str, at: usize) -> (r: bool)
    requires
        at + sep@.len() <= s@.len(),
        s@.len() <= usize::MAX,
    ensures
        r == (s@.subrange(at as int, at + sep@.len()) == sep@),
{
    let m = sep.unicode_len();
    let mut k: usize = 0;
    while k < m
        invariant_except_break
            m == sep@.len(),
            at + m <= s@.len() <= usize::MAX,
            k <= m,
            forall|t: int| 0 <= t < k ==> s@[at + t] == sep@[t],
        ensures
            m == sep@.len(),
            at + m <= s@.len(),
            k <= m,
            k == m ==> forall|t: int| 0 <= t < m ==> s@[at + t] == sep@[t],
            k < m ==> s@[at + k] != sep@[k as int],
        decreases m - k,
    {
        if s.get_char(at + k) != sep.get_char(k) {
            break;
        }
        k = k + 1;
    }
    let ghost sub = s@.subrange(at as int, at + sep@.len());
    if k == m {
        proof {
            assert(sub =~= sep@);
        }
        true
    } else {
        proof {
            assert(sub[k as int] == s@[at + k]);
        }
        false
    }
}

/// The position of the next separator occurrence at or after `from`, if
/// any.
fn find_sep_exec(s: &str, sep: &str, from: usize) -> (r: Option<usize>)
    requires
        from <= s@.len(),
        sep@.len() > 0,
    ensures
        match r {
            Some(i) => i == find_sep(s@, sep@, from as int),
            None => find_sep(s@, sep@, from as int) == -1,
        },
{
    let n = s.unicode_len();
    let m = sep.unicode_len();
    if m > n {
        return None;
    }
    let mut j = from;
    let mut found = false;
    while !found && j <= n - m
        invariant_except_break
            n == s@.len(),
            m == sep@.len(),
            0 < m <= n,
            from <= j,
            j <= n,
            !found,
            find_sep(s@, sep@, from as int) == find_sep(s@, sep@, j as int),
        ensures
            n == s@.len(),
            m == sep@.len(),
            found ==> j == find_sep(s@, sep@, from as int),
            !found ==> find_sep(s@, sep@, from as int) == -1,
        decreases n - j,
    {
        if sep_matches_at(s, sep, j) {
            found = true;
            break;
        }
        if j + m >= n {
            proof {
                assert(find_sep(s@, sep@, j + 1) == -1);
            }
            j = j + 1;
            break;
        }
        j = j + 1;
    }
    if found {
        Some(j)
    } else {
        None
    }
}

/// Split `s` on the separator: Rust's `str::split`, including its
/// behaviour on an empty separator.
pub fn split_on(s: &str, sep: &str) -> (r: Vec<String>)
    ensures
        r.deep_view() == split_spec(s@, sep@),
{
    let n = s.unicode_len();
    let mut out: Vec<String> = Vec::new();
    if sep.unicode_len() == 0 {
        out.push(String::new());
        let mut i: usize = 0;
        while i < n
            invariant
                n == s@.len(),
                i <= n,
                out.deep_view() =~= seq![Seq::<char>::empty()] + Seq::new(
                    i as nat,
                    |k: int| seq![s@[k]],
                ),
            decreases n - i,
        {
            let ghost prev = out.deep_view();
            out.push(s.substring_char(i, i + 1).to_owned());
            proof {
                assert(out.deep_view() =~= prev.push(s@.subrange(i as int, i + 1)));
                assert(s@.subrange(i as int, i + 1) =~= seq![s@[i as int]]);
                assert(out.deep_view() =~= seq![Seq::<char>::empty()] + Seq::new(
                    (i + 1) as nat,
                    |k: int| seq![s@[k]],
                ));
            }
            i = i + 1;
        }
        out.push(String::new());
        proof {
            assert(out.deep_view() =~= split_spec(s@, sep@));
        }
        return out;
    }
    let mut base: usize = 0;
    loop
        invariant_except_break
            n == s@.len(),
            sep@.len() > 0,
            base <= n,
            split_spec(s@, sep@) == out.deep_view() + split_from(s@, sep@, base as int),
        ensures
            out.deep_view() == split_spec(s@, sep@),
        decreases n - base,
    {
        let ghost prev = out.deep_view();
        match find_sep_exec(s, sep, base) {
            Some(i) => {
                proof {
                    lemma_find_sep(s@, sep@, base as int);
                }
                out.push(s.substring_char(base, i).to_owned());
                proof {
                    assert(out.deep_view() =~= prev + seq![
                        s@.subrange(base as int, i as int),
                    ]);
                    assert(prev + split_from(s@, sep@, base as int) =~= out.deep_view()
                        + split_from(s@, sep@, i + sep@.len()));
                }
                base = i + sep.unicode_len();
            }
            None => {
                out.push(s.substring_char(base, n).to_owned());
                proof {
                    assert(out.deep_view() =~= prev + seq![
                        s@.subrange(base as int, n as int),
                    ]);
                    assert(prev + split_from(s@, sep@, base as int) =~= out.deep_view());
                }
                break;
            }
        }
    }
    out
}

/// Whether a character has the Unicode White_Space property: what
/// `char::is_whitespace` decides, a function of the character alone.
pub uninterp spec fn white_space(c: char) -> bool;

/// Relies on char::is_whitespace: true exactly for the characters with
/// the Unicode White_Space property.
pub assume_specification[ char::is_whitespace ](c: char) -> (r: bool)
    ensures
        r == white_space(c),
;

/// The first position at or after `from` whose character is not white
/// space, or the end of the text.
pub open spec fn ws_run_end(s: Seq<char>, from: int) -> int
    decreases s.len() - from,
{
    if from >= s.len() {
        s.len() as int
    } else if white_space(s[from]) {
        ws_run_end(s, from + 1)
    } else {
        from
    }
}

/// The first position at or before `upto` such that everything from it
/// up to `upto` is white space.
pub open spec fn ws_run_start(s: Seq<char>, upto: int) -> int
    decreases upto,
{
    if upto <= 0 {
        0
    } else if white_space(s[upto - 1]) {
        ws_run_start(s, upto - 1)
    } else {
        upto
    }
}

/// `s` without its leading and trailing white space.
pub open spec fn trim_spec(s: Seq<char>) -> Seq<char> {
    let a = ws_run_end(s, 0);
    let b = ws_run_start(s, s.len() as int);
    if a <= b {
        s.subrange(a, b)
    } else {
        Seq::empty()
    }
}

pub proof fn lemma_ws_run_end(s: Seq<char>, from: int)
    requires
        0 <= from <= s.len(),
    ensures
        from <= ws_run_end(s, from) <= s.len(),
        ws_run_end(s, from) < s.len() ==> !white_space(s[ws_run_end(s, from)]),
    decreases s.len() - from,
{
    if from < s.len() && white_space(s[from]) {
        lemma_ws_run_end(s, from + 1);
    }
}

/// The first position at or after `from` whose character is white
/// space, or the end of the text: a word runs up to it.
pub open spec fn word_end(s: Seq<char>, from: int) -> int
    decreases s.len() - from,
{
    if from >= s.len() {
        s.len() as int
    } else if !white_space(s[from]) {
        word_end(s, from + 1)
    } else {
        from
    }
}

pub proof fn lemma_word_end(s: Seq<char>, from: int)
    requires
        0 <= from <= s.len(),
    ensures
        from <= word_end(s, from) <= s.len(),
    decreases s.len() - from,
{
    if from < s.len() && !white_space(s[from]) {
        lemma_word_end(s, from + 1);
    }
}

/// The maximal white-space-free words of `s` from position `i` on, in
/// order.
pub open spec fn words_from(s: Seq<char>, i: int) -> Seq<Seq<char>>
    decreases s.len() - i,
    via words_from_decreases
{
    if i < 0 || i >= s.len() {
        Seq::empty()
    } else {
        let start = ws_run_end(s, i);
        if start >= s.len() {
            Seq::empty()
        } else {
            seq![s.subrange(start, word_end(s, start))] + words_from(s, word_end(s, start))
        }
    }
}

#[via_fn]
proof fn words_from_decreases(s: Seq<char>, i: int) {
    if 0 <= i < s.len() {
        lemma_ws_run_end(s, i);
        if ws_run_end(s, i) < s.len() {
            lemma_word_end(s, ws_run_end(s, i) + 1);
        }
    }
}

/// The words of a whole text.
pub open spec fn words_spec(s: Seq<char>) -> Seq<Seq<char>> {
    words_from(s, 0)
}

/// The pieces joined with the separator between each two.
pub open spec fn join_with(parts: Seq<Seq<char>>, sep: Seq<char>) -> Seq<char>
    decreases parts.len(),
{
    if parts.len() == 0 {
        Seq::empty()
    } else if parts.len() == 1 {
        parts[0]
    } else {
        parts[0] + sep + join_with(parts.drop_first(), sep)
    }
}

pub proof fn lemma_join_push(parts: Seq<Seq<char>>, sep: Seq<char>, x: Seq<char>)
    ensures
        join_with(parts.push(x), sep) == if parts.len() == 0 {
            x
        } else {
            join_with(parts, sep) + sep + x
        },
    decreases parts.len(),
{
    let whole = parts.push(x);
    if parts.len() == 0 {
        assert(whole.len() == 1);
        assert(whole[0] == x);
    } else if parts.len() == 1 {
        assert(whole.len() == 2);
        assert(whole[0] == parts[0]);
        assert(whole.drop_first() =~= seq![x]);
        assert(join_with(whole.drop_first(), sep) == x);
    } else {
        assert(whole.drop_first() =~= parts.drop_first().push(x));
        lemma_join_push(parts.drop_first(), sep, x);
        assert(whole[0] == parts[0]);
        assert((parts[0] + sep) + (join_with(parts.drop_first(), sep) + sep + x) =~= ((parts[0]
            + sep) + join_with(parts.drop_first(), sep)) + sep + x);
    }
}

/// One word as rendered with single spaces: the normalised form of a
/// text is its words joined by one space each.
pub open spec fn normalize_spec(e: Seq<char>) -> Seq<char> {
    join_with(words_spec(e), seq![' '])
}

/// A commented element starts with a number sign.
pub open spec fn commented(e: Seq<char>) -> bool {
    e.len() > 0 && e[0] == '#'
}

/// An element wrapped in double quotes.
pub open spec fn quote_one(e: Seq<char>) -> Seq<char> {
    seq!['"'] + e + seq!['"']
}

pub open spec fn quote_all_spec(parts: Seq<Seq<char>>) -> Seq<Seq<char>> {
    parts.map_values(|e: Seq<char>| quote_one(e))
}

pub open spec fn trim_all_spec(parts: Seq<Seq<char>>) -> Seq<Seq<char>> {
    parts.map_values(|e: Seq<char>| trim_spec(e))
}

pub open spec fn prepend_all_spec(parts: Seq<Seq<char>>, v: Seq<char>) -> Seq<Seq<char>> {
    parts.map_values(|e: Seq<char>| v + e)
}

pub open spec fn append_all_spec(parts: Seq<Seq<char>>, v: Seq<char>) -> Seq<Seq<char>> {
    parts.map_values(|e: Seq<char>| e + v)
}

pub open spec fn normalize_all_spec(parts: Seq<Seq<char>>) -> Seq<Seq<char>> {
    parts.map_values(|e: Seq<char>| normalize_spec(e))
}

/// Consecutive equal elements collapsed to one.
pub open spec fn dedup_spec(parts: Seq<Seq<char>>) -> Seq<Seq<char>>
    decreases parts.len(),
{
    if parts.len() <= 1 {
        parts
    } else if parts[parts.len() - 1] == parts[parts.len() - 2] {
        dedup_spec(parts.drop_last())
    } else {
        dedup_spec(parts.drop_last()).push(parts.last())
    }
}

pub open spec fn filter_commented_spec(parts: Seq<Seq<char>>) -> Seq<Seq<char>> {
    parts.filter(|e: Seq<char>| !commented(e))
}

/// Relies on str::trim: removes the leading and trailing characters
/// with the Unicode White_Space property, and nothing else.
#[verifier::external_body]
fn trim_str(s: &String) -> (r: String)
    ensures
        r@ == trim_spec(s@),
{
    s.trim().to_string()
}

/// Wrap each element in double quotes.
pub fn quote(input: Vec<String>) -> (r: Vec<String>)
    ensures
        r.deep_view() == quote_all_spec(input.deep_view()),
{
    let n = input.len();
    let mut out: Vec<String> = Vec::new();
    let mut i: usize = 0;
    while i < n
        invariant
            n == input@.len(),
            i <= n,
            out.deep_view() =~= quote_all_spec(input.deep_view().take(i as int)),
        decreases n - i,
    {
        let mut s = String::from_str("\"");
        s.append(input[i].as_str());
        s.append("\"");
        proof {
            reveal_strlit("\"");
            assert(s@ =~= quote_one(input.deep_view()[i as int]));
        }
        let ghost prev = out.deep_view();
        let ghost sv = s@;
        out.push(s);
        proof {
            assert(out.deep_view() =~= prev.push(sv));
            assert(out.deep_view() =~= quote_all_spec(input.deep_view().take(i + 1)));
        }
        i = i + 1;
    }
    proof {
        assert(input.deep_view().take(n as int) =~= input.deep_view());
    }
    out
}

/// Strip the white space around each element.
pub fn trim(input: Vec<String>) -> (r: Vec<String>)
    ensures
        r.deep_view() == trim_all_spec(input.deep_view()),
{
    let n = input.len();
    let mut out: Vec<String> = Vec::new();
    let mut i: usize = 0;
    while i < n
        invariant
            n == input@.len(),
            i <= n,
            out.deep_view() =~= trim_all_spec(input.deep_view().take(i as int)),
        decreases n - i,
    {
        let ghost prev = out.deep_view();
        let trimmed = trim_str(&input[i]);
        let ghost tv = trimmed@;
        out.push(trimmed);
        proof {
            assert(out.deep_view() =~= prev.push(tv));
            assert(out.deep_view() =~= trim_all_spec(input.deep_view().take(i + 1)));
        }
        i = i + 1;
    }
    proof {
        assert(input.deep_view().take(n as int) =~= input.deep_view());
    }
    out
}

/// Put `value` before each element.
pub fn prepend(input: Vec<String>, value: String) -> (r: Vec<String>)
    ensures
        r.deep_view() == prepend_all_spec(input.deep_view(), value@),
{
    let n = input.len();
    let mut out: Vec<String> = Vec::new();
    let mut i: usize = 0;
    while i < n
        invariant
            n == input@.len(),
            i <= n,
            out.deep_view() =~= prepend_all_spec(input.deep_view().take(i as int), value@),
        decreases n - i,
    {
        let mut s = value.clone();
        s.append(input[i].as_str());
        let ghost prev = out.deep_view();
        let ghost sv = s@;
        out.push(s);
        proof {
            assert(out.deep_view() =~= prev.push(sv));
            assert(out.deep_view() =~= prepend_all_spec(
                input.deep_view().take(i + 1),
                value@,
            ));
        }
        i = i + 1;
    }
    proof {
        assert(input.deep_view().take(n as int) =~= input.deep_view());
    }
    out
}

/// Put `value` after each element.
pub fn append(input: Vec<String>, value: String) -> (r: Vec<String>)
    ensures
        r.deep_view() == append_all_spec(input.deep_view(), value@),
{
    let n = input.len();
    let mut out: Vec<String> = Vec::new();
    let mut i: usize = 0;
    while i < n
        invariant
            n == input@.len(),
            i <= n,
            out.deep_view() =~= append_all_spec(input.deep_view().take(i as int), value@),
        decreases n - i,
    {
        let mut s = input[i].clone();
        s.append(value.as_str());
        let ghost prev = out.deep_view();
        let ghost sv = s@;
        out.push(s);
        proof {
            assert(out.deep_view() =~= prev.push(sv));
            assert(out.deep_view() =~= append_all_spec(input.deep_view().take(i + 1), value@));
        }
        i = i + 1;
    }
    proof {
        assert(input.deep_view().take(n as int) =~= input.deep_view());
    }
    out
}

/// The first position at or after `from` whose character is not white
/// space.
fn ws_run_end_exec(s: &str, from: usize) -> (r: usize)
    requires
        from <= s@.len(),
    ensures
        r == ws_run_end(s@, from as int),
{
    let n = s.unicode_len();
    let mut j = from;
    while j < n
        invariant
            n == s@.len(),
            from <= j <= n,
            ws_run_end(s@, from as int) == ws_run_end(s@, j as int),
        decreases n - j,
    {
        if !s.get_char(j).is_whitespace() {
            return j;
        }
        j = j + 1;
    }
    j
}

/// The first position at or after `from` whose character is white
/// space.
fn word_end_exec(s: &str, from: usize) -> (r: usize)
    requires
        from <= s@.len(),
    ensures
        r == word_end(s@, from as int),
{
    let n = s.unicode_len();
    let mut j = from;
    while j < n
        invariant
            n == s@.len(),
            from <= j <= n,
            word_end(s@, from as int) == word_end(s@, j as int),
        decreases n - j,
    {
        if s.get_char(j).is_whitespace() {
            return j;
        }
        j = j + 1;
    }
    j
}

/// The white-space-separated words of a text, in order.
fn split_words(s: &str) -> (r: Vec<String>)
    ensures
        r.deep_view() == words_spec(s@),
{
    let n = s.unicode_len();
    let mut out: Vec<String> = Vec::new();
    let mut pos: usize = 0;
    while pos < n
        invariant_except_break
            n == s@.len(),
            pos <= n,
            words_spec(s@) == out.deep_view() + words_from(s@, pos as int),
        ensures
            out.deep_view() == words_spec(s@),
        decreases n - pos,
    {
        let ghost prev = out.deep_view();
        let start = ws_run_end_exec(s, pos);
        if start >= n {
            proof {
                assert(words_from(s@, pos as int) =~= Seq::<Seq<char>>::empty());
                assert(prev + words_from(s@, pos as int) =~= prev);
            }
            break;
        }
        proof {
            lemma_ws_run_end(s@, pos as int);
        }
        let end = word_end_exec(s, start);
        proof {
            lemma_word_end(s@, start as int);
        }
        out.push(s.substring_char(start, end).to_owned());
        proof {
            assert(out.deep_view() =~= prev + seq![s@.subrange(start as int, end as int)]);
            assert(prev + words_from(s@, pos as int) =~= out.deep_view() + words_from(
                s@,
                end as int,
            ));
        }
        pos = end;
    }
    proof {
        if pos >= n {
            assert(words_from(s@, pos as int) =~= Seq::<Seq<char>>::empty());
            assert(out.deep_view() + words_from(s@, pos as int) =~= out.deep_view());
        }
    }
    out
}

/// The pieces joined with the separator between each two.
pub(crate) fn join_all(input: &Vec<String>, sep: &str) -> (r: String)
    ensures
        r@ == join_with(input.deep_view(), sep@),
{
    let n = input.len();
    let mut acc = String::new();
    let mut i: usize = 0;
    while i < n
        invariant
            n == input@.len(),
            i <= n,
            acc@ == join_with(input.deep_view().take(i as int), sep@),
        decreases n - i,
    {
        if i > 0 {
            acc.append(sep);
        }
        acc.append(input[i].as_str());
        proof {
            let dv = input.deep_view();
            assert(dv.take(i + 1) =~= dv.take(i as int).push(dv[i as int]));
            lemma_join_push(dv.take(i as int), sep@, dv[i as int]);
        }
        i = i + 1;
    }
    proof {
        assert(input.deep_view().take(n as int) =~= input.deep_view());
    }
    acc
}

/// Collapse every run of white space in each element to one space, and
/// drop it at the ends.
pub fn normalize_spaces(input: Vec<String>) -> (r: Vec<String>)
    ensures
        r.deep_view() == normalize_all_spec(input.deep_view()),
{
    let n = input.len();
    let mut out: Vec<String> = Vec::new();
    let mut i: usize = 0;
    while i < n
        invariant
            n == input@.len(),
            i <= n,
            out.deep_view() =~= normalize_all_spec(input.deep_view().take(i as int)),
        decreases n - i,
    {
        let words = split_words(input[i].as_str());
        let joined = join_all(&words, " ");
        proof {
            reveal_strlit(" ");
            assert(" "@ =~= seq![' ']);
            assert(joined@ == normalize_spec(input.deep_view()[i as int]));
        }
        let ghost prev = out.deep_view();
        let ghost jv = joined@;
        out.push(joined);
        proof {
            assert(out.deep_view() =~= prev.push(jv));
            assert(out.deep_view() =~= normalize_all_spec(input.deep_view().take(i + 1)));
        }
        i = i + 1;
    }
    proof {
        assert(input.deep_view().take(n as int) =~= input.deep_view());
    }
    out
}

/// Collapse consecutive equal elements to one.
pub fn uniq(input: Vec<String>) -> (r: Vec<String>)
    ensures
        r.deep_view() == dedup_spec(input.deep_view()),
{
    let n = input.len();
    let mut out: Vec<String> = Vec::new();
    let mut i: usize = 0;
    while i < n
        invariant
            n == input@.len(),
            i <= n,
            out.deep_view() =~= dedup_spec(input.deep_view().take(i as int)),
            i > 0 ==> out@.len() > 0 && out.deep_view().last() == input.deep_view()[i - 1],
        decreases n - i,
    {
        let ghost dv = input.deep_view();
        let keep = if out.len() == 0 {
            true
        } else {
            out[out.len() - 1] != input[i]
        };
        if keep {
            out.push(input[i].clone());
        }
        proof {
            assert(dv.take(i + 1).drop_last() =~= dv.take(i as int));
            assert(dv.take(i + 1).last() == dv[i as int]);
            if i > 0 {
                assert(dv.take(i + 1)[i - 1] == dv[i - 1]);
            }
            assert(out.deep_view() =~= dedup_spec(dv.take(i + 1)));
        }
        i = i + 1;
    }
    proof {
        assert(input.deep_view().take(n as int) =~= input.deep_view());
    }
    out
}

/// Join the elements with ` OR ` between each two.
pub fn join_or(input: Vec<String>) -> (r: String)
    ensures
        r@ == join_with(input.deep_view(), " OR "@),
{
    join_all(&input, " OR ")
}

/// Join the elements with ` AND ` between each two.
pub fn join_and(input: Vec<String>) -> (r: String)
    ensures
        r@ == join_with(input.deep_view(), " AND "@),
{
    join_all(&input, " AND ")
}

/// Drop every element that starts with a number sign.
pub fn filter_commented(input: Vec<String>) -> (r: Vec<String>)
    ensures
        r.deep_view() == filter_commented_spec(input.deep_view()),
{
    let n = input.len();
    let mut out: Vec<String> = Vec::new();
    let mut i: usize = 0;
    while i < n
        invariant
            n == input@.len(),
            i <= n,
            out.deep_view() == filter_commented_spec(input.deep_view().take(i as int)),
        decreases n - i,
    {
        let ghost prev = out.deep_view();
        let ghost dv = input.deep_view();
        let s = input[i].as_str();
        let is_commented = s.unicode_len() > 0 && s.get_char(0) == '#';
        if !is_commented {
            out.push(input[i].clone());
        }
        proof {
            reveal(Seq::filter);
            assert(dv.take(i + 1).drop_last() =~= dv.take(i as int));
            assert(dv.take(i + 1).last() == dv[i as int]);
            if !commented(dv[i as int]) {
                assert(out.deep_view() =~= prev.push(dv[i as int]));
            }
        }
        i = i + 1;
    }
    proof {
        assert(input.deep_view().take(n as int) =~= input.deep_view());
    }
    out
}

/// What dropping the empty elements of a sequence of pieces yields.
pub open spec fn filter_empty_spec(parts: Seq<Seq<char>>) -> Seq<Seq<char>> {
    parts.filter(|e: Seq<char>| e.len() != 0)
}

/// Drop the empty elements of the input, keeping the order of the rest.
pub fn filter_empty(input: Vec<String>) -> (r: Vec<String>)
    ensures
        r.deep_view() == filter_empty_spec(input.deep_view()),
{
    let n = input.len();
    let mut out: Vec<String> = Vec::new();
    let mut i: usize = 0;
    while i < n
        invariant
            n == input@.len(),
            i <= n,
            out.deep_view() == filter_empty_spec(input.deep_view().take(i as int)),
        decreases n - i,
    {
        let ghost prev = out.deep_view();
        let ghost dv = input.deep_view();
        if !input[i].as_str().is_empty() {
            out.push(input[i].clone());
        }
        proof {
            reveal(Seq::filter);
            assert(dv.take(i + 1).drop_last() =~= dv.take(i as int));
            assert(dv.take(i + 1).last() == dv[i as int]);
            if dv[i as int].len() != 0 {
                assert(out.deep_view() =~= prev.push(dv[i as int]));
            }
        }
        i = i + 1;
    }
    proof {
        assert(input.deep_view().take(n as int) =~= input.deep_view());
    }
    out
}

} // verus!
