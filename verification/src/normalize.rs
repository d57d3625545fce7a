//! The line normalizer: trims each input line, rewrites every standalone
//! occurrence of the keyword `var` to `let`, and extracts declared parameter
//! types from arrow-function signatures into a side table.

use vstd::prelude::*;

use vstd::pervasive::VecAdditionalExecFns;

use crate::minify::{kw_let, kw_var};
use crate::text::{
    chars_to_string, contains_pat, contains_seq, copy_range, is_space, is_space_char, matches_at,
    matches_at_exec, split_char, split_char_exec, split_lines, split_lines_spec, str_to_chars,
    trim_chars, trim_spec,
};
use crate::CompilerError;

verus! {

/// A word character, for judging the boundaries of the `var` rewrite: an
/// ASCII letter, digit or underscore, or any non-ASCII character that is not
/// whitespace. The last clause is a deliberate, conservative approximation
/// of the Unicode word classes: non-ASCII punctuation also counts as part of
/// a word here, so a `var` touching such a character is left alone rather
/// than rewritten.
pub open spec fn is_word_char(c: char) -> bool {
    ('a' <= c && c <= 'z') || ('A' <= c && c <= 'Z') || ('0' <= c && c <= '9') || c == '_' || (c
        >= '\u{80}' && !is_space_char(c))
}

/// Whether `c` is a word character.
pub fn word_char(c: char) -> (b: bool)
    ensures
        b == is_word_char(c),
{
    ('a' <= c && c <= 'z') || ('A' <= c && c <= 'Z') || ('0' <= c && c <= '9') || c == '_' || (c
        >= '\u{80}' && !is_space(c))
}

/// The word `w` occurs in `s` at `i` as a whole word: it matches there and
/// neither neighbour is a word character.
pub open spec fn word_at(s: Seq<char>, i: int, w: Seq<char>) -> bool {
    &&& matches_at(s, i, w)
    &&& (i == 0 || !is_word_char(s[i - 1]))
    &&& (i + w.len() == s.len() || !is_word_char(s[i + w.len()]))
}

/// `s` from `i` on, with every whole-word `var` replaced by `let`; all other
/// characters are copied unchanged.
pub open spec fn var_to_let_from(s: Seq<char>, i: int) -> Seq<char>
    decreases s.len() - i,
    when 0 <= i
{
    if i >= s.len() {
        Seq::<char>::empty()
    } else if word_at(s, i, kw_var()) {
        kw_let() + var_to_let_from(s, i + 3)
    } else {
        seq![s[i]] + var_to_let_from(s, i + 1)
    }
}

/// `s` with every whole-word `var` replaced by `let`.
pub open spec fn var_to_let(s: Seq<char>) -> Seq<char> {
    var_to_let_from(s, 0)
}

/// Position `j` of `s` lies inside some whole-word occurrence of `var`.
pub open spec fn covered_by_var(s: Seq<char>, j: int) -> bool {
    exists|k: int| word_at(s, k, kw_var()) && k <= j < k + 3
}

/// `v` with every whole-word `var` replaced by `let`.
pub fn var_to_let_chars(v: &Vec<char>) -> (r: Vec<char>)
    ensures
        r@ == var_to_let(v@),
{
    let n = v.len();
    let pat_var: Vec<char> = vec!['v', 'a', 'r'];
    proof {
        assert(pat_var@ =~= kw_var());
    }
    let mut r: Vec<char> = Vec::new();
    let mut i: usize = 0;
    while i < n
        invariant
            i <= n,
            n == v@.len(),
            pat_var@ == kw_var(),
            var_to_let(v@) =~= r@ + var_to_let_from(v@, i as int),
        decreases n - i,
    {
        let is_match = matches_at_exec(v, i, &pat_var) && (i == 0 || !word_char(v[i - 1])) && (i
            + 3 == n || !word_char(v[i + 3]));
        if is_match {
            r.push('l');
            r.push('e');
            r.push('t');
            i = i + 3;
        } else {
            r.push(v[i]);
            i = i + 1;
        }
        assert(var_to_let(v@) =~= r@ + var_to_let_from(v@, i as int));
    }
    assert(r@ =~= var_to_let(v@));
    r
}

/// No whole-word `var` straddles position `i`: scanning may start there.
spec fn no_straddle(s: Seq<char>, i: int) -> bool {
    forall|k: int| !(k < i < k + 3 && word_at(s, k, kw_var()))
}

/// A whole-word `var` occurrence fixes the three characters it covers.
proof fn lemma_word_at_chars(s: Seq<char>, k: int)
    requires
        word_at(s, k, kw_var()),
    ensures
        0 <= k,
        k + 3 <= s.len(),
        s[k] == 'v',
        s[k + 1] == 'a',
        s[k + 2] == 'r',
{
    assert(s.subrange(k, k + 3)[0] == s[k]);
    assert(s.subrange(k, k + 3)[1] == s[k + 1]);
    assert(s.subrange(k, k + 3)[2] == s[k + 2]);
}

/// Distinct whole-word `var` occurrences cannot overlap.
proof fn lemma_word_at_disjoint(s: Seq<char>, k1: int, k2: int)
    requires
        word_at(s, k1, kw_var()),
        word_at(s, k2, kw_var()),
        k1 < k2,
    ensures
        k1 + 3 <= k2,
{
    lemma_word_at_chars(s, k1);
    lemma_word_at_chars(s, k2);
}

/// The rewrite never changes the length.
proof fn lemma_vtl_len(s: Seq<char>, i: int)
    requires
        0 <= i <= s.len(),
    ensures
        var_to_let_from(s, i).len() == s.len() - i,
    decreases s.len() - i,
{
    if i < s.len() {
        if word_at(s, i, kw_var()) {
            lemma_vtl_len(s, i + 3);
        } else {
            lemma_vtl_len(s, i + 1);
        }
    }
}

/// Advancing over a non-match, or past a whole match, keeps the
/// no-straddle property.
proof fn lemma_no_straddle_step(s: Seq<char>, i: int)
    requires
        0 <= i < s.len(),
        no_straddle(s, i),
    ensures
        word_at(s, i, kw_var()) ==> no_straddle(s, i + 3),
        !word_at(s, i, kw_var()) ==> no_straddle(s, i + 1),
{
    if word_at(s, i, kw_var()) {
        assert forall|k: int| !(k < i + 3 < k + 3 && word_at(s, k, kw_var())) by {
            if k < i + 3 < k + 3 && word_at(s, k, kw_var()) {
                if k < i {
                    lemma_word_at_disjoint(s, k, i);
                } else if i < k {
                    lemma_word_at_disjoint(s, i, k);
                }
            }
        }
    } else {
        assert forall|k: int| !(k < i + 1 < k + 3 && word_at(s, k, kw_var())) by {
            if k < i + 1 < k + 3 && word_at(s, k, kw_var()) {
                assert(k == i || (k < i < k + 3));
            }
        }
    }
}

/// A position covered by no whole-word `var` is copied unchanged.
proof fn lemma_vtl_uncovered(s: Seq<char>, i: int, j: int)
    requires
        0 <= i <= j < s.len(),
        no_straddle(s, i),
        !covered_by_var(s, j),
    ensures
        var_to_let_from(s, i)[j - i] == s[j],
    decreases j - i,
{
    lemma_vtl_len(s, i);
    lemma_no_straddle_step(s, i);
    if word_at(s, i, kw_var()) {
        assert(j >= i + 3);
        lemma_vtl_len(s, i + 3);
        lemma_vtl_uncovered(s, i + 3, j);
    } else if i < j {
        lemma_vtl_len(s, i + 1);
        lemma_vtl_uncovered(s, i + 1, j);
    }
}

/// A whole-word `var` occurrence is rewritten to `let` in place.
proof fn lemma_vtl_match(s: Seq<char>, i: int, k: int)
    requires
        0 <= i <= k,
        no_straddle(s, i),
        word_at(s, k, kw_var()),
    ensures
        var_to_let_from(s, i)[k - i] == 'l',
        var_to_let_from(s, i)[k - i + 1] == 'e',
        var_to_let_from(s, i)[k - i + 2] == 't',
    decreases k - i,
{
    lemma_word_at_chars(s, k);
    lemma_vtl_len(s, i);
    lemma_no_straddle_step(s, i);
    if i == k {
        lemma_vtl_len(s, i + 3);
    } else if word_at(s, i, kw_var()) {
        lemma_word_at_disjoint(s, i, k);
        lemma_vtl_len(s, i + 3);
        lemma_vtl_match(s, i + 3, k);
    } else {
        lemma_vtl_len(s, i + 1);
        lemma_vtl_match(s, i + 1, k);
    }
}

/// What the `var` rewrite does, position by position: the length is kept,
/// every whole-word `var` becomes `let` in place, and every position outside
/// such an occurrence — an identifier that merely contains `var`, say — is
/// left untouched.
pub proof fn lemma_var_to_let_pointwise(s: Seq<char>)
    ensures
        var_to_let(s).len() == s.len(),
        forall|k: int| word_at(s, k, kw_var()) ==> var_to_let(s)[k] == 'l' && var_to_let(s)[k + 1]
            == 'e' && var_to_let(s)[k + 2] == 't',
        forall|j: int| 0 <= j < s.len() && !covered_by_var(s, j) ==> var_to_let(s)[j] == s[j],
{
    lemma_vtl_len(s, 0);
    assert forall|k: int| word_at(s, k, kw_var()) implies var_to_let(s)[k] == 'l' && var_to_let(
        s,
    )[k + 1] == 'e' && var_to_let(s)[k + 2] == 't' by {
        lemma_word_at_chars(s, k);
        lemma_vtl_match(s, 0, k);
    }
    assert forall|j: int| 0 <= j < s.len() && !covered_by_var(s, j) implies var_to_let(s)[j]
        == s[j] by {
        lemma_vtl_uncovered(s, 0, j);
    }
}

/// Scanning may always start at the very beginning.
proof fn lemma_no_straddle_zero(s: Seq<char>)
    ensures
        no_straddle(s, 0),
{
    assert forall|k: int| !(k < 0 < k + 3 && word_at(s, k, kw_var())) by {
        if word_at(s, k, kw_var()) {
            assert(0 <= k);
        }
    }
}

/// A position covered by a whole-word `var` shows a letter of `let`
/// afterwards; an uncovered one is copied.
proof fn lemma_vtl_reverse(s: Seq<char>, m: int)
    requires
        0 <= m < s.len(),
    ensures
        covered_by_var(s, m) ==> var_to_let(s)[m] == 'l' || var_to_let(s)[m] == 'e' || var_to_let(
            s,
        )[m] == 't',
        !covered_by_var(s, m) ==> s[m] == var_to_let(s)[m],
{
    lemma_no_straddle_zero(s);
    if covered_by_var(s, m) {
        let k = choose|k: int| word_at(s, k, kw_var()) && k <= m < k + 3;
        lemma_word_at_chars(s, k);
        lemma_vtl_match(s, 0, k);
    } else {
        lemma_vtl_uncovered(s, 0, m);
    }
}

/// After the rewrite no whole-word `var` remains anywhere.
pub proof fn lemma_no_word_var_remains(s: Seq<char>)
    ensures
        forall|j: int| !word_at(var_to_let(s), j, kw_var()),
{
    let r = var_to_let(s);
    lemma_no_straddle_zero(s);
    lemma_vtl_len(s, 0);
    assert forall|j: int| !word_at(r, j, kw_var()) by {
        if word_at(r, j, kw_var()) {
            lemma_word_at_chars(r, j);
            lemma_vtl_reverse(s, j);
            lemma_vtl_reverse(s, j + 1);
            lemma_vtl_reverse(s, j + 2);
            assert(!covered_by_var(s, j) && !covered_by_var(s, j + 1) && !covered_by_var(
                s,
                j + 2,
            ));
            if j > 0 {
                lemma_vtl_reverse(s, j - 1);
                if covered_by_var(s, j - 1) {
                    assert(is_word_char(r[j - 1]));
                }
            }
            if j + 3 < s.len() {
                lemma_vtl_reverse(s, j + 3);
                if covered_by_var(s, j + 3) {
                    assert(is_word_char(r[j + 3]));
                }
            }
            assert(s.subrange(j, j + 3) =~= kw_var());
            assert(word_at(s, j, kw_var()));
            lemma_vtl_match(s, 0, j);
            assert(r[j] == 'l');
        }
    }
}

/// The phrase `var x = 1`.
pub open spec fn var_decl_phrase() -> Seq<char> {
    seq!['v', 'a', 'r', ' ', 'x', ' ', '=', ' ', '1']
}

/// The phrase `let x = 1`.
pub open spec fn let_decl_phrase() -> Seq<char> {
    seq!['l', 'e', 't', ' ', 'x', ' ', '=', ' ', '1']
}

/// Pins down the characters that an occurrence of `var x = 1` fixes.
proof fn lemma_decl_chars(s: Seq<char>, p: int)
    requires
        matches_at(s, p, var_decl_phrase()),
    ensures
        0 <= p,
        p + 9 <= s.len(),
        s[p] == 'v',
        s[p + 1] == 'a',
        s[p + 2] == 'r',
        s[p + 3] == ' ',
        s[p + 4] == 'x',
        s[p + 5] == ' ',
        s[p + 6] == '=',
        s[p + 7] == ' ',
        s[p + 8] == '1',
{
    assert(s.subrange(p, p + 9)[0] == s[p]);
    assert(s.subrange(p, p + 9)[1] == s[p + 1]);
    assert(s.subrange(p, p + 9)[2] == s[p + 2]);
    assert(s.subrange(p, p + 9)[3] == s[p + 3]);
    assert(s.subrange(p, p + 9)[4] == s[p + 4]);
    assert(s.subrange(p, p + 9)[5] == s[p + 5]);
    assert(s.subrange(p, p + 9)[6] == s[p + 6]);
    assert(s.subrange(p, p + 9)[7] == s[p + 7]);
    assert(s.subrange(p, p + 9)[8] == s[p + 8]);
}

/// No whole-word `var` covers the tail ` x = 1` of the phrase: every
/// occurrence must start on a `v`, and none of the nearby characters is one.
proof fn lemma_decl_uncovered(s: Seq<char>, p: int, j: int)
    requires
        matches_at(s, p, var_decl_phrase()),
        p + 3 <= j < p + 9,
    ensures
        !covered_by_var(s, j),
{
    lemma_decl_chars(s, p);
    if covered_by_var(s, j) {
        let k = choose|k: int| word_at(s, k, kw_var()) && k <= j < k + 3;
        lemma_word_at_chars(s, k);
        assert(p + 1 <= k <= p + 8);
        assert(s[k] == 'v');
        assert(false);
    }
}

/// A text containing `var x = 1`, with no word character right before it,
/// shows `let x = 1` in the same place after the rewrite.
pub proof fn lemma_var_decl_rewritten(s: Seq<char>, p: int)
    requires
        matches_at(s, p, var_decl_phrase()),
        p == 0 || !is_word_char(s[p - 1]),
    ensures
        matches_at(var_to_let(s), p, let_decl_phrase()),
{
    let r = var_to_let(s);
    lemma_decl_chars(s, p);
    assert(s.subrange(p, p + 3) =~= kw_var());
    assert(word_at(s, p, kw_var()));
    lemma_no_straddle_zero(s);
    lemma_vtl_len(s, 0);
    lemma_vtl_match(s, 0, p);
    lemma_decl_uncovered(s, p, p + 3);
    lemma_vtl_uncovered(s, 0, p + 3);
    lemma_decl_uncovered(s, p, p + 4);
    lemma_vtl_uncovered(s, 0, p + 4);
    lemma_decl_uncovered(s, p, p + 5);
    lemma_vtl_uncovered(s, 0, p + 5);
    lemma_decl_uncovered(s, p, p + 6);
    lemma_vtl_uncovered(s, 0, p + 6);
    lemma_decl_uncovered(s, p, p + 7);
    lemma_vtl_uncovered(s, 0, p + 7);
    lemma_decl_uncovered(s, p, p + 8);
    lemma_vtl_uncovered(s, 0, p + 8);
    assert(r.subrange(p, p + 9) =~= let_decl_phrase());
}

/// One line of the normalizer's output: the line trimmed, then every
/// whole-word `var` replaced by `let`.
pub open spec fn normalize_line(l: Seq<char>) -> Seq<char> {
    var_to_let(trim_spec(l))
}

/// The normalizer's whole output: every input line, normalized, in order.
pub open spec fn normalized_lines(input: Seq<char>) -> Seq<Seq<char>> {
    split_lines_spec(input).map_values(|l: Seq<char>| normalize_line(l))
}

/// Splits the input into lines, trims each, and rewrites every whole-word
/// `var` to `let`. Never fails: the `Result` only mirrors the pipeline's
/// error taxonomy, in which no stage can actually reject its input.
pub fn parse_and_check(input: &str) -> (res: Result<Vec<String>, CompilerError>)
    ensures
        res is Ok,
        res matches Ok(lines) ==> lines.deep_view() == normalized_lines(input@),
{
    let v = str_to_chars(input);
    let raw = split_lines(&v);
    let mut out: Vec<String> = Vec::new();
    let mut i: usize = 0;
    while i < raw.len()
        invariant
            i <= raw@.len(),
            raw.deep_view() == split_lines_spec(input@),
            out.deep_view() =~~= normalized_lines(input@).subrange(0, i as int),
        decreases raw@.len() - i,
    {
        let t = trim_chars(&raw[i]);
        let w = var_to_let_chars(&t);
        out.push(chars_to_string(&w));
        i = i + 1;
        proof {
            assert(raw.deep_view()[i - 1] == raw@[i - 1]@);
            assert(normalized_lines(input@)[i - 1] == normalize_line(
                split_lines_spec(input@)[i - 1],
            ));
            assert(out.deep_view() =~~= normalized_lines(input@).subrange(0, i as int));
        }
    }
    assert(out.deep_view() =~~= normalized_lines(input@));
    Ok(out)
}

/// The word `function`.
pub open spec fn function_word() -> Seq<char> {
    seq!['f', 'u', 'n', 'c', 't', 'i', 'o', 'n']
}

/// The arrow token `=>`.
pub open spec fn arrow_mark() -> Seq<char> {
    seq!['=', '>']
}

/// The first position at or after `i` where a parenthesized group starts: an
/// opening parenthesis with some closing parenthesis after it. `t.len()`
/// when there is none.
pub open spec fn capture_open_from(t: Seq<char>, i: int) -> int
    decreases t.len() - i,
    when 0 <= i <= t.len()
{
    if i >= t.len() {
        t.len() as int
    } else if t[i] == '(' && (exists|q: int| i < q < t.len() && t[q] == ')') {
        i
    } else {
        capture_open_from(t, i + 1)
    }
}

/// The first closing parenthesis strictly after `p`; `t.len()` when there is
/// none.
pub open spec fn close_after(t: Seq<char>, p: int) -> int
    decreases t.len() - p,
    when 0 <= p
{
    if p + 1 >= t.len() {
        t.len() as int
    } else if t[p + 1] == ')' {
        p + 1
    } else {
        close_after(t, p + 1)
    }
}

/// The parameter entries of one comma-separated parameter list: each piece is
/// trimmed and split on colons; exactly a name and a type yield an entry,
/// anything else is silently skipped.
pub open spec fn params_of_parts(parts: Seq<Seq<char>>) -> Seq<(Seq<char>, Seq<char>)>
    decreases parts.len(),
{
    if parts.len() == 0 {
        Seq::<(Seq<char>, Seq<char>)>::empty()
    } else {
        let rest = params_of_parts(parts.drop_last());
        let ps = split_char(trim_spec(parts.last()), ':');
        if ps.len() == 2 {
            rest.push((trim_spec(ps[0]), trim_spec(ps[1])))
        } else {
            rest
        }
    }
}

/// The parameter entries recorded from one normalized line: only a line that
/// contains both `function` and `=>` is inspected; its first parenthesized
/// group is split on commas and read as `name: type` pairs.
pub open spec fn line_params(t: Seq<char>) -> Seq<(Seq<char>, Seq<char>)> {
    if contains_seq(t, function_word()) && contains_seq(t, arrow_mark()) {
        let p = capture_open_from(t, 0);
        if p == t.len() {
            Seq::<(Seq<char>, Seq<char>)>::empty()
        } else {
            params_of_parts(split_char(t.subrange(p + 1, close_after(t, p)), ','))
        }
    } else {
        Seq::<(Seq<char>, Seq<char>)>::empty()
    }
}

/// Whether some closing parenthesis stands strictly between `i` and the end.
fn has_close_after(v: &Vec<char>, i: usize) -> (b: bool)
    requires
        i < v@.len(),
    ensures
        b == exists|q: int| i < q < v@.len() && v@[q] == ')',
{
    let n = v.len();
    let mut q: usize = i + 1;
    while q < n
        invariant
            i + 1 <= q,
            forall|m: int| i < m < q ==> v@[m] != ')',
        decreases n - q,
    {
        if v[q] == ')' {
            assert(i < q < v@.len() && v@[q as int] == ')');
            return true;
        }
        q = q + 1;
    }
    false
}

/// The start of the first parenthesized group of `v`, or its length.
fn capture_open(v: &Vec<char>) -> (p: usize)
    ensures
        p as int == capture_open_from(v@, 0),
        p <= v@.len(),
{
    let n = v.len();
    let mut i: usize = 0;
    while i < n
        invariant
            i <= n,
            n == v@.len(),
            capture_open_from(v@, 0) == capture_open_from(v@, i as int),
        decreases n - i,
    {
        if v[i] == '(' && has_close_after(v, i) {
            return i;
        }
        i = i + 1;
        assert(capture_open_from(v@, 0) == capture_open_from(v@, i as int));
    }
    n
}

/// The first closing parenthesis strictly after `p`, or the length of `v`.
fn close_after_exec(v: &Vec<char>, p: usize) -> (q: usize)
    requires
        p < v@.len(),
    ensures
        q as int == close_after(v@, p as int),
        p < q <= v@.len(),
{
    let n = v.len();
    let mut q: usize = p;
    while q + 1 < n && v[q + 1] != ')'
        invariant
            p <= q < n,
            n == v@.len(),
            close_after(v@, p as int) == close_after(v@, q as int),
        decreases n - q,
    {
        q = q + 1;
    }
    if q + 1 < n {
        q + 1
    } else {
        n
    }
}

/// The parameter entries recorded from one normalized line.
pub fn line_params_exec(t: &Vec<char>) -> (r: Vec<(String, String)>)
    ensures
        r.deep_view() == line_params(t@),
{
    let pat_fn: Vec<char> = vec!['f', 'u', 'n', 'c', 't', 'i', 'o', 'n'];
    let pat_arrow: Vec<char> = vec!['=', '>'];
    proof {
        assert(pat_fn@ =~= function_word());
        assert(pat_arrow@ =~= arrow_mark());
    }
    let mut out: Vec<(String, String)> = Vec::new();
    if !contains_pat(t, &pat_fn) || !contains_pat(t, &pat_arrow) {
        assert(out.deep_view() =~~= line_params(t@));
        return out;
    }
    let p = capture_open(t);
    if p == t.len() {
        assert(out.deep_view() =~~= line_params(t@));
        return out;
    }
    let q = close_after_exec(t, p);
    let cap = copy_range(t, p + 1, q);
    let pieces = split_char_exec(&cap, ',');
    let n = pieces.len();
    let mut i: usize = 0;
    while i < n
        invariant
            i <= n,
            n == pieces@.len(),
            pieces.deep_view() == split_char(
                t@.subrange(p + 1, close_after(t@, p as int)),
                ',',
            ),
            out.deep_view() =~~= params_of_parts(pieces.deep_view().subrange(0, i as int)),
        decreases n - i,
    {
        assert(pieces.deep_view()[i as int] == pieces@[i as int]@);
        let piece = trim_chars(&pieces[i]);
        let ps = split_char_exec(&piece, ':');
        if ps.len() == 2 {
            proof {
                assert(ps.deep_view()[0] =~= ps@[0]@);
                assert(ps.deep_view()[1] =~= ps@[1]@);
            }
            let name = trim_chars(&ps[0]);
            let ty = trim_chars(&ps[1]);
            out.push((chars_to_string(&name), chars_to_string(&ty)));
        }
        i = i + 1;
        proof {
            let pre = pieces.deep_view().subrange(0, i as int);
            assert(pre.drop_last() =~~= pieces.deep_view().subrange(0, i - 1));
            assert(pre.last() =~= pieces@[i - 1]@);
            assert(out.deep_view() =~~= params_of_parts(pre));
        }
    }
    assert(pieces.deep_view().subrange(0, n as int) =~~= pieces.deep_view());
    out
}

/// The first index at which key `k` stands in the table, or `-1`.
pub open spec fn tbl_key_idx(t: Seq<(Seq<char>, Seq<char>)>, k: Seq<char>) -> int
    decreases t.len(),
{
    if t.len() == 0 {
        -1
    } else if t[0].0 == k {
        0
    } else if tbl_key_idx(t.drop_first(), k) < 0 {
        -1
    } else {
        1 + tbl_key_idx(t.drop_first(), k)
    }
}

/// Insertion with last-write-wins: an existing key keeps its place but gets
/// the new type; a new key is appended.
pub open spec fn tbl_insert(t: Seq<(Seq<char>, Seq<char>)>, k: Seq<char>, v: Seq<char>) -> Seq<
    (Seq<char>, Seq<char>),
> {
    if tbl_key_idx(t, k) >= 0 {
        t.update(tbl_key_idx(t, k), (k, v))
    } else {
        t.push((k, v))
    }
}

/// All entries of `ps` inserted into `t`, in order.
pub open spec fn tbl_insert_all(
    t: Seq<(Seq<char>, Seq<char>)>,
    ps: Seq<(Seq<char>, Seq<char>)>,
) -> Seq<(Seq<char>, Seq<char>)>
    decreases ps.len(),
{
    if ps.len() == 0 {
        t
    } else {
        tbl_insert(tbl_insert_all(t, ps.drop_last()), ps.last().0, ps.last().1)
    }
}

/// The parameter type table accumulated over a sequence of normalized lines.
pub open spec fn table_spec(lines: Seq<Seq<char>>) -> Seq<(Seq<char>, Seq<char>)>
    decreases lines.len(),
{
    if lines.len() == 0 {
        Seq::<(Seq<char>, Seq<char>)>::empty()
    } else {
        tbl_insert_all(table_spec(lines.drop_last()), line_params(lines.last()))
    }
}

/// The parameter type table of a whole input text.
pub open spec fn param_table_of(input: Seq<char>) -> Seq<(Seq<char>, Seq<char>)> {
    table_spec(normalized_lines(input))
}

/// A key found at `j`, with no earlier occurrence, is where `tbl_key_idx`
/// points.
proof fn lemma_tbl_key_idx_at(t: Seq<(Seq<char>, Seq<char>)>, k: Seq<char>, j: int)
    requires
        0 <= j < t.len(),
        t[j].0 == k,
        forall|m: int| 0 <= m < j ==> t[m].0 != k,
    ensures
        tbl_key_idx(t, k) == j,
    decreases t.len(),
{
    if j > 0 {
        lemma_tbl_key_idx_at(t.drop_first(), k, j - 1);
    }
}

/// A key that occurs nowhere gives `-1`.
proof fn lemma_tbl_key_idx_none(t: Seq<(Seq<char>, Seq<char>)>, k: Seq<char>)
    requires
        forall|m: int| 0 <= m < t.len() ==> t[m].0 != k,
    ensures
        tbl_key_idx(t, k) == -1,
    decreases t.len(),
{
    if t.len() > 0 {
        lemma_tbl_key_idx_none(t.drop_first(), k);
    }
}

/// Inserts one entry into the table, overwriting the type of an existing
/// key in place and appending a new key at the end.
fn tbl_insert_exec(t: &mut Vec<(String, String)>, k: String, v: String)
    ensures
        final(t).deep_view() == tbl_insert(old(t).deep_view(), k@, v@),
{
    let n = t.len();
    let mut j: usize = 0;
    while j < n
        invariant
            j <= n,
            n == t@.len(),
            t@ == old(t)@,
            forall|m: int| 0 <= m < j ==> t.deep_view()[m].0 != k@,
        decreases n - j,
    {
        if t[j].0 == k {
            proof {
                assert(t.deep_view()[j as int].0 == t@[j as int].0@);
                lemma_tbl_key_idx_at(t.deep_view(), k@, j as int);
            }
            t.set(j, (k, v));
            proof {
                assert(final(t).deep_view() =~~= tbl_insert(old(t).deep_view(), k@, v@));
            }
            return;
        }
        proof {
            assert(t.deep_view()[j as int].0 == t@[j as int].0@);
        }
        j = j + 1;
    }
    proof {
        lemma_tbl_key_idx_none(t.deep_view(), k@);
    }
    t.push((k, v));
    assert(final(t).deep_view() =~~= tbl_insert(old(t).deep_view(), k@, v@));
}

/// Builds the parameter type table of the whole input: for every normalized
/// line with an arrow-function signature, its `name: type` parameters, later
/// occurrences of a name overwriting earlier ones. The table is recorded
/// only; no later stage of the pipeline reads it.
pub fn param_type_table(input: &str) -> (t: Vec<(String, String)>)
    ensures
        t.deep_view() == param_table_of(input@),
{
    let v = str_to_chars(input);
    let raw = split_lines(&v);
    let mut table: Vec<(String, String)> = Vec::new();
    let mut i: usize = 0;
    while i < raw.len()
        invariant
            i <= raw@.len(),
            raw.deep_view() == split_lines_spec(input@),
            table.deep_view() =~~= table_spec(normalized_lines(input@).subrange(0, i as int)),
        decreases raw@.len() - i,
    {
        let tline = trim_chars(&raw[i]);
        let w = var_to_let_chars(&tline);
        proof {
            assert(raw.deep_view()[i as int] == raw@[i as int]@);
            assert(w@ == normalize_line(split_lines_spec(input@)[i as int]));
        }
        let params = line_params_exec(&w);
        let ghost t0 = table.deep_view();
        let np = params.len();
        let mut p: usize = 0;
        while p < np
            invariant
                p <= np,
                np == params@.len(),
                params.deep_view() == line_params(w@),
                table.deep_view() =~~= tbl_insert_all(
                    t0,
                    params.deep_view().subrange(0, p as int),
                ),
            decreases np - p,
        {
            let name = params[p].0.clone();
            let ty = params[p].1.clone();
            proof {
                let entry = params@[p as int];
                assert(params.deep_view()[p as int] == (entry.0@, entry.1@));
            }
            tbl_insert_exec(&mut table, name, ty);
            p = p + 1;
            proof {
                let pre = params.deep_view().subrange(0, p as int);
                assert(pre.drop_last() =~~= params.deep_view().subrange(0, p - 1));
                assert(pre.last() == params.deep_view()[p - 1]);
                assert(table.deep_view() =~~= tbl_insert_all(t0, pre));
            }
        }
        i = i + 1;
        proof {
            assert(params.deep_view().subrange(0, np as int) =~~= params.deep_view());
            let pre = normalized_lines(input@).subrange(0, i as int);
            assert(pre.drop_last() =~~= normalized_lines(input@).subrange(0, i - 1));
            assert(pre.last() == normalized_lines(input@)[i - 1]);
            assert(normalized_lines(input@)[i - 1] == normalize_line(
                split_lines_spec(input@)[i - 1],
            ));
            assert(table.deep_view() =~~= table_spec(pre));
        }
    }
    assert(normalized_lines(input@).subrange(0, raw@.len() as int) =~~= normalized_lines(input@));
    table
}

} // verus!
