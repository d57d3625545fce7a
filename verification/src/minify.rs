//! The minifying scanner: a single left-to-right pass that removes comments
//! and newlines from code, copies string-literal contents verbatim, and
//! emits the keyword tokens `const`, `let` and `var` as whole units.

use vstd::prelude::*;

use crate::text::{
    chars_to_string, contains_seq, matches_at, matches_at_exec, str_to_chars,
};

verus! {

/// The lexical context of the scanner at one position of its pass.
#[derive(Clone, Copy)]
pub enum ScanState {
    /// Plain code.
    Normal,
    /// Inside a string literal; the payload is the opening delimiter.
    InString(char),
    /// Inside a `//` comment.
    InLineComment,
    /// Inside a `/* ... */` comment.
    InBlockComment,
}

/// The opener of a line comment.
pub open spec fn line_comment_open() -> Seq<char> {
    seq!['/', '/']
}

/// The opener of a block comment.
pub open spec fn block_comment_open() -> Seq<char> {
    seq!['/', '*']
}

/// The closer of a block comment.
pub open spec fn block_comment_close() -> Seq<char> {
    seq!['*', '/']
}

/// The keyword `const`.
pub open spec fn kw_const() -> Seq<char> {
    seq!['c', 'o', 'n', 's', 't']
}

/// The keyword `let`.
pub open spec fn kw_let() -> Seq<char> {
    seq!['l', 'e', 't']
}

/// The keyword `var`.
pub open spec fn kw_var() -> Seq<char> {
    seq!['v', 'a', 'r']
}

/// What the scanner emits from position `i` of `s` onward, starting in
/// state `st`. In `Normal` state it opens comments on `//` and `/*`, opens a
/// string on either quote character, copies a keyword token whole, drops
/// newlines and copies everything else; comments are dropped entirely (an
/// unterminated block comment silently swallows the rest of the input); a
/// string is copied verbatim up to the next occurrence of its delimiter.
pub open spec fn minify_from(s: Seq<char>, st: ScanState, i: int) -> Seq<char>
    decreases s.len() - i,
    when 0 <= i
{
    if i >= s.len() {
        Seq::<char>::empty()
    } else {
        match st {
            ScanState::Normal => {
                if matches_at(s, i, line_comment_open()) {
                    minify_from(s, ScanState::InLineComment, i + 2)
                } else if matches_at(s, i, block_comment_open()) {
                    minify_from(s, ScanState::InBlockComment, i + 2)
                } else if s[i] == '"' || s[i] == '\'' {
                    seq![s[i]] + minify_from(s, ScanState::InString(s[i]), i + 1)
                } else if matches_at(s, i, kw_const()) {
                    kw_const() + minify_from(s, st, i + 5)
                } else if matches_at(s, i, kw_let()) {
                    kw_let() + minify_from(s, st, i + 3)
                } else if matches_at(s, i, kw_var()) {
                    kw_var() + minify_from(s, st, i + 3)
                } else if s[i] == '\n' {
                    minify_from(s, st, i + 1)
                } else {
                    seq![s[i]] + minify_from(s, st, i + 1)
                }
            },
            ScanState::InLineComment => {
                if s[i] == '\n' {
                    minify_from(s, ScanState::Normal, i + 1)
                } else {
                    minify_from(s, st, i + 1)
                }
            },
            ScanState::InBlockComment => {
                if matches_at(s, i, block_comment_close()) {
                    minify_from(s, ScanState::Normal, i + 2)
                } else {
                    minify_from(s, st, i + 1)
                }
            },
            ScanState::InString(d) => {
                if s[i] == d {
                    seq![s[i]] + minify_from(s, ScanState::Normal, i + 1)
                } else {
                    seq![s[i]] + minify_from(s, st, i + 1)
                }
            },
        }
    }
}

/// The whole scan of `s`, from its start in plain code.
pub open spec fn minify_spec(s: Seq<char>) -> Seq<char> {
    minify_from(s, ScanState::Normal, 0)
}

/// Minifies the given text: removes comments and newlines from code regions,
/// keeps string-literal contents verbatim, and copies the keyword tokens
/// `const`, `let` and `var` whole.
pub fn minify_output(input: &str) -> (r: String)
    ensures
        r@ == minify_spec(input@),
{
    let v = str_to_chars(input);
    let out = minify_chars(&v);
    chars_to_string(&out)
}

/// `minify_output` on a character vector.
pub fn minify_chars(v: &Vec<char>) -> (r: Vec<char>)
    ensures
        r@ == minify_spec(v@),
{
    let n = v.len();
    let pat_line: Vec<char> = vec!['/', '/'];
    let pat_block: Vec<char> = vec!['/', '*'];
    let pat_close: Vec<char> = vec!['*', '/'];
    let pat_const: Vec<char> = vec!['c', 'o', 'n', 's', 't'];
    let pat_let: Vec<char> = vec!['l', 'e', 't'];
    let pat_var: Vec<char> = vec!['v', 'a', 'r'];
    proof {
        assert(pat_line@ =~= line_comment_open());
        assert(pat_block@ =~= block_comment_open());
        assert(pat_close@ =~= block_comment_close());
        assert(pat_const@ =~= kw_const());
        assert(pat_let@ =~= kw_let());
        assert(pat_var@ =~= kw_var());
    }
    let mut out: Vec<char> = Vec::new();
    let mut st = ScanState::Normal;
    let mut i: usize = 0;
    while i < n
        invariant
            i <= n,
            n == v@.len(),
            pat_line@ == line_comment_open(),
            pat_block@ == block_comment_open(),
            pat_close@ == block_comment_close(),
            pat_const@ == kw_const(),
            pat_let@ == kw_let(),
            pat_var@ == kw_var(),
            minify_spec(v@) =~= out@ + minify_from(v@, st, i as int),
        decreases n - i,
    {
        let ghost st0 = st;
        let ghost i0 = i as int;
        match st {
            ScanState::Normal => {
                if matches_at_exec(v, i, &pat_line) {
                    st = ScanState::InLineComment;
                    i = i + 2;
                } else if matches_at_exec(v, i, &pat_block) {
                    st = ScanState::InBlockComment;
                    i = i + 2;
                } else if v[i] == '"' || v[i] == '\'' {
                    out.push(v[i]);
                    st = ScanState::InString(v[i]);
                    i = i + 1;
                } else if matches_at_exec(v, i, &pat_const) {
                    out.push('c');
                    out.push('o');
                    out.push('n');
                    out.push('s');
                    out.push('t');
                    i = i + 5;
                } else if matches_at_exec(v, i, &pat_let) {
                    out.push('l');
                    out.push('e');
                    out.push('t');
                    i = i + 3;
                } else if matches_at_exec(v, i, &pat_var) {
                    out.push('v');
                    out.push('a');
                    out.push('r');
                    i = i + 3;
                } else if v[i] == '\n' {
                    i = i + 1;
                } else {
                    out.push(v[i]);
                    i = i + 1;
                }
            },
            ScanState::InLineComment => {
                if v[i] == '\n' {
                    st = ScanState::Normal;
                }
                i = i + 1;
            },
            ScanState::InBlockComment => {
                if matches_at_exec(v, i, &pat_close) {
                    st = ScanState::Normal;
                    i = i + 2;
                } else {
                    i = i + 1;
                }
            },
            ScanState::InString(d) => {
                out.push(v[i]);
                if v[i] == d {
                    st = ScanState::Normal;
                }
                i = i + 1;
            },
        }
        proof {
            assert(minify_spec(v@) =~= out@ + minify_from(v@, st, i as int)) by {
                assert(minify_from(v@, st0, i0) =~= minify_from(v@, st0, i0));
            }
        }
    }
    assert(out@ =~= minify_spec(v@));
    out
}

/// The scanner, run from position `i` of `s` in state `st`, only ever copies
/// its input: no comment opens, no newline appears in code, and every string
/// closes before the end. Only the two copying states can occur.
pub open spec fn plain_from(s: Seq<char>, st: ScanState, i: int) -> bool
    decreases s.len() - i,
    when 0 <= i
{
    if i >= s.len() {
        st is Normal
    } else {
        match st {
            ScanState::Normal => {
                if matches_at(s, i, line_comment_open()) {
                    false
                } else if matches_at(s, i, block_comment_open()) {
                    false
                } else if s[i] == '"' || s[i] == '\'' {
                    plain_from(s, ScanState::InString(s[i]), i + 1)
                } else if matches_at(s, i, kw_const()) {
                    plain_from(s, st, i + 5)
                } else if matches_at(s, i, kw_let()) {
                    plain_from(s, st, i + 3)
                } else if matches_at(s, i, kw_var()) {
                    plain_from(s, st, i + 3)
                } else if s[i] == '\n' {
                    false
                } else {
                    plain_from(s, st, i + 1)
                }
            },
            ScanState::InString(d) => {
                if s[i] == d {
                    plain_from(s, ScanState::Normal, i + 1)
                } else {
                    plain_from(s, st, i + 1)
                }
            },
            _ => false,
        }
    }
}

/// A text in minified shape: no comments, no newlines, and balanced string
/// literals. On such a text the scanner is the identity.
pub open spec fn minified_shape(s: Seq<char>) -> bool {
    plain_from(s, ScanState::Normal, 0)
}

/// On a copy-only region the scanner emits exactly the remaining text.
proof fn lemma_plain_copies(s: Seq<char>, st: ScanState, i: int)
    requires
        0 <= i <= s.len(),
        plain_from(s, st, i),
    ensures
        minify_from(s, st, i) == s.subrange(i, s.len() as int),
    decreases s.len() - i,
{
    if i >= s.len() {
        assert(s.subrange(i, s.len() as int) =~= Seq::<char>::empty());
    } else {
        match st {
            ScanState::Normal => {
                if s[i] == '"' || s[i] == '\'' {
                    lemma_plain_copies(s, ScanState::InString(s[i]), i + 1);
                    assert(seq![s[i]] + s.subrange(i + 1, s.len() as int) =~= s.subrange(
                        i,
                        s.len() as int,
                    ));
                } else if matches_at(s, i, kw_const()) {
                    lemma_plain_copies(s, st, i + 5);
                    assert(kw_const() + s.subrange(i + 5, s.len() as int) =~= s.subrange(
                        i,
                        s.len() as int,
                    ));
                } else if matches_at(s, i, kw_let()) {
                    lemma_plain_copies(s, st, i + 3);
                    assert(kw_let() + s.subrange(i + 3, s.len() as int) =~= s.subrange(
                        i,
                        s.len() as int,
                    ));
                } else if matches_at(s, i, kw_var()) {
                    lemma_plain_copies(s, st, i + 3);
                    assert(kw_var() + s.subrange(i + 3, s.len() as int) =~= s.subrange(
                        i,
                        s.len() as int,
                    ));
                } else {
                    lemma_plain_copies(s, st, i + 1);
                    assert(seq![s[i]] + s.subrange(i + 1, s.len() as int) =~= s.subrange(
                        i,
                        s.len() as int,
                    ));
                }
            },
            ScanState::InString(d) => {
                if s[i] == d {
                    lemma_plain_copies(s, ScanState::Normal, i + 1);
                } else {
                    lemma_plain_copies(s, st, i + 1);
                }
                assert(seq![s[i]] + s.subrange(i + 1, s.len() as int) =~= s.subrange(
                    i,
                    s.len() as int,
                ));
            },
            _ => {},
        }
    }
}

/// Running the scanner on a text already in minified shape — no comments, no
/// newlines, balanced strings — changes nothing.
pub proof fn lemma_minify_idempotent(s: Seq<char>)
    requires
        minified_shape(s),
    ensures
        minify_spec(s) == s,
{
    lemma_plain_copies(s, ScanState::Normal, 0);
    assert(s.subrange(0, s.len() as int) =~= s);
}

/// Inside a block comment that never closes, the scanner emits nothing.
proof fn lemma_block_comment_swallows(s: Seq<char>, i: int)
    requires
        0 <= i,
        forall|k: int| i <= k ==> !matches_at(s, k, block_comment_close()),
    ensures
        minify_from(s, ScanState::InBlockComment, i) == Seq::<char>::empty(),
    decreases s.len() - i,
{
    if i < s.len() {
        lemma_block_comment_swallows(s, i + 1);
    }
}

/// The scanner's state once its pass over `s`, started at position `i` in
/// state `st`, has consumed the whole text. The branches follow
/// `minify_from` exactly.
pub open spec fn final_state(s: Seq<char>, st: ScanState, i: int) -> ScanState
    decreases s.len() - i,
    when 0 <= i
{
    if i >= s.len() {
        st
    } else {
        match st {
            ScanState::Normal => {
                if matches_at(s, i, line_comment_open()) {
                    final_state(s, ScanState::InLineComment, i + 2)
                } else if matches_at(s, i, block_comment_open()) {
                    final_state(s, ScanState::InBlockComment, i + 2)
                } else if s[i] == '"' || s[i] == '\'' {
                    final_state(s, ScanState::InString(s[i]), i + 1)
                } else if matches_at(s, i, kw_const()) {
                    final_state(s, st, i + 5)
                } else if matches_at(s, i, kw_let()) {
                    final_state(s, st, i + 3)
                } else if matches_at(s, i, kw_var()) {
                    final_state(s, st, i + 3)
                } else {
                    final_state(s, st, i + 1)
                }
            },
            ScanState::InLineComment => {
                if s[i] == '\n' {
                    final_state(s, ScanState::Normal, i + 1)
                } else {
                    final_state(s, st, i + 1)
                }
            },
            ScanState::InBlockComment => {
                if matches_at(s, i, block_comment_close()) {
                    final_state(s, ScanState::Normal, i + 2)
                } else {
                    final_state(s, st, i + 1)
                }
            },
            ScanState::InString(d) => {
                if s[i] == d {
                    final_state(s, ScanState::Normal, i + 1)
                } else {
                    final_state(s, st, i + 1)
                }
            },
        }
    }
}

/// While the cursor is still inside `p`, the scan of `p + "/*" + q` takes
/// the same steps as the scan of `p` alone, and once `p` is exhausted the
/// never-closed comment swallows everything that remains.
#[verifier::rlimit(80)]
proof fn lemma_truncate_from(p: Seq<char>, q: Seq<char>, st: ScanState, i: int)
    requires
        0 <= i <= p.len(),
        final_state(p, st, i) is Normal,
        p.len() == 0 || p[p.len() - 1] != '/',
        forall|k: int| !matches_at(q, k, block_comment_close()),
    ensures
        minify_from(p + block_comment_open() + q, st, i) == minify_from(p, st, i),
    decreases p.len() - i,
{
    let s = p + block_comment_open() + q;
    let n = p.len() as int;
    assert(s.len() == n + 2 + q.len());
    assert(s[n] == '/');
    assert(s[n + 1] == '*');
    assert(forall|k: int| 0 <= k < n ==> s[k] == p[k]);
    if i == n {
        assert(st is Normal);
        assert(!matches_at(s, i, line_comment_open())) by {
            if matches_at(s, i, line_comment_open()) {
                assert(s.subrange(i, i + 2)[1] == s[i + 1]);
            }
        }
        assert(matches_at(s, i, block_comment_open())) by {
            assert(s.subrange(i, i + 2) =~= block_comment_open());
        }
        assert forall|k: int| i + 2 <= k implies !matches_at(s, k, block_comment_close()) by {
            if matches_at(s, k, block_comment_close()) {
                assert(s.subrange(k, k + 2)[0] == s[k]);
                assert(s.subrange(k, k + 2)[1] == s[k + 1]);
                assert(q.subrange(k - n - 2, k - n) =~= block_comment_close());
                assert(matches_at(q, k - n - 2, block_comment_close()));
            }
        }
        lemma_block_comment_swallows(s, i + 2);
    } else {
        match st {
            ScanState::Normal => {
                assert(matches_at(s, i, line_comment_open()) == matches_at(
                    p,
                    i,
                    line_comment_open(),
                )) by {
                    if i + 2 <= n {
                        assert(s.subrange(i, i + 2) =~= p.subrange(i, i + 2));
                    } else if matches_at(s, i, line_comment_open()) {
                        assert(s.subrange(i, i + 2)[0] == s[i]);
                        assert(p[n - 1] == '/');
                    }
                }
                assert(matches_at(s, i, block_comment_open()) == matches_at(
                    p,
                    i,
                    block_comment_open(),
                )) by {
                    if i + 2 <= n {
                        assert(s.subrange(i, i + 2) =~= p.subrange(i, i + 2));
                    } else if matches_at(s, i, block_comment_open()) {
                        assert(s.subrange(i, i + 2)[1] == s[i + 1]);
                    }
                }
                assert(matches_at(s, i, kw_const()) == matches_at(p, i, kw_const())) by {
                    if i + 5 <= n {
                        assert(s.subrange(i, i + 5) =~= p.subrange(i, i + 5));
                    } else if matches_at(s, i, kw_const()) {
                        assert(s.subrange(i, i + 5)[n - i] == s[n]);
                        assert(kw_const()[1] != '/' && kw_const()[2] != '/' && kw_const()[3]
                            != '/' && kw_const()[4] != '/');
                    }
                }
                assert(matches_at(s, i, kw_let()) == matches_at(p, i, kw_let())) by {
                    if i + 3 <= n {
                        assert(s.subrange(i, i + 3) =~= p.subrange(i, i + 3));
                    } else if matches_at(s, i, kw_let()) {
                        assert(s.subrange(i, i + 3)[n - i] == s[n]);
                        assert(kw_let()[1] != '/' && kw_let()[2] != '/');
                    }
                }
                assert(matches_at(s, i, kw_var()) == matches_at(p, i, kw_var())) by {
                    if i + 3 <= n {
                        assert(s.subrange(i, i + 3) =~= p.subrange(i, i + 3));
                    } else if matches_at(s, i, kw_var()) {
                        assert(s.subrange(i, i + 3)[n - i] == s[n]);
                        assert(kw_var()[1] != '/' && kw_var()[2] != '/');
                    }
                }
                if matches_at(p, i, line_comment_open()) {
                    lemma_truncate_from(p, q, ScanState::InLineComment, i + 2);
                } else if matches_at(p, i, block_comment_open()) {
                    lemma_truncate_from(p, q, ScanState::InBlockComment, i + 2);
                } else if p[i] == '"' || p[i] == '\'' {
                    lemma_truncate_from(p, q, ScanState::InString(p[i]), i + 1);
                } else if matches_at(p, i, kw_const()) {
                    lemma_truncate_from(p, q, st, i + 5);
                } else if matches_at(p, i, kw_let()) {
                    lemma_truncate_from(p, q, st, i + 3);
                } else if matches_at(p, i, kw_var()) {
                    lemma_truncate_from(p, q, st, i + 3);
                } else {
                    lemma_truncate_from(p, q, st, i + 1);
                }
            },
            ScanState::InLineComment => {
                if p[i] == '\n' {
                    lemma_truncate_from(p, q, ScanState::Normal, i + 1);
                } else {
                    lemma_truncate_from(p, q, st, i + 1);
                }
            },
            ScanState::InBlockComment => {
                assert(matches_at(s, i, block_comment_close()) == matches_at(
                    p,
                    i,
                    block_comment_close(),
                )) by {
                    if i + 2 <= n {
                        assert(s.subrange(i, i + 2) =~= p.subrange(i, i + 2));
                    } else if matches_at(s, i, block_comment_close()) {
                        // The close would straddle the boundary, so the scan
                        // of `p` alone ends still inside the comment,
                        // against the premise.
                        assert(final_state(p, st, i) == final_state(p, st, i + 1));
                        assert(false);
                    }
                }
                if matches_at(p, i, block_comment_close()) {
                    lemma_truncate_from(p, q, ScanState::Normal, i + 2);
                } else {
                    lemma_truncate_from(p, q, st, i + 1);
                }
            },
            ScanState::InString(d) => {
                if p[i] == d {
                    lemma_truncate_from(p, q, ScanState::Normal, i + 1);
                } else {
                    lemma_truncate_from(p, q, st, i + 1);
                }
            },
        }
    }
}

/// An unterminated block comment truncates the output to the prefix before
/// it: when the scan of `p` alone ends in plain code, `p` does not end with
/// a `/` (which would pair with the opener's first character into a line
/// comment instead), and nothing after the opener ever closes it, the scan
/// of the whole text emits exactly the minification of `p`.
pub proof fn lemma_unterminated_comment_truncates(p: Seq<char>, q: Seq<char>)
    requires
        final_state(p, ScanState::Normal, 0) is Normal,
        p.len() == 0 || p[p.len() - 1] != '/',
        forall|k: int| !matches_at(q, k, block_comment_close()),
    ensures
        minify_spec(p + block_comment_open() + q) == minify_spec(p),
{
    lemma_truncate_from(p, q, ScanState::Normal, 0);
}

/// An unterminated block comment is not an error: from its opener on, the
/// scanner silently consumes the whole rest of the input and emits nothing.
pub proof fn lemma_unterminated_block_comment(s: Seq<char>, i: int)
    requires
        matches_at(s, i, block_comment_open()),
        forall|k: int| i + 2 <= k ==> !matches_at(s, k, block_comment_close()),
    ensures
        minify_from(s, ScanState::Normal, i) == Seq::<char>::empty(),
{
    assert(s.subrange(i, i + 2)[1] == s[i + 1]);
    assert(s[i + 1] == '*');
    assert(!matches_at(s, i, line_comment_open())) by {
        if matches_at(s, i, line_comment_open()) {
            assert(s.subrange(i, i + 2)[1] == s[i + 1]);
        }
    }
    lemma_block_comment_swallows(s, i + 2);
}

} // verus!
