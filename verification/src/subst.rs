//! The pattern substitutor: one global, context-blind replacement of the
//! phrase `typeof null` by the string-literal token `"null"`, applied to the
//! combined working text.

use vstd::prelude::*;

use crate::text::{
    chars_to_string, contains_seq, matches_at, replace_all, replace_all_exec, replace_all_from,
    str_to_chars,
};

verus! {

/// The phrase `typeof null`.
pub open spec fn typeof_null_pat() -> Seq<char> {
    seq!['t', 'y', 'p', 'e', 'o', 'f', ' ', 'n', 'u', 'l', 'l']
}

/// The replacement token `"null"`, quotes included.
pub open spec fn null_literal() -> Seq<char> {
    seq!['"', 'n', 'u', 'l', 'l', '"']
}

/// `s` with every occurrence of `typeof null` replaced by `"null"`, with no
/// regard for context: an occurrence inside a string literal or a comment is
/// replaced like any other.
pub open spec fn subst_typeof_null(s: Seq<char>) -> Seq<char> {
    replace_all(s, typeof_null_pat(), null_literal())
}

/// Replaces every occurrence of the phrase `typeof null` in the input by the
/// token `"null"`, purely textually.
pub fn convert_typeof_null(input: &str) -> (r: String)
    ensures
        r@ == subst_typeof_null(input@),
{
    let pat: Vec<char> = vec!['t', 'y', 'p', 'e', 'o', 'f', ' ', 'n', 'u', 'l', 'l'];
    let rep: Vec<char> = vec!['"', 'n', 'u', 'l', 'l', '"'];
    proof {
        assert(pat@ =~= typeof_null_pat());
        assert(rep@ =~= null_literal());
    }
    let v = str_to_chars(input);
    let out = replace_all_exec(&v, &pat, &rep);
    chars_to_string(&out)
}

/// The first position at or after `i` where the phrase occurs; `s.len()`
/// when it occurs nowhere.
spec fn first_match_from(s: Seq<char>, i: int) -> int
    decreases s.len() - i,
    when 0 <= i
{
    if i >= s.len() {
        s.len() as int
    } else if matches_at(s, i, typeof_null_pat()) {
        i
    } else {
        first_match_from(s, i + 1)
    }
}

/// Up to its first match, the replacement copies the input; at the first
/// match it emits the opening quote of the token; with no match it is the
/// identity.
proof fn lemma_subst_prefix(s: Seq<char>, i: int)
    requires
        0 <= i <= s.len(),
    ensures
        i <= first_match_from(s, i) <= s.len(),
        replace_all_from(s, i, typeof_null_pat(), null_literal()).len() >= first_match_from(s, i)
            - i,
        forall|m: int| i <= m < first_match_from(s, i) ==> replace_all_from(
            s,
            i,
            typeof_null_pat(),
            null_literal(),
        )[m - i] == s[m],
        first_match_from(s, i) < s.len() ==> replace_all_from(
            s,
            i,
            typeof_null_pat(),
            null_literal(),
        ).len() > first_match_from(s, i) - i && replace_all_from(
            s,
            i,
            typeof_null_pat(),
            null_literal(),
        )[first_match_from(s, i) - i] == '"',
        first_match_from(s, i) == s.len() ==> replace_all_from(
            s,
            i,
            typeof_null_pat(),
            null_literal(),
        ) =~= s.subrange(i, s.len() as int),
    decreases s.len() - i,
{
    let r = replace_all_from(s, i, typeof_null_pat(), null_literal());
    if i == s.len() {
        assert(r =~= s.subrange(i, s.len() as int));
    } else if matches_at(s, i, typeof_null_pat()) {
        assert(r[0] == null_literal()[0]);
    } else {
        lemma_subst_prefix(s, i + 1);
        let r1 = replace_all_from(s, i + 1, typeof_null_pat(), null_literal());
        if first_match_from(s, i) == s.len() {
            assert(r =~= s.subrange(i, s.len() as int));
        }
    }
}

/// No character of the phrase is a double quote.
proof fn lemma_pat_has_no_quote()
    ensures
        forall|m: int| 0 <= m < 11 ==> typeof_null_pat()[m] != '"',
{
    assert forall|m: int| 0 <= m < 11 implies typeof_null_pat()[m] != '"' by {
        assert(typeof_null_pat()[0] != '"');
        assert(typeof_null_pat()[1] != '"');
        assert(typeof_null_pat()[2] != '"');
        assert(typeof_null_pat()[3] != '"');
        assert(typeof_null_pat()[4] != '"');
        assert(typeof_null_pat()[5] != '"');
        assert(typeof_null_pat()[6] != '"');
        assert(typeof_null_pat()[7] != '"');
        assert(typeof_null_pat()[8] != '"');
        assert(typeof_null_pat()[9] != '"');
        assert(typeof_null_pat()[10] != '"');
    }
}

/// After the replacement no occurrence of the phrase is left anywhere in the
/// processed region.
#[verifier::rlimit(60)]
proof fn lemma_subst_no_pat_from(s: Seq<char>, i: int)
    requires
        0 <= i <= s.len(),
    ensures
        forall|j: int| !matches_at(
            replace_all_from(s, i, typeof_null_pat(), null_literal()),
            j,
            typeof_null_pat(),
        ),
    decreases s.len() - i,
{
    let pat = typeof_null_pat();
    let rep = null_literal();
    let r = replace_all_from(s, i, pat, rep);
    lemma_pat_has_no_quote();
    if i == s.len() {
        assert forall|j: int| !matches_at(r, j, pat) by {
            if matches_at(r, j, pat) {
                assert(r.len() == 0);
            }
        }
    } else if matches_at(s, i, pat) {
        lemma_subst_no_pat_from(s, i + 11);
        let r2 = replace_all_from(s, i + 11, pat, rep);
        assert forall|j: int| !matches_at(r, j, pat) by {
            if matches_at(r, j, pat) {
                if j >= 6 {
                    assert(r.subrange(j, j + 11) =~= r2.subrange(j - 6, j + 5));
                    assert(matches_at(r2, j - 6, pat));
                } else {
                    assert(r.subrange(j, j + 11)[5 - j] == r[5]);
                    assert(r[5] == rep[5]);
                    assert(pat[5 - j] == '"');
                }
            }
        }
    } else {
        lemma_subst_no_pat_from(s, i + 1);
        lemma_subst_prefix(s, i);
        let r1 = replace_all_from(s, i + 1, pat, rep);
        let f = first_match_from(s, i);
        assert forall|j: int| !matches_at(r, j, pat) by {
            if matches_at(r, j, pat) {
                if j >= 1 {
                    assert(r.subrange(j, j + 11) =~= r1.subrange(j - 1, j + 10));
                    assert(matches_at(r1, j - 1, pat));
                } else {
                    // A match at the very front would either show the phrase
                    // in `s` itself or cross the quote that the first
                    // replacement emits.
                    if f == s.len() {
                        assert(r =~= s.subrange(i, s.len() as int));
                        assert(s.subrange(i, i + 11) =~= r.subrange(0, 11));
                        assert(matches_at(s, i, pat));
                    } else if f - i >= 11 {
                        assert forall|m: int| i <= m < i + 11 implies s[m] == r.subrange(
                            0,
                            11,
                        )[m - i] by {
                            assert(r[m - i] == s[m]);
                        }
                        assert(s.subrange(i, i + 11) =~= r.subrange(0, 11));
                        assert(matches_at(s, i, pat));
                    } else {
                        assert(f - i >= 1);
                        assert(r[f - i] == '"');
                        assert(r.subrange(j, j + 11)[f - i] == r[f - i]);
                        assert(pat[f - i] == '"');
                    }
                }
            }
        }
    }
}

/// Every occurrence of `typeof null` is rewritten: none survives the
/// substitution, wherever in the text it stood.
pub proof fn lemma_no_typeof_null_remains(s: Seq<char>)
    ensures
        forall|j: int| !matches_at(subst_typeof_null(s), j, typeof_null_pat()),
{
    lemma_subst_no_pat_from(s, 0);
}

/// A text without the phrase passes through the substitution unchanged.
pub proof fn lemma_subst_noop(s: Seq<char>)
    requires
        !contains_seq(s, typeof_null_pat()),
    ensures
        subst_typeof_null(s) == s,
{
    assert(first_match_from(s, 0) == s.len()) by {
        lemma_first_match_absent(s, 0);
    }
    lemma_subst_prefix(s, 0);
    assert(s.subrange(0, s.len() as int) =~= s);
}

/// Without any occurrence the scan never finds a first one.
proof fn lemma_first_match_absent(s: Seq<char>, i: int)
    requires
        0 <= i <= s.len(),
        forall|k: int| !matches_at(s, k, typeof_null_pat()),
    ensures
        first_match_from(s, i) == s.len(),
    decreases s.len() - i,
{
    if i < s.len() {
        lemma_first_match_absent(s, i + 1);
    }
}

} // verus!
