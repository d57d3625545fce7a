//! Character-level text utilities shared by the pipeline stages: whitespace
//! trimming, line splitting and joining, literal pattern matching, and
//! global pattern replacement, each with an exact sequence-level model.

use vstd::prelude::*;

verus! {

/// Whitespace as trimming understands it: the Unicode White_Space
/// characters, the same set that `str::trim` strips.
pub open spec fn is_space_char(c: char) -> bool {
    c == ' ' || c == '\t' || c == '\r' || c == '\n' || c == '\u{b}' || c == '\u{c}' || c
        == '\u{85}' || c == '\u{a0}' || c == '\u{1680}' || ('\u{2000}' <= c && c <= '\u{200a}')
        || c == '\u{2028}' || c == '\u{2029}' || c == '\u{202f}' || c == '\u{205f}' || c
        == '\u{3000}'
}

/// `s` with leading whitespace removed.
pub open spec fn trim_start_spec(s: Seq<char>) -> Seq<char>
    decreases s.len(),
{
    if s.len() == 0 {
        s
    } else if is_space_char(s[0]) {
        trim_start_spec(s.subrange(1, s.len() as int))
    } else {
        s
    }
}

/// `s` with trailing whitespace removed.
pub open spec fn trim_end_spec(s: Seq<char>) -> Seq<char>
    decreases s.len(),
{
    if s.len() == 0 {
        s
    } else if is_space_char(s[s.len() - 1]) {
        trim_end_spec(s.subrange(0, s.len() - 1))
    } else {
        s
    }
}

/// `s` with leading and trailing whitespace removed.
pub open spec fn trim_spec(s: Seq<char>) -> Seq<char> {
    trim_end_spec(trim_start_spec(s))
}

/// The literal pattern `pat` occurs in `s` starting at index `i`.
pub open spec fn matches_at(s: Seq<char>, i: int, pat: Seq<char>) -> bool {
    &&& 0 <= i
    &&& i + pat.len() <= s.len()
    &&& s.subrange(i, i + pat.len() as int) == pat
}

/// The literal pattern `pat` occurs somewhere in `s`.
pub open spec fn contains_seq(s: Seq<char>, pat: Seq<char>) -> bool {
    exists|i: int| matches_at(s, i, pat)
}

/// `s` split at every occurrence of `sep`. The result always has one more
/// element than `s` has separators; in particular it is never empty.
pub open spec fn split_char(s: Seq<char>, sep: char) -> Seq<Seq<char>>
    decreases s.len(),
{
    if s.len() == 0 {
        seq![Seq::<char>::empty()]
    } else if s[0] == sep {
        seq![Seq::<char>::empty()] + split_char(s.subrange(1, s.len() as int), sep)
    } else {
        let rest = split_char(s.subrange(1, s.len() as int), sep);
        seq![seq![s[0]] + rest[0]] + rest.subrange(1, rest.len() as int)
    }
}

/// The lines of a text: split on `'\n'`, one optional trailing newline
/// forgiven, and the empty text having no lines at all.
pub open spec fn split_lines_spec(s: Seq<char>) -> Seq<Seq<char>> {
    if s.len() == 0 {
        Seq::<Seq<char>>::empty()
    } else if s[s.len() - 1] == '\n' {
        split_char(s.subrange(0, s.len() - 1), '\n')
    } else {
        split_char(s, '\n')
    }
}

/// The elements of `lines` joined with a single `'\n'` between neighbours.
pub open spec fn join_nl(lines: Seq<Seq<char>>) -> Seq<char>
    decreases lines.len(),
{
    if lines.len() == 0 {
        Seq::<char>::empty()
    } else if lines.len() == 1 {
        lines.last()
    } else {
        join_nl(lines.drop_last()) + seq!['\n'] + lines.last()
    }
}

/// `s` from index `i` on, with every occurrence of `pat` replaced by `rep`,
/// scanning left to right over non-overlapping matches; replaced text is not
/// rescanned.
pub open spec fn replace_all_from(s: Seq<char>, i: int, pat: Seq<char>, rep: Seq<char>) -> Seq<char>
    decreases s.len() - i,
    when 0 <= i && pat.len() >= 1
{
    if i >= s.len() {
        Seq::<char>::empty()
    } else if matches_at(s, i, pat) {
        rep + replace_all_from(s, i + pat.len() as int, pat, rep)
    } else {
        seq![s[i]] + replace_all_from(s, i + 1, pat, rep)
    }
}

/// Every occurrence of `pat` in `s` replaced by `rep`.
pub open spec fn replace_all(s: Seq<char>, pat: Seq<char>, rep: Seq<char>) -> Seq<char> {
    replace_all_from(s, 0, pat, rep)
}

/// `split_char` never returns an empty sequence of pieces.
pub proof fn lemma_split_char_nonempty(s: Seq<char>, sep: char)
    ensures
        split_char(s, sep).len() >= 1,
    decreases s.len(),
{
    if s.len() > 0 && s[0] != sep {
        lemma_split_char_nonempty(s.subrange(1, s.len() as int), sep);
    }
}

/// Characterizes `trim_start_spec` by the index of the first non-blank character.
pub proof fn lemma_trim_start_at(s: Seq<char>, a: int)
    requires
        0 <= a <= s.len(),
        forall|i: int| 0 <= i < a ==> is_space_char(s[i]),
        a == s.len() || !is_space_char(s[a]),
    ensures
        trim_start_spec(s) =~= s.subrange(a, s.len() as int),
    decreases a,
{
    if a == 0 {
        assert(trim_start_spec(s) =~= s.subrange(0, s.len() as int));
    } else {
        let t = s.subrange(1, s.len() as int);
        lemma_trim_start_at(t, a - 1);
        assert(t.subrange(a - 1, t.len() as int) =~= s.subrange(a, s.len() as int));
    }
}

/// Characterizes `trim_end_spec` by the index just past the last non-blank character.
pub proof fn lemma_trim_end_at(s: Seq<char>, b: int)
    requires
        0 <= b <= s.len(),
        forall|i: int| b <= i < s.len() ==> is_space_char(s[i]),
        b == 0 || !is_space_char(s[b - 1]),
    ensures
        trim_end_spec(s) =~= s.subrange(0, b),
    decreases s.len() - b,
{
    if b == s.len() {
        assert(trim_end_spec(s) =~= s.subrange(0, s.len() as int));
    } else {
        let t = s.subrange(0, s.len() - 1);
        lemma_trim_end_at(t, b);
        assert(t.subrange(0, b) =~= s.subrange(0, b));
    }
}

/// Whether `c` counts as whitespace for trimming.
pub fn is_space(c: char) -> (b: bool)
    ensures
        b == is_space_char(c),
{
    c == ' ' || c == '\t' || c == '\r' || c == '\n' || c == '\u{b}' || c == '\u{c}' || c
        == '\u{85}' || c == '\u{a0}' || c == '\u{1680}' || ('\u{2000}' <= c && c <= '\u{200a}')
        || c == '\u{2028}' || c == '\u{2029}' || c == '\u{202f}' || c == '\u{205f}' || c
        == '\u{3000}'
}

/// The characters of `s`, in order, as a vector.
pub fn str_to_chars(s: &str) -> (v: Vec<char>)
    ensures
        v@ == s@,
{
    let n = s.unicode_len();
    let mut v: Vec<char> = Vec::new();
    let mut i: usize = 0;
    while i < n
        invariant
            i <= n,
            n == s@.len(),
            v@ =~= s@.subrange(0, i as int),
        decreases n - i,
    {
        v.push(s.get_char(i));
        i = i + 1;
        assert(v@ =~= s@.subrange(0, i as int));
    }
    assert(s@.subrange(0, n as int) =~= s@);
    v
}

/// Relies on `String::push`: appends the given character to the end of the string.
#[verifier::external_body]
fn push_char(s: &mut String, c: char)
    ensures
        final(s)@ == old(s)@ + seq![c],
{
    s.push(c)
}

/// The characters of `v`, in order, as a string.
pub fn chars_to_string(v: &Vec<char>) -> (s: String)
    ensures
        s@ == v@,
{
    let mut s = String::new();
    let mut i: usize = 0;
    while i < v.len()
        invariant
            i <= v@.len(),
            s@ =~= v@.subrange(0, i as int),
        decreases v@.len() - i,
    {
        push_char(&mut s, v[i]);
        i = i + 1;
        assert(s@ =~= v@.subrange(0, i as int));
    }
    assert(v@.subrange(0, v@.len() as int) =~= v@);
    s
}

/// A copy of `v[a..b]`.
pub fn copy_range(v: &Vec<char>, a: usize, b: usize) -> (r: Vec<char>)
    requires
        a <= b <= v@.len(),
    ensures
        r@ == v@.subrange(a as int, b as int),
{
    let mut r: Vec<char> = Vec::new();
    let mut i: usize = a;
    while i < b
        invariant
            a <= i <= b,
            r@ =~= v@.subrange(a as int, i as int),
        decreases b - i,
    {
        r.push(v[i]);
        i = i + 1;
        assert(r@ =~= v@.subrange(a as int, i as int));
    }
    assert(r@ =~= v@.subrange(a as int, b as int));
    r
}

/// `v` with leading and trailing whitespace removed.
pub fn trim_chars(v: &Vec<char>) -> (r: Vec<char>)
    ensures
        r@ == trim_spec(v@),
{
    let n = v.len();
    let mut a: usize = 0;
    while a < n && is_space(v[a])
        invariant
            a <= n,
            forall|i: int| 0 <= i < a ==> is_space_char(v@[i]),
        decreases n - a,
    {
        a = a + 1;
    }
    if a == n {
        proof {
            lemma_trim_start_at(v@, n as int);
            lemma_trim_end_at(v@.subrange(n as int, n as int), 0);
        }
        let r: Vec<char> = Vec::new();
        assert(r@ =~= trim_spec(v@));
        r
    } else {
        let mut b: usize = n;
        while is_space(v[b - 1])
            invariant
                a < b <= n,
                !is_space_char(v@[a as int]),
                forall|i: int| b <= i < n ==> is_space_char(v@[i]),
        decreases b,
        {
            b = b - 1;
        }
        proof {
            lemma_trim_start_at(v@, a as int);
            lemma_trim_end_at(v@.subrange(a as int, n as int), b - a);
            assert(v@.subrange(a as int, n as int).subrange(0, b - a) =~= v@.subrange(
                a as int,
                b as int,
            ));
        }
        copy_range(v, a, b)
    }
}

/// Whether the characters of `pat` occur in `v` starting at index `i`.
pub fn matches_at_exec(v: &Vec<char>, i: usize, pat: &Vec<char>) -> (b: bool)
    requires
        i <= v@.len(),
    ensures
        b == matches_at(v@, i as int, pat@),
{
    let n = v.len();
    if n - i < pat.len() {
        return false;
    }
    let mut j: usize = 0;
    while j < pat.len()
        invariant
            j <= pat@.len(),
            i + pat@.len() <= v@.len(),
            forall|k: int| 0 <= k < j ==> v@[i + k] == pat@[k],
        decreases pat@.len() - j,
    {
        if v[i + j] != pat[j] {
            assert(!matches_at(v@, i as int, pat@)) by {
                if matches_at(v@, i as int, pat@) {
                    assert(v@.subrange(i as int, i + pat@.len() as int)[j as int] == v@[i + j]);
                }
            }
            return false;
        }
        j = j + 1;
    }
    assert(v@.subrange(i as int, i + pat@.len() as int) =~= pat@);
    true
}

/// Whether the characters of `pat` occur anywhere in `v`.
pub fn contains_pat(v: &Vec<char>, pat: &Vec<char>) -> (b: bool)
    requires
        pat@.len() >= 1,
    ensures
        b == contains_seq(v@, pat@),
{
    let n = v.len();
    let mut i: usize = 0;
    while i < n
        invariant
            i <= n,
            n == v@.len(),
            forall|k: int| 0 <= k < i ==> !matches_at(v@, k, pat@),
        decreases n - i,
    {
        if matches_at_exec(v, i, pat) {
            return true;
        }
        i = i + 1;
    }
    assert forall|k: int| !matches_at(v@, k, pat@) by {
        if matches_at(v@, k, pat@) {
            assert(0 <= k < n);
        }
    }
    false
}

/// `v` with every occurrence of `pat` replaced by `rep`.
pub fn replace_all_exec(v: &Vec<char>, pat: &Vec<char>, rep: &Vec<char>) -> (r: Vec<char>)
    requires
        pat@.len() >= 1,
    ensures
        r@ == replace_all(v@, pat@, rep@),
{
    let n = v.len();
    let mut r: Vec<char> = Vec::new();
    let mut i: usize = 0;
    while i < n
        invariant
            i <= n,
            n == v@.len(),
            pat@.len() >= 1,
            replace_all(v@, pat@, rep@) =~= r@ + replace_all_from(v@, i as int, pat@, rep@),
        decreases n - i,
    {
        if matches_at_exec(v, i, pat) {
            let ghost r0 = r@;
            let mut j: usize = 0;
            while j < rep.len()
                invariant
                    j <= rep@.len(),
                    r@ =~= r0 + rep@.subrange(0, j as int),
                decreases rep@.len() - j,
            {
                r.push(rep[j]);
                j = j + 1;
                assert(r@ =~= r0 + rep@.subrange(0, j as int));
            }
            assert(rep@.subrange(0, rep@.len() as int) =~= rep@);
            i = i + pat.len();
        } else {
            r.push(v[i]);
            i = i + 1;
        }
        assert(replace_all(v@, pat@, rep@) =~= r@ + replace_all_from(v@, i as int, pat@, rep@));
    }
    assert(r@ =~= replace_all(v@, pat@, rep@));
    r
}

/// `v` split at every occurrence of `sep`.
pub fn split_char_exec(v: &Vec<char>, sep: char) -> (r: Vec<Vec<char>>)
    ensures
        r.deep_view() == split_char(v@, sep),
{
    let n = v.len();
    let mut r: Vec<Vec<char>> = Vec::new();
    let mut cur: Vec<char> = Vec::new();
    let mut i: usize = 0;
    proof {
        assert(v@.subrange(0, n as int) =~= v@);
        lemma_split_char_nonempty(v@, sep);
        let sfx0 = split_char(v@, sep);
        assert(split_char(v@, sep) =~~= Seq::<Seq<char>>::empty() + seq![
            Seq::<char>::empty() + sfx0[0],
        ] + sfx0.subrange(1, sfx0.len() as int));
    }
    while i < n
        invariant
            i <= n,
            n == v@.len(),
            split_char(v@.subrange(i as int, n as int), sep).len() >= 1,
            split_char(v@, sep) =~~= r.deep_view() + seq![
                cur@ + split_char(v@.subrange(i as int, n as int), sep)[0],
            ] + split_char(v@.subrange(i as int, n as int), sep).subrange(
                1,
                split_char(v@.subrange(i as int, n as int), sep).len() as int,
            ),
        decreases n - i,
    {
        proof {
            assert(v@.subrange(i as int, n as int).subrange(
                1,
                v@.subrange(i as int, n as int).len() as int,
            ) =~= v@.subrange(i + 1, n as int));
            lemma_split_char_nonempty(v@.subrange(i + 1, n as int), sep);
        }
        let ghost sfx = split_char(v@.subrange(i as int, n as int), sep);
        let ghost sfx1 = split_char(v@.subrange(i + 1, n as int), sep);
        if v[i] == sep {
            proof {
                assert(sfx =~~= seq![Seq::<char>::empty()] + sfx1);
                assert(sfx1 =~~= seq![sfx1[0]] + sfx1.subrange(1, sfx1.len() as int));
            }
            r.push(cur);
            cur = Vec::new();
            proof {
                assert(r.deep_view() =~~= r.deep_view().subrange(0, r.deep_view().len() - 1)
                    + seq![r.deep_view().last()]);
            }
        } else {
            proof {
                assert(sfx =~~= seq![seq![v@[i as int]] + sfx1[0]] + sfx1.subrange(
                    1,
                    sfx1.len() as int,
                ));
            }
            cur.push(v[i]);
        }
        i = i + 1;
    }
    proof {
        assert(v@.subrange(n as int, n as int) =~= Seq::<char>::empty());
        assert(split_char(v@.subrange(n as int, n as int), sep) =~~= seq![Seq::<char>::empty()]);
    }
    r.push(cur);
    proof {
        assert(r.deep_view() =~~= split_char(v@, sep));
    }
    r
}

/// The lines of `v`: split on `'\n'`, one trailing newline forgiven.
pub fn split_lines(v: &Vec<char>) -> (r: Vec<Vec<char>>)
    ensures
        r.deep_view() == split_lines_spec(v@),
{
    let n = v.len();
    if n == 0 {
        let r: Vec<Vec<char>> = Vec::new();
        assert(r.deep_view() =~~= split_lines_spec(v@));
        r
    } else if v[n - 1] == '\n' {
        let w = copy_range(v, 0, n - 1);
        split_char_exec(&w, '\n')
    } else {
        assert(v@.subrange(0, n as int) =~= v@);
        let w = copy_range(v, 0, n);
        split_char_exec(&w, '\n')
    }
}

/// The elements of `lines` joined with a single `'\n'` between neighbours.
pub fn join_lines(lines: &Vec<Vec<char>>) -> (r: Vec<char>)
    ensures
        r@ == join_nl(lines.deep_view()),
{
    let n = lines.len();
    let mut r: Vec<char> = Vec::new();
    let mut i: usize = 0;
    while i < n
        invariant
            i <= n,
            n == lines@.len(),
            r@ =~= join_nl(lines.deep_view().subrange(0, i as int)),
        decreases n - i,
    {
        if i > 0 {
            r.push('\n');
        }
        let line = &lines[i];
        let mut j: usize = 0;
        while j < line.len()
            invariant
                j <= line@.len(),
                line == lines@[i as int],
                i < n,
                n == lines@.len(),
                r@ =~= (if i == 0 {
                    Seq::<char>::empty()
                } else {
                    join_nl(lines.deep_view().subrange(0, i as int)) + seq!['\n']
                }) + line@.subrange(0, j as int),
            decreases line@.len() - j,
        {
            r.push(line[j]);
            j = j + 1;
            assert(line@.subrange(0, j as int) =~= line@.subrange(0, j - 1).push(
                line@[j - 1],
            ));
        }
        i = i + 1;
        proof {
            let pre = lines.deep_view().subrange(0, i as int);
            assert(pre.drop_last() =~~= lines.deep_view().subrange(0, i - 1));
            assert(pre.last() =~= line@);
            assert(line@.subrange(0, line@.len() as int) =~= line@);
            if i - 1 == 0 {
                assert(join_nl(pre) == pre.last());
            }
        }
    }
    assert(lines.deep_view().subrange(0, n as int) =~~= lines.deep_view());
    r
}

} // verus!
