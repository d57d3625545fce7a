//! The hoist partitioner: splits a sequence of lines into those marked with
//! the `hoist` prefix — the marker deleted wherever it occurs in the line —
//! and all the others, keeping the relative order within each group.

use vstd::prelude::*;

use crate::text::{
    chars_to_string, matches_at, matches_at_exec, replace_all, replace_all_exec, str_to_chars,
    trim_chars, trim_spec,
};

verus! {

/// The hoist marker `hoist`.
pub open spec fn hoist_word() -> Seq<char> {
    seq!['h', 'o', 'i', 's', 't']
}

/// A line to be hoisted: one whose trimmed form begins with the marker.
pub open spec fn is_hoist_line(l: Seq<char>) -> bool {
    matches_at(trim_spec(l), 0, hoist_word())
}

/// What a hoisted line becomes: every occurrence of the marker deleted — not
/// only the leading one — and the remainder trimmed.
pub open spec fn hoist_strip(l: Seq<char>) -> Seq<char> {
    trim_spec(replace_all(l, hoist_word(), Seq::<char>::empty()))
}

/// The hoisted lines of `lines`, stripped, in their original order.
pub open spec fn hoisted_of(lines: Seq<Seq<char>>) -> Seq<Seq<char>>
    decreases lines.len(),
{
    if lines.len() == 0 {
        Seq::<Seq<char>>::empty()
    } else {
        let rest = hoisted_of(lines.drop_last());
        if is_hoist_line(lines.last()) {
            rest.push(hoist_strip(lines.last()))
        } else {
            rest
        }
    }
}

/// The remaining lines of `lines`, trimmed, in their original order.
pub open spec fn non_hoisted_of(lines: Seq<Seq<char>>) -> Seq<Seq<char>>
    decreases lines.len(),
{
    if lines.len() == 0 {
        Seq::<Seq<char>>::empty()
    } else {
        let rest = non_hoisted_of(lines.drop_last());
        if is_hoist_line(lines.last()) {
            rest
        } else {
            rest.push(trim_spec(lines.last()))
        }
    }
}

/// The working text after partitioning: all hoisted lines first, then all
/// the others, each group in its original order.
pub open spec fn combined_of(lines: Seq<Seq<char>>) -> Seq<Seq<char>> {
    hoisted_of(lines) + non_hoisted_of(lines)
}

/// Partitions `lines` into hoisted lines and the rest, each group in its
/// original order. A line counts as hoisted when its trimmed form begins
/// with the marker; it is emitted with the marker deleted wherever it
/// occurs and the remainder trimmed, while every other line is emitted
/// trimmed.
pub fn process_hoist(lines: &Vec<String>) -> (r: (Vec<String>, Vec<String>))
    ensures
        r.0.deep_view() == hoisted_of(lines.deep_view()),
        r.1.deep_view() == non_hoisted_of(lines.deep_view()),
{
    let pat_hoist: Vec<char> = vec!['h', 'o', 'i', 's', 't'];
    let empty_rep: Vec<char> = Vec::new();
    proof {
        assert(pat_hoist@ =~= hoist_word());
        assert(empty_rep@ =~= Seq::<char>::empty());
    }
    let n = lines.len();
    let mut hoisted: Vec<String> = Vec::new();
    let mut non_hoisted: Vec<String> = Vec::new();
    let mut i: usize = 0;
    while i < n
        invariant
            i <= n,
            n == lines@.len(),
            pat_hoist@ == hoist_word(),
            empty_rep@ == Seq::<char>::empty(),
            hoisted.deep_view() =~~= hoisted_of(lines.deep_view().subrange(0, i as int)),
            non_hoisted.deep_view() =~~= non_hoisted_of(lines.deep_view().subrange(0, i as int)),
        decreases n - i,
    {
        let li = str_to_chars(lines[i].as_str());
        assert(li@ == lines.deep_view()[i as int]);
        let lt = trim_chars(&li);
        if matches_at_exec(&lt, 0, &pat_hoist) {
            let stripped = replace_all_exec(&li, &pat_hoist, &empty_rep);
            let trimmed = trim_chars(&stripped);
            hoisted.push(chars_to_string(&trimmed));
        } else {
            non_hoisted.push(chars_to_string(&lt));
        }
        i = i + 1;
        proof {
            let pre = lines.deep_view().subrange(0, i as int);
            assert(pre.drop_last() =~~= lines.deep_view().subrange(0, i - 1));
            assert(pre.last() =~= lines.deep_view()[i - 1]);
            assert(hoisted.deep_view() =~~= hoisted_of(pre));
            assert(non_hoisted.deep_view() =~~= non_hoisted_of(pre));
        }
    }
    assert(lines.deep_view().subrange(0, n as int) =~~= lines.deep_view());
    (hoisted, non_hoisted)
}

/// Each hoisted line appears, stripped, in the hoisted group.
proof fn lemma_hoisted_member(lines: Seq<Seq<char>>, i: int)
    requires
        0 <= i < lines.len(),
        is_hoist_line(lines[i]),
    ensures
        exists|a: int| 0 <= a < hoisted_of(lines).len() && hoisted_of(lines)[a] == hoist_strip(
            lines[i],
        ),
    decreases lines.len(),
{
    if i == lines.len() - 1 {
        let a = hoisted_of(lines).len() - 1;
        assert(0 <= a < hoisted_of(lines).len() && hoisted_of(lines)[a] == hoist_strip(lines[i]));
    } else {
        lemma_hoisted_member(lines.drop_last(), i);
        let a = choose|a: int|
            0 <= a < hoisted_of(lines.drop_last()).len() && hoisted_of(lines.drop_last())[a]
                == hoist_strip(lines.drop_last()[i]);
        assert(0 <= a < hoisted_of(lines).len() && hoisted_of(lines)[a] == hoist_strip(lines[i]));
    }
}

/// Each other line appears, trimmed, in the non-hoisted group.
proof fn lemma_non_hoisted_member(lines: Seq<Seq<char>>, j: int)
    requires
        0 <= j < lines.len(),
        !is_hoist_line(lines[j]),
    ensures
        exists|b: int| 0 <= b < non_hoisted_of(lines).len() && non_hoisted_of(lines)[b]
            == trim_spec(lines[j]),
    decreases lines.len(),
{
    if j == lines.len() - 1 {
        let b = non_hoisted_of(lines).len() - 1;
        assert(0 <= b < non_hoisted_of(lines).len() && non_hoisted_of(lines)[b] == trim_spec(
            lines[j],
        ));
    } else {
        lemma_non_hoisted_member(lines.drop_last(), j);
        let b = choose|b: int|
            0 <= b < non_hoisted_of(lines.drop_last()).len() && non_hoisted_of(
                lines.drop_last(),
            )[b] == trim_spec(lines.drop_last()[j]);
        assert(0 <= b < non_hoisted_of(lines).len() && non_hoisted_of(lines)[b] == trim_spec(
            lines[j],
        ));
    }
}

/// In the combined text a hoist-marked line always stands before any line
/// that is not hoist-marked, whatever their original order was.
pub proof fn lemma_hoisted_precede_non_hoisted(lines: Seq<Seq<char>>, i: int, j: int)
    requires
        0 <= i < lines.len(),
        0 <= j < lines.len(),
        is_hoist_line(lines[i]),
        !is_hoist_line(lines[j]),
    ensures
        exists|a: int, b: int|
            0 <= a < b < combined_of(lines).len() && combined_of(lines)[a] == hoist_strip(
                lines[i],
            ) && combined_of(lines)[b] == trim_spec(lines[j]),
{
    lemma_hoisted_member(lines, i);
    lemma_non_hoisted_member(lines, j);
    let a = choose|a: int|
        0 <= a < hoisted_of(lines).len() && hoisted_of(lines)[a] == hoist_strip(lines[i]);
    let b0 = choose|b: int|
        0 <= b < non_hoisted_of(lines).len() && non_hoisted_of(lines)[b] == trim_spec(lines[j]);
    let b = hoisted_of(lines).len() + b0;
    assert(0 <= a < b < combined_of(lines).len() && combined_of(lines)[a] == hoist_strip(lines[i])
        && combined_of(lines)[b] == trim_spec(lines[j]));
}

} // verus!
