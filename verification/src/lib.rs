//! A verified source-to-source rewriter for a small JavaScript-like dialect.
//!
//! The pipeline normalizes `var` declarations to `let`, moves `hoist`-marked
//! lines to the front, rewrites the phrase `typeof null` to the string
//! literal `"null"`, and finally minifies the result by stripping comments
//! and newlines while leaving string-literal contents untouched.
#![verifier::loop_isolation(false)]

use vstd::prelude::*;

pub mod hoist;
pub mod minify;
pub mod normalize;
pub mod subst;
pub mod text;

use crate::hoist::{combined_of, process_hoist};
use crate::minify::{minify_output, minify_spec};
use crate::normalize::{normalized_lines, parse_and_check};
use crate::subst::{convert_typeof_null, subst_typeof_null};
use crate::text::{chars_to_string, join_lines, join_nl, str_to_chars};

verus! {

/// Error raised when a stage of the rewriting pipeline fails. All stages are
/// total, so no function of this crate actually produces it; it is kept so
/// that callers see the same `Result` shape at the pipeline boundary.
#[derive(Debug)]
pub struct CompilerError();

/// The whole pipeline: normalize the lines, move the hoist-marked ones to
/// the front, join everything with newlines, substitute `typeof null`, and
/// minify the result.
pub open spec fn compile_spec(input: Seq<char>) -> Seq<char> {
    minify_spec(subst_typeof_null(join_nl(combined_of(normalized_lines(input)))))
}

/// Rewrites a whole source text: `var` declarations become `let`,
/// hoist-marked lines move to the front, `typeof null` becomes `"null"`,
/// and the result is minified. Succeeds on every input.
pub fn compile_jsi_to_js(input: &str) -> (res: Result<String, CompilerError>)
    ensures
        res is Ok,
        res matches Ok(out) ==> out@ == compile_spec(input@),
{
    let parsed = match parse_and_check(input) {
        Ok(lines) => lines,
        Err(e) => {
            return Err(e);
        },
    };
    let (hoisted, non_hoisted) = process_hoist(&parsed);
    let mut combined: Vec<Vec<char>> = Vec::new();
    let mut i: usize = 0;
    while i < hoisted.len()
        invariant
            i <= hoisted@.len(),
            hoisted.deep_view() == hoist::hoisted_of(normalized_lines(input@)),
            combined.deep_view() =~~= hoisted.deep_view().subrange(0, i as int),
        decreases hoisted@.len() - i,
    {
        let w = str_to_chars(hoisted[i].as_str());
        assert(w.deep_view() =~= w@);
        combined.push(w);
        i = i + 1;
        assert(combined.deep_view() =~~= hoisted.deep_view().subrange(0, i as int));
    }
    assert(combined.deep_view() =~~= hoisted.deep_view());
    let mut j: usize = 0;
    while j < non_hoisted.len()
        invariant
            j <= non_hoisted@.len(),
            non_hoisted.deep_view() == hoist::non_hoisted_of(normalized_lines(input@)),
            combined.deep_view() =~~= hoisted.deep_view() + non_hoisted.deep_view().subrange(
                0,
                j as int,
            ),
        decreases non_hoisted@.len() - j,
    {
        let w = str_to_chars(non_hoisted[j].as_str());
        let ghost wv = w@;
        let ghost c0 = combined@;
        let ghost dv0 = combined.deep_view();
        proof {
            assert(w.deep_view() =~= wv);
            assert(wv == non_hoisted.deep_view()[j as int]);
        }
        combined.push(w);
        j = j + 1;
        proof {
            let hv = hoisted.deep_view();
            let nv = non_hoisted.deep_view();
            assert(combined@ == c0.push(w));
            assert forall|k: int| 0 <= k < dv0.len() implies combined.deep_view()[k] == dv0[k] by {
                assert(combined@[k] == c0[k]);
            }
            assert(combined.deep_view()[dv0.len() as int] =~= wv);
            assert(combined.deep_view() =~~= dv0.push(wv));
            assert(hv + nv.subrange(0, j as int) =~~= (hv + nv.subrange(0, j - 1)).push(
                nv[j - 1],
            ));
            assert(combined.deep_view() =~~= hv + nv.subrange(0, j as int));
        }
    }
    assert(combined.deep_view() =~~= combined_of(normalized_lines(input@)));
    let joined = join_lines(&combined);
    let joined_s = chars_to_string(&joined);
    let substituted = convert_typeof_null(joined_s.as_str());
    let out = minify_output(substituted.as_str());
    Ok(out)
}

} // verus!
