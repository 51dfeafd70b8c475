//! The per-document driver: extract the tagged code-block segments, build
//! the macro table, resolve every invocation, check the reference graph for
//! cycles, and expand the root fragment — or fail with the document's first
//! fatal condition, before any output is produced.

use vstd::prelude::*;
use crate::cycle::{check_resolved, has_cycle, resolved, topo_order};
use crate::expand::{expand, expansion_lines_of, expansion_of, root_name};
use crate::fragment::{FragmentModel, is_invocation, invoked_name};
use crate::table::{build_table, defines, lemma_table_distinct, table_of};
use crate::trusted::{chars_to_string, extract_rust_segments, rust_segments_of};

verus! {

/// A fatal condition of one document.
#[derive(Debug, PartialEq, Eq)]
pub enum TangleError {
    /// No fragment bears the reserved root sentinel.
    RootMissing,
    /// The named fragment invokes the named, undefined fragment.
    UndefinedFragment(Vec<char>, Vec<char>),
    /// The reference graph contains a cycle.
    CyclicInclusion,
}

/// The named fragment exists and one of its lines invokes the missing name.
pub open spec fn undefined_witness(t: Seq<FragmentModel>, f: Seq<char>, n: Seq<char>) -> bool {
    &&& !defines(t, n)
    &&& exists|i: int, l: int|
        0 <= i < t.len() && 0 <= l < t[i].lines.len() && #[trigger] is_invocation(t[i].lines[l])
            && t[i].name == f && invoked_name(t[i].lines[l]) == n
}

/// Tangles one document: the expansion of its root fragment, or the first
/// fatal condition in stage order — an unresolved invocation, a cyclic
/// reference graph, a missing root.
pub fn tangle_text(doc: &str) -> (r: Result<String, TangleError>)
    ensures
        ({
            let t = table_of(rust_segments_of(doc@));
            &&& (r is Ok <==> resolved(t) && !has_cycle(t) && defines(t, root_name()))
            &&& (r matches Result::Ok(out) ==> out@ == expansion_of(t) && forall|k: int|
                0 <= k < expansion_lines_of(t).len() ==> !is_invocation(
                    #[trigger] expansion_lines_of(t)[k],
                ))
            &&& (r matches Result::Err(e) ==> match e {
                TangleError::UndefinedFragment(f, n) => undefined_witness(t, f@, n@),
                TangleError::CyclicInclusion => resolved(t) && has_cycle(t),
                TangleError::RootMissing => resolved(t) && !has_cycle(t) && !defines(
                    t,
                    root_name(),
                ),
            })
        }),
{
    let ghost segs = rust_segments_of(doc@);
    let segments = extract_rust_segments(doc);
    let (table, _warnings) = build_table(&segments);
    proof {
        lemma_table_distinct(segs);
    }
    match check_resolved(&table) {
        Option::Some(w) => {
            let (f, n) = w;
            return Result::Err(TangleError::UndefinedFragment(f, n));
        },
        Option::None => {},
    }
    let ord = match topo_order(&table) {
        Option::None => {
            return Result::Err(TangleError::CyclicInclusion);
        },
        Option::Some(ord) => ord,
    };
    let mut root: Vec<char> = Vec::new();
    root.push('*');
    proof {
        assert(root@ =~= root_name());
    }
    match table.lookup_index(&root) {
        Option::None => Result::Err(TangleError::RootMissing),
        Option::Some(_) => {
            let out = expand(&table, &ord);
            Result::Ok(chars_to_string(&out))
        },
    }
}

} // verus!
