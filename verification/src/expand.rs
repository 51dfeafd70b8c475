//! The expander: starting from the root fragment, every invocation-marker
//! line is replaced by the invoked fragment's body, each of its lines
//! prefixed with one four-space unit per unit of the marker's leading
//! indentation (integer division by four, a documented rounding quirk), and
//! the spliced body is expanded in turn.  The order produced by the cycle
//! check certifies that this recursion terminates.

use vstd::prelude::*;
use crate::fragment::{FragmentModel, is_invocation, invoked_name, parse_invocation};
use crate::table::{MacroTable, defines, distinct_names, index_of, lemma_index_of,
    lemma_index_unique};
use crate::cycle::{invokes, resolved, valid_order};
use crate::text::{dv, leading_spaces, spaces, subvec, unlines};
use crate::indent::{lemma_spaces_snoc, lemma_unlines_snoc};

verus! {

/// The reserved sentinel naming the root fragment.
pub open spec fn root_name() -> Seq<char> {
    seq!['*']
}

/// Every invocation among `ls` resolves, to a fragment strictly below `hi`
/// in the order.
pub open spec fn lines_ok(
    t: Seq<FragmentModel>,
    ord: Seq<usize>,
    ls: Seq<Seq<char>>,
    hi: int,
) -> bool {
    forall|k: int|
        0 <= k < ls.len() && #[trigger] is_invocation(ls[k]) ==> {
            &&& defines(t, invoked_name(ls[k]))
            &&& ord[index_of(t, invoked_name(ls[k]))] < hi
        }
}

/// The table and order admit expansion: names are distinct and every body's
/// invocations descend.
pub open spec fn expand_ok(t: Seq<FragmentModel>, ord: Seq<usize>) -> bool {
    &&& distinct_names(t)
    &&& ord.len() == t.len()
    &&& forall|i: int| 0 <= i < t.len() ==> lines_ok(t, ord, #[trigger] t[i].lines, ord[i] as int)
}

/// What the cycle check certifies is exactly what expansion needs.
pub proof fn lemma_expand_ok(t: Seq<FragmentModel>, ord: Seq<usize>)
    requires
        resolved(t),
        distinct_names(t),
        valid_order(t, ord),
    ensures
        expand_ok(t, ord),
{
    assert forall|i: int| 0 <= i < t.len() implies lines_ok(
        t,
        ord,
        #[trigger] t[i].lines,
        ord[i] as int,
    ) by {
        assert forall|k: int|
            0 <= k < t[i].lines.len() && #[trigger] is_invocation(t[i].lines[k]) implies {
            &&& defines(t, invoked_name(t[i].lines[k]))
            &&& ord[index_of(t, invoked_name(t[i].lines[k]))] < ord[i] as int
        } by {
            let nm = invoked_name(t[i].lines[k]);
            assert(defines(t, nm));
            lemma_index_of(t, nm);
            let j = index_of(t, nm);
            assert(invokes(t, i, j));
        }
    }
}

/// The expansion of the lines of fragment `i` from position `m` on, under
/// `ind` accumulated indentation units: a plain line gains the accumulated
/// prefix; an invocation line is replaced by the invoked fragment's
/// expansion, with the marker's own leading spaces added (divided by the
/// four-character unit, remainder dropped).
pub open spec fn expand_from(
    t: Seq<FragmentModel>,
    ord: Seq<usize>,
    ls: Seq<Seq<char>>,
    hi: int,
    ind: nat,
    m: int,
) -> Seq<Seq<char>>
    decreases hi, ls.len() - m,
    when expand_ok(t, ord) && lines_ok(t, ord, ls, hi) && 0 <= m && 0 <= hi
{
    if m >= ls.len() {
        Seq::empty()
    } else {
        let head = if is_invocation(ls[m]) {
            expand_frag(
                t,
                ord,
                index_of(t, invoked_name(ls[m])),
                ind + leading_spaces(ls[m]) / 4,
            )
        } else {
            seq![spaces(4 * ind) + ls[m]]
        };
        head + expand_from(t, ord, ls, hi, ind, m + 1)
    }
}

/// The full expansion of fragment `i` under `ind` accumulated units.
pub open spec fn expand_frag(t: Seq<FragmentModel>, ord: Seq<usize>, i: int, ind: nat) -> Seq<
    Seq<char>,
>
    decreases ord[i], t[i].lines.len() + 1,
    when expand_ok(t, ord) && 0 <= i < t.len()
{
    expand_from(t, ord, t[i].lines, ord[i] as int, ind, 0)
}

/// The expansion does not depend on which descending order certified it.
pub proof fn lemma_expand_any_order(
    t: Seq<FragmentModel>,
    o1: Seq<usize>,
    o2: Seq<usize>,
    i: int,
    ind: nat,
)
    requires
        expand_ok(t, o1),
        expand_ok(t, o2),
        0 <= i < t.len(),
    ensures
        expand_frag(t, o1, i, ind) == expand_frag(t, o2, i, ind),
    decreases o1[i], t[i].lines.len() + 1,
{
    lemma_expand_any_order_from(t, o1, o2, t[i].lines, o1[i] as int, o2[i] as int, ind, 0);
}

proof fn lemma_expand_any_order_from(
    t: Seq<FragmentModel>,
    o1: Seq<usize>,
    o2: Seq<usize>,
    ls: Seq<Seq<char>>,
    hi1: int,
    hi2: int,
    ind: nat,
    m: int,
)
    requires
        expand_ok(t, o1),
        expand_ok(t, o2),
        lines_ok(t, o1, ls, hi1),
        lines_ok(t, o2, ls, hi2),
        0 <= m,
        0 <= hi1,
        0 <= hi2,
    ensures
        expand_from(t, o1, ls, hi1, ind, m) == expand_from(t, o2, ls, hi2, ind, m),
    decreases hi1, ls.len() - m,
{
    if m < ls.len() {
        if is_invocation(ls[m]) {
            let j = index_of(t, invoked_name(ls[m]));
            lemma_index_of(t, invoked_name(ls[m]));
            lemma_expand_any_order(t, o1, o2, j, ind + leading_spaces(ls[m]) / 4);
        }
        lemma_expand_any_order_from(t, o1, o2, ls, hi1, hi2, ind, m + 1);
    }
}

/// The expansion that a document's table determines, independent of the
/// particular certifying order; defined for tables some descending order
/// certifies, that is, for acyclic reference graphs.
pub open spec fn expansion_lines_of(t: Seq<FragmentModel>) -> Seq<Seq<char>> {
    expand_frag(
        t,
        choose|ord: Seq<usize>| valid_order(t, ord) && expand_ok(t, ord),
        index_of(t, root_name()),
        0,
    )
}

/// The expanded output text: the expansion's lines, each closed by one
/// newline.
pub open spec fn expansion_of(t: Seq<FragmentModel>) -> Seq<char> {
    unlines(expansion_lines_of(t))
}

// ---------------------------------------------------------------------------
// Properties of the expansion.
// ---------------------------------------------------------------------------

proof fn lemma_spaces_len(n: nat)
    ensures
        spaces(n).len() == n,
    decreases n,
{
    if n > 0 {
        lemma_spaces_len((n - 1) as nat);
    }
}

proof fn lemma_spaces_shift(l: Seq<char>, n: nat)
    ensures
        leading_spaces(spaces(n) + l) == n + leading_spaces(l),
    decreases n,
{
    lemma_spaces_len(n);
    if n == 0 {
        assert(spaces(0) + l =~= l);
    } else {
        lemma_spaces_shift(l, (n - 1) as nat);
        assert((spaces(n) + l).len() > 0);
        assert((spaces(n) + l)[0] == ' ');
        assert((spaces(n) + l).drop_first() =~= spaces((n - 1) as nat) + l);
    }
}

/// Prefixing a line with spaces neither makes nor unmakes an invocation
/// marker, and keeps the invoked name.
proof fn lemma_indent_invocation(l: Seq<char>, n: nat)
    ensures
        is_invocation(spaces(n) + l) == is_invocation(l),
{
    let w = spaces(n) + l;
    lemma_spaces_len(n);
    lemma_spaces_shift(l, n);
    crate::text::lemma_leading_spaces(l);
    let sp = leading_spaces(l) as int;
    assert(w.len() == n + l.len());
    assert(forall|i: int| 0 <= i < l.len() ==> w[n + i] == l[i]);
    if sp + 2 <= l.len() {
        assert(w.subrange(n + sp + 2, w.len() as int) =~= l.subrange(sp + 2, l.len() as int));
    }
}

/// No line of an expansion is itself an invocation marker: the output is
/// flat.
pub proof fn lemma_expand_flat(t: Seq<FragmentModel>, ord: Seq<usize>, i: int, ind: nat)
    requires
        expand_ok(t, ord),
        0 <= i < t.len(),
    ensures
        forall|k: int|
            0 <= k < expand_frag(t, ord, i, ind).len() ==> !is_invocation(
                #[trigger] expand_frag(t, ord, i, ind)[k],
            ),
    decreases ord[i], t[i].lines.len() + 1,
{
    assert(lines_ok(t, ord, t[i].lines, ord[i] as int));
    lemma_expand_flat_from(t, ord, t[i].lines, ord[i] as int, ind, 0);
    assert(expand_frag(t, ord, i, ind) == expand_from(t, ord, t[i].lines, ord[i] as int, ind, 0));
}

proof fn lemma_expand_flat_from(
    t: Seq<FragmentModel>,
    ord: Seq<usize>,
    ls: Seq<Seq<char>>,
    hi: int,
    ind: nat,
    m: int,
)
    requires
        expand_ok(t, ord),
        lines_ok(t, ord, ls, hi),
        0 <= m,
        0 <= hi,
    ensures
        forall|k: int|
            0 <= k < expand_from(t, ord, ls, hi, ind, m).len() ==> !is_invocation(
                #[trigger] expand_from(t, ord, ls, hi, ind, m)[k],
            ),
    decreases hi, ls.len() - m,
{
    if m < ls.len() {
        lemma_expand_flat_from(t, ord, ls, hi, ind, m + 1);
        let rest = expand_from(t, ord, ls, hi, ind, m + 1);
        let head = if is_invocation(ls[m]) {
            let j = index_of(t, invoked_name(ls[m]));
            lemma_index_of(t, invoked_name(ls[m]));
            lemma_expand_flat(t, ord, j, ind + leading_spaces(ls[m]) / 4);
            expand_frag(t, ord, j, ind + leading_spaces(ls[m]) / 4)
        } else {
            lemma_indent_invocation(ls[m], 4 * ind);
            seq![spaces(4 * ind) + ls[m]]
        };
        assert(expand_from(t, ord, ls, hi, ind, m) == head + rest);
        assert forall|k: int|
            0 <= k < expand_from(t, ord, ls, hi, ind, m).len() implies !is_invocation(
            #[trigger] expand_from(t, ord, ls, hi, ind, m)[k],
        ) by {
            if k < head.len() {
                assert(expand_from(t, ord, ls, hi, ind, m)[k] == head[k]);
            } else {
                assert(expand_from(t, ord, ls, hi, ind, m)[k] == rest[k - head.len()]);
            }
        }
    }
}

/// Indentation accumulates monotonically: every line of a fragment expanded
/// under `ind` units carries at least `4 * ind` leading spaces, transitively
/// through nested invocations.
pub proof fn lemma_expand_indent(t: Seq<FragmentModel>, ord: Seq<usize>, i: int, ind: nat)
    requires
        expand_ok(t, ord),
        0 <= i < t.len(),
    ensures
        forall|k: int|
            0 <= k < expand_frag(t, ord, i, ind).len() ==> leading_spaces(
                #[trigger] expand_frag(t, ord, i, ind)[k],
            ) >= 4 * ind,
    decreases ord[i], t[i].lines.len() + 1,
{
    assert(lines_ok(t, ord, t[i].lines, ord[i] as int));
    lemma_expand_indent_from(t, ord, t[i].lines, ord[i] as int, ind, 0);
    assert(expand_frag(t, ord, i, ind) == expand_from(t, ord, t[i].lines, ord[i] as int, ind, 0));
}

proof fn lemma_expand_indent_from(
    t: Seq<FragmentModel>,
    ord: Seq<usize>,
    ls: Seq<Seq<char>>,
    hi: int,
    ind: nat,
    m: int,
)
    requires
        expand_ok(t, ord),
        lines_ok(t, ord, ls, hi),
        0 <= m,
        0 <= hi,
    ensures
        forall|k: int|
            0 <= k < expand_from(t, ord, ls, hi, ind, m).len() ==> leading_spaces(
                #[trigger] expand_from(t, ord, ls, hi, ind, m)[k],
            ) >= 4 * ind,
    decreases hi, ls.len() - m,
{
    if m < ls.len() {
        lemma_expand_indent_from(t, ord, ls, hi, ind, m + 1);
        let rest = expand_from(t, ord, ls, hi, ind, m + 1);
        let head = if is_invocation(ls[m]) {
            let j = index_of(t, invoked_name(ls[m]));
            lemma_index_of(t, invoked_name(ls[m]));
            lemma_expand_indent(t, ord, j, ind + leading_spaces(ls[m]) / 4);
            expand_frag(t, ord, j, ind + leading_spaces(ls[m]) / 4)
        } else {
            lemma_spaces_shift(ls[m], 4 * ind);
            seq![spaces(4 * ind) + ls[m]]
        };
        assert(expand_from(t, ord, ls, hi, ind, m) == head + rest);
        assert forall|k: int|
            0 <= k < expand_from(t, ord, ls, hi, ind, m).len() implies leading_spaces(
            #[trigger] expand_from(t, ord, ls, hi, ind, m)[k],
        ) >= 4 * ind by {
            if k < head.len() {
                assert(expand_from(t, ord, ls, hi, ind, m)[k] == head[k]);
                if is_invocation(ls[m]) {
                    assert(leading_spaces(head[k]) >= 4 * (ind + leading_spaces(ls[m]) / 4));
                }
            } else {
                assert(expand_from(t, ord, ls, hi, ind, m)[k] == rest[k - head.len()]);
            }
        }
    }
}

// ---------------------------------------------------------------------------
// The executable expander.
// ---------------------------------------------------------------------------

/// Joins lines into the output text, one newline after each line.
pub fn join_lines(lines: &Vec<Vec<char>>) -> (r: Vec<char>)
    ensures
        r@ == unlines(dv(lines@)),
{
    let mut r: Vec<char> = Vec::new();
    let mut m: usize = 0;
    proof {
        assert(dv(lines@).subrange(0, 0) =~= Seq::<Seq<char>>::empty());
    }
    while m < lines.len()
        invariant
            m <= lines@.len(),
            r@ == unlines(dv(lines@).subrange(0, m as int)),
        decreases lines@.len() - m,
    {
        let mut piece = subvec(&lines[m], 0, lines[m].len());
        proof {
            assert(piece@ =~= dv(lines@)[m as int]);
        }
        r.append(&mut piece);
        r.push('\n');
        proof {
            lemma_unlines_snoc(dv(lines@).subrange(0, m as int), dv(lines@)[m as int]);
            assert(dv(lines@).subrange(0, m + 1) =~= dv(lines@).subrange(0, m as int).push(
                dv(lines@)[m as int],
            ));
            assert(r@ =~= unlines(dv(lines@).subrange(0, m + 1)));
        }
        m = m + 1;
    }
    proof {
        assert(dv(lines@).subrange(0, dv(lines@).len() as int) =~= dv(lines@));
    }
    r
}

fn expand_at(
    t: &MacroTable,
    ord: &Vec<usize>,
    i: usize,
    prefix: &Vec<char>,
    Ghost(ind): Ghost<nat>,
) -> (out: Vec<Vec<char>>)
    requires
        expand_ok(t.model(), ord@),
        i < t.frags@.len(),
        prefix@ == spaces(4 * ind),
    ensures
        dv(out@) == expand_frag(t.model(), ord@, i as int, ind),
    decreases ord@[i as int],
{
    let ghost tm = t.model();
    let ghost ls = tm[i as int].lines;
    let ghost hi = ord@[i as int] as int;
    let mut out: Vec<Vec<char>> = Vec::new();
    let nlines = t.frags[i].lines.len();
    let mut m: usize = 0;
    proof {
        assert(lines_ok(tm, ord@, ls, hi));
        assert(dv(out@) =~= Seq::<Seq<char>>::empty());
    }
    while m < nlines
        invariant
            expand_ok(tm, ord@),
            tm == t.model(),
            ls == tm[i as int].lines,
            hi == ord@[i as int] as int,
            i < t.frags@.len(),
            prefix@ == spaces(4 * ind),
            nlines == ls.len(),
            m <= nlines,
            lines_ok(tm, ord@, ls, hi),
            dv(out@) + expand_from(tm, ord@, ls, hi, ind, m as int) == expand_frag(
                tm,
                ord@,
                i as int,
                ind,
            ),
        decreases nlines - m,
    {
        match parse_invocation(&t.frags[i].lines[m]) {
            Option::Some(pr) => {
                let (sp, nm) = pr;
                proof {
                    assert(is_invocation(ls[m as int]));
                    assert(nm@ == invoked_name(ls[m as int]));
                }
                let j = match t.lookup_index(&nm) {
                    Option::Some(j) => j,
                    Option::None => {
                        proof {
                            assert(defines(tm, invoked_name(ls[m as int])));
                            assert(false);
                        }
                        return out;
                    },
                };
                proof {
                    lemma_index_unique(tm, j as int);
                    assert(index_of(tm, invoked_name(ls[m as int])) == j);
                    assert(ord@[j as int] < hi);
                }
                let mut cp = subvec(prefix, 0, prefix.len());
                proof {
                    assert(prefix@.subrange(0, prefix@.len() as int) =~= prefix@);
                }
                let units = sp / 4;
                let mut q: usize = 0;
                #[verifier::loop_isolation(false)]
                while q < units
                    invariant
                        q <= units,
                        cp@ == spaces(4 * (ind + q as nat)),
                    decreases units - q,
                {
                    proof {
                        lemma_spaces_snoc(4 * (ind + q as nat));
                        lemma_spaces_snoc(4 * (ind + q as nat) + 1);
                        lemma_spaces_snoc(4 * (ind + q as nat) + 2);
                        lemma_spaces_snoc(4 * (ind + q as nat) + 3);
                    }
                    cp.push(' ');
                    cp.push(' ');
                    cp.push(' ');
                    cp.push(' ');
                    q = q + 1;
                }
                proof {
                    assert(sp == leading_spaces(ls[m as int]));
                    assert(ind + units as nat == ind + leading_spaces(ls[m as int]) / 4);
                }
                let mut sub = expand_at(t, ord, j, &cp, Ghost(ind + units as nat));
                let ghost pdv = dv(out@);
                let ghost subdv = dv(sub@);
                out.append(&mut sub);
                proof {
                    assert(dv(out@) =~= pdv + subdv);
                    assert(expand_from(tm, ord@, ls, hi, ind, m as int) == subdv + expand_from(
                        tm,
                        ord@,
                        ls,
                        hi,
                        ind,
                        m + 1,
                    ));
                    assert(dv(out@) + expand_from(tm, ord@, ls, hi, ind, m + 1) =~= pdv
                        + expand_from(tm, ord@, ls, hi, ind, m as int));
                }
            },
            Option::None => {
                proof {
                    assert(!is_invocation(ls[m as int]));
                }
                let mut nl2 = subvec(prefix, 0, prefix.len());
                let mut piece = subvec(&t.frags[i].lines[m], 0, t.frags[i].lines[m].len());
                proof {
                    assert(prefix@.subrange(0, prefix@.len() as int) =~= prefix@);
                    assert(piece@ =~= ls[m as int]);
                }
                nl2.append(&mut piece);
                let ghost pdv = dv(out@);
                out.push(nl2);
                proof {
                    assert(nl2@ == spaces(4 * ind) + ls[m as int]);
                    assert(dv(out@) =~= pdv.push(nl2@));
                    assert(expand_from(tm, ord@, ls, hi, ind, m as int) == seq![
                        spaces(4 * ind) + ls[m as int],
                    ] + expand_from(tm, ord@, ls, hi, ind, m + 1));
                    assert(dv(out@) + expand_from(tm, ord@, ls, hi, ind, m + 1) =~= pdv
                        + expand_from(tm, ord@, ls, hi, ind, m as int));
                }
            },
        }
        m = m + 1;
    }
    proof {
        assert(expand_from(tm, ord@, ls, hi, ind, nlines as int) =~= Seq::<Seq<char>>::empty());
        assert(dv(out@) =~= expand_frag(tm, ord@, i as int, ind));
    }
    out
}

/// Expands the root fragment under the certifying order into the flat
/// output text.
pub fn expand(t: &MacroTable, ord: &Vec<usize>) -> (r: Vec<char>)
    requires
        resolved(t.model()),
        distinct_names(t.model()),
        valid_order(t.model(), ord@),
        defines(t.model(), root_name()),
    ensures
        r@ == expansion_of(t.model()),
        forall|k: int|
            0 <= k < expansion_lines_of(t.model()).len() ==> !is_invocation(
                #[trigger] expansion_lines_of(t.model())[k],
            ),
{
    let ghost tm = t.model();
    proof {
        lemma_expand_ok(tm, ord@);
    }
    let mut root: Vec<char> = Vec::new();
    root.push('*');
    proof {
        assert(root@ =~= root_name());
    }
    let ri = match t.lookup_index(&root) {
        Option::Some(ri) => ri,
        Option::None => {
            proof {
                assert(false);
            }
            return Vec::new();
        },
    };
    proof {
        lemma_index_unique(tm, ri as int);
        assert(index_of(tm, root_name()) == ri);
    }
    let empty_prefix: Vec<char> = Vec::new();
    proof {
        assert(empty_prefix@ =~= spaces(0));
    }
    let lines = expand_at(t, ord, ri, &empty_prefix, Ghost(0nat));
    proof {
        let oc = choose|o: Seq<usize>| valid_order(tm, o) && expand_ok(tm, o);
        assert(valid_order(tm, ord@) && expand_ok(tm, ord@));
        lemma_expand_any_order(tm, ord@, oc, ri as int, 0);
        lemma_expand_flat(tm, ord@, ri as int, 0);
    }
    join_lines(&lines)
}

/// Redefining a name changes nothing: a segment whose header bears an
/// already-bound name leaves the table, and so the expansion output,
/// exactly as if the segment had been omitted.
pub proof fn lemma_redefinition_ignored(segs: Seq<Seq<char>>, d: Seq<char>)
    requires
        crate::fragment::parse_fragment(d) matches Option::Some(f) && defines(
            crate::table::table_of(segs),
            f.name,
        ),
    ensures
        crate::table::table_of(segs.push(d)) == crate::table::table_of(segs),
        expansion_of(crate::table::table_of(segs.push(d))) == expansion_of(
            crate::table::table_of(segs),
        ),
{
    assert(segs.push(d).drop_last() =~= segs);
    assert(segs.push(d).last() == d);
}

} // verus!
