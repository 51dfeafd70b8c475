//! The reference graph between fragments and its cycle check: a fragment
//! invokes another when a line of its body is an invocation marker naming it.
//! The checker either produces an order witnessing acyclicity — every
//! invocation steps strictly downward — or reports a cycle.

use vstd::prelude::*;
use crate::fragment::{FragmentModel, is_invocation, invoked_name, parse_invocation};
use crate::table::{MacroTable, defines, distinct_names, index_of, lemma_index_unique};
use crate::text::subvec;
use vstd::set_lib::{lemma_len_subset, lemma_int_range, set_int_range};

verus! {

/// Fragment `i` invokes fragment `j`: some line of `i`'s body is an
/// invocation marker bearing `j`'s name.
pub open spec fn invokes(t: Seq<FragmentModel>, i: int, j: int) -> bool {
    &&& 0 <= i < t.len()
    &&& 0 <= j < t.len()
    &&& exists|l: int|
        0 <= l < t[i].lines.len() && #[trigger] is_invocation(t[i].lines[l]) && t[j].name
            == invoked_name(t[i].lines[l])
}

/// Every invocation in every body names a fragment the table defines.
pub open spec fn resolved(t: Seq<FragmentModel>) -> bool {
    forall|i: int, l: int|
        0 <= i < t.len() && 0 <= l < t[i].lines.len() && #[trigger] is_invocation(t[i].lines[l])
            ==> defines(t, invoked_name(t[i].lines[l]))
}

/// An order on the fragments under which every invocation strictly
/// descends: the certificate that expansion terminates.
pub open spec fn valid_order(t: Seq<FragmentModel>, ord: Seq<usize>) -> bool {
    &&& ord.len() == t.len()
    &&& forall|i: int, j: int| #[trigger] invokes(t, i, j) ==> ord[j] < ord[i]
}

/// A closed walk along invocations.
pub open spec fn is_cycle(t: Seq<FragmentModel>, p: Seq<int>) -> bool {
    &&& p.len() >= 2
    &&& p[0] == p[p.len() - 1]
    &&& forall|k: int, k2: int|
        0 <= k < p.len() - 1 && k2 == k + 1 ==> #[trigger] invokes(t, p[k], p[k2])
}

pub open spec fn has_cycle(t: Seq<FragmentModel>) -> bool {
    exists|p: Seq<int>| is_cycle(t, p)
}

proof fn lemma_path_descent(t: Seq<FragmentModel>, ord: Seq<usize>, p: Seq<int>)
    requires
        valid_order(t, ord),
        p.len() >= 2,
        forall|k: int, k2: int|
            0 <= k < p.len() - 1 && k2 == k + 1 ==> #[trigger] invokes(t, p[k], p[k2]),
    ensures
        ord[p[p.len() - 1]] < ord[p[0]],
    decreases p.len(),
{
    assert(invokes(t, p[0], p[1]));
    if p.len() > 2 {
        let q = p.drop_first();
        assert(forall|k: int| 0 <= k < q.len() ==> q[k] == p[k + 1]);
        lemma_path_descent(t, ord, q);
    }
}

/// An order under which invocations descend leaves no room for a cycle.
pub proof fn lemma_order_acyclic(t: Seq<FragmentModel>, ord: Seq<usize>)
    requires
        valid_order(t, ord),
    ensures
        !has_cycle(t),
{
    if has_cycle(t) {
        let p = choose|p: Seq<int>| is_cycle(t, p);
        lemma_path_descent(t, ord, p);
    }
}

#[verifier::rlimit(60)]
proof fn lemma_walk(t: Seq<FragmentModel>, s: Set<int>, u: int, len: nat) -> (w: Seq<int>)
    requires
        s.contains(u),
        forall|x: int| #[trigger] s.contains(x) ==> exists|y: int| s.contains(y) && invokes(t, x, y),
    ensures
        w.len() == len + 1,
        w[0] == u,
        forall|k: int, k2: int| 0 <= k < len && k2 == k + 1 ==> #[trigger] invokes(t, w[k], w[k2]),
        forall|k: int| 0 <= k <= len ==> s.contains(#[trigger] w[k]),
    decreases len,
{
    if len == 0 {
        seq![u]
    } else {
        let v = choose|y: int| s.contains(y) && invokes(t, u, y);
        let rest = lemma_walk(t, s, v, (len - 1) as nat);
        let w = seq![u] + rest;
        assert(forall|k: int| 1 <= k <= len ==> w[k] == rest[k - 1]);
        assert(invokes(t, w[0], w[1]));
        w
    }
}

proof fn lemma_pigeon(w: Seq<int>, s: Set<int>)
    requires
        s.finite(),
        w.len() > s.len(),
        forall|k: int| 0 <= k < w.len() ==> s.contains(#[trigger] w[k]),
    ensures
        exists|i: int, j: int| 0 <= i < j < w.len() && w[i] == w[j],
{
    broadcast use vstd::seq_lib::group_seq_properties;

    if w.no_duplicates() {
        w.unique_seq_to_set();
        assert forall|x: int| w.to_set().contains(x) implies s.contains(x) by {
            let k = choose|k: int| 0 <= k < w.len() && w[k] == x;
        }
        lemma_len_subset(w.to_set(), s);
        assert(false);
    } else {
        let (i, j) = choose|i: int, j: int|
            0 <= i < w.len() && 0 <= j < w.len() && i != j && w[i] == w[j];
        if i < j {
            assert(0 <= i < j < w.len() && w[i] == w[j]);
        } else {
            assert(0 <= j < i < w.len() && w[j] == w[i]);
        }
    }
}

proof fn lemma_cut_cycle(t: Seq<FragmentModel>, w: Seq<int>, i: int, j: int)
    requires
        0 <= i < j < w.len(),
        w[i] == w[j],
        forall|k: int, k2: int|
            0 <= k < w.len() - 1 && k2 == k + 1 ==> #[trigger] invokes(t, w[k], w[k2]),
    ensures
        has_cycle(t),
{
    let p = w.subrange(i, j + 1);
    assert(p.len() == j - i + 1);
    assert(p[0] == w[i] && p[p.len() - 1] == w[j]);
    assert forall|k: int, k2: int|
        0 <= k < p.len() - 1 && k2 == k + 1 implies #[trigger] invokes(t, p[k], p[k2]) by {
        assert(p[k] == w[i + k]);
        assert(p[k2] == w[i + k + 1]);
        assert(invokes(t, w[i + k], w[i + k + 1]));
    }
    assert(is_cycle(t, p));
}

proof fn lemma_repeat_cycle(t: Seq<FragmentModel>, w: Seq<int>, s: Set<int>)
    requires
        s.finite(),
        w.len() > s.len(),
        forall|k: int| 0 <= k < w.len() ==> s.contains(#[trigger] w[k]),
        forall|k: int, k2: int|
            0 <= k < w.len() - 1 && k2 == k + 1 ==> #[trigger] invokes(t, w[k], w[k2]),
    ensures
        has_cycle(t),
{
    lemma_pigeon(w, s);
    let (i, j) = choose|i: int, j: int| 0 <= i < j < w.len() && w[i] == w[j];
    lemma_cut_cycle(t, w, i, j);
}

/// A finite set of fragments, each invoking a member of the set, contains a
/// cycle.
proof fn lemma_stuck_cycle(t: Seq<FragmentModel>, s: Set<int>, u0: int)
    requires
        s.finite(),
        s.contains(u0),
        forall|x: int| #[trigger] s.contains(x) ==> exists|y: int| s.contains(y) && invokes(t, x, y),
    ensures
        has_cycle(t),
{
    let w = lemma_walk(t, s, u0, s.len() + 1);
    lemma_repeat_cycle(t, w, s);
}

/// Scans every body for an invocation of a name the table does not define.
/// A hit is fatal for the document: it returns the invoking fragment's name
/// and the missing name.
pub fn check_resolved(t: &MacroTable) -> (r: Option<(Vec<char>, Vec<char>)>)
    ensures
        r is None <==> resolved(t.model()),
        r matches Option::Some(w) ==> {
            &&& !defines(t.model(), w.1@)
            &&& exists|i: int, l: int|
                0 <= i < t.model().len() && 0 <= l < t.model()[i].lines.len()
                    && #[trigger] is_invocation(t.model()[i].lines[l]) && t.model()[i].name == w.0@
                    && invoked_name(t.model()[i].lines[l]) == w.1@
        },
{
    let mut i: usize = 0;
    while i < t.frags.len()
        invariant
            i <= t.frags@.len(),
            forall|a: int, l: int|
                0 <= a < i && 0 <= l < t.model()[a].lines.len() && #[trigger] is_invocation(
                    t.model()[a].lines[l],
                ) ==> defines(t.model(), invoked_name(t.model()[a].lines[l])),
        decreases t.frags@.len() - i,
    {
        let nlines = t.frags[i].lines.len();
        let mut l: usize = 0;
        while l < nlines
            invariant
                i < t.frags@.len(),
                nlines == t.model()[i as int].lines.len(),
                l <= nlines,
                forall|a: int, b: int|
                    0 <= a < i && 0 <= b < t.model()[a].lines.len() && #[trigger] is_invocation(
                        t.model()[a].lines[b],
                    ) ==> defines(t.model(), invoked_name(t.model()[a].lines[b])),
                forall|b: int|
                    0 <= b < l && #[trigger] is_invocation(t.model()[i as int].lines[b]) ==> defines(
                        t.model(),
                        invoked_name(t.model()[i as int].lines[b]),
                    ),
            decreases nlines - l,
        {
            match parse_invocation(&t.frags[i].lines[l]) {
                Option::Some(m) => {
                    let (_sp, nm) = m;
                    match t.lookup_index(&nm) {
                        Option::Some(_) => {},
                        Option::None => {
                            let invoker = subvec(&t.frags[i].name, 0, t.frags[i].name.len());
                            proof {
                                assert(invoker@ =~= t.model()[i as int].name);
                                assert(is_invocation(t.model()[i as int].lines[l as int]));
                            }
                            return Option::Some((invoker, nm));
                        },
                    }
                },
                Option::None => {},
            }
            l = l + 1;
        }
        i = i + 1;
    }
    Option::None
}

/// The set of fragments a boolean mask marks.
pub open spec fn marked(rv: Seq<bool>) -> Set<int> {
    Set::new(|i: int| 0 <= i < rv.len() && rv[i])
}

proof fn lemma_marked_finite(rv: Seq<bool>)
    ensures
        marked(rv).finite(),
        marked(rv).len() <= rv.len(),
{
    lemma_int_range(0, rv.len() as int);
    assert(marked(rv).subset_of(set_int_range(0, rv.len() as int)));
    lemma_len_subset(marked(rv), set_int_range(0, rv.len() as int));
}

/// True when every fragment `u` invokes is already marked.
fn frag_done(t: &MacroTable, rv: &Vec<bool>, u: usize) -> (r: bool)
    requires
        resolved(t.model()),
        distinct_names(t.model()),
        u < t.frags@.len(),
        rv@.len() == t.frags@.len(),
    ensures
        r <==> forall|j: int| #[trigger] invokes(t.model(), u as int, j) ==> rv@[j],
{
    let ghost tm = t.model();
    let nlines = t.frags[u].lines.len();
    let mut l: usize = 0;
    while l < nlines
        invariant
            resolved(tm),
            distinct_names(tm),
            tm == t.model(),
            u < t.frags@.len(),
            rv@.len() == t.frags@.len(),
            nlines == tm[u as int].lines.len(),
            l <= nlines,
            forall|b: int|
                0 <= b < l && #[trigger] is_invocation(tm[u as int].lines[b]) ==> rv@[index_of(
                    tm,
                    invoked_name(tm[u as int].lines[b]),
                )],
        decreases nlines - l,
    {
        match parse_invocation(&t.frags[u].lines[l]) {
            Option::Some(m) => {
                let (_sp, nm) = m;
                match t.lookup_index(&nm) {
                    Option::Some(j) => {
                        proof {
                            lemma_index_unique(tm, j as int);
                        }
                        if !rv[j] {
                            proof {
                                assert(is_invocation(tm[u as int].lines[l as int]));
                                assert(invokes(tm, u as int, j as int));
                            }
                            return false;
                        }
                    },
                    Option::None => {
                        proof {
                            assert(is_invocation(tm[u as int].lines[l as int]));
                            assert(false);
                        }
                    },
                }
            },
            Option::None => {},
        }
        l = l + 1;
    }
    proof {
        assert forall|j: int| #[trigger] invokes(tm, u as int, j) implies rv@[j] by {
            let l0 = choose|l0: int|
                0 <= l0 < tm[u as int].lines.len() && #[trigger] is_invocation(
                    tm[u as int].lines[l0],
                ) && tm[j].name == invoked_name(tm[u as int].lines[l0]);
            lemma_index_unique(tm, j);
        }
    }
    true
}

/// Assigns each fragment a position such that every invocation descends, or
/// reports that the reference graph contains a cycle (`None`).
pub fn topo_order(t: &MacroTable) -> (r: Option<Vec<usize>>)
    requires
        resolved(t.model()),
        distinct_names(t.model()),
    ensures
        r matches Option::Some(ord) ==> valid_order(t.model(), ord@) && !has_cycle(t.model()),
        r is None ==> has_cycle(t.model()),
{
    let ghost tm = t.model();
    let n = t.frags.len();
    let mut rv: Vec<bool> = Vec::new();
    let mut ord: Vec<usize> = Vec::new();
    while rv.len() < n
        invariant
            rv@.len() == ord@.len() <= n,
            forall|k: int| 0 <= k < rv@.len() ==> !rv@[k],
        decreases n - rv@.len(),
    {
        rv.push(false);
        ord.push(0);
    }
    proof {
        assert(marked(rv@) =~= Set::<int>::empty());
    }
    let mut c: usize = 0;
    while c < n
        invariant
            resolved(tm),
            distinct_names(tm),
            tm == t.model(),
            n == t.frags@.len(),
            rv@.len() == n,
            ord@.len() == n,
            c <= n,
            marked(rv@).finite(),
            marked(rv@).len() == c,
            forall|u: int| 0 <= u < n && rv@[u] ==> ord@[u] < c,
            forall|u: int, j: int|
                0 <= u < n && rv@[u] && #[trigger] invokes(tm, u, j) ==> rv@[j] && ord@[j]
                    < ord@[u],
        decreases n - c,
    {
        let mut u: usize = 0;
        let mut picked: Option<usize> = Option::None;
        while u < n
            invariant
                resolved(tm),
                distinct_names(tm),
                tm == t.model(),
                n == t.frags@.len(),
                rv@.len() == n,
                u <= n,
                picked matches Option::Some(p) ==> p < n && !rv@[p as int] && forall|j: int|
                    #[trigger] invokes(tm, p as int, j) ==> rv@[j],
                picked is None ==> forall|x: int|
                    0 <= x < u && !rv@[x] ==> exists|j: int| invokes(tm, x, j) && !rv@[j],
            ensures
                picked matches Option::Some(p) ==> p < n && !rv@[p as int] && forall|j: int|
                    #[trigger] invokes(tm, p as int, j) ==> rv@[j],
                picked is None ==> forall|x: int|
                    0 <= x < n && !rv@[x] ==> exists|j: int| invokes(tm, x, j) && !rv@[j],
            decreases n - u,
        {
            if !rv[u] && frag_done(t, &rv, u) {
                picked = Option::Some(u);
                break;
            }
            u = u + 1;
        }
        match picked {
            Option::Some(p) => {
                let ghost old_rv = rv@;
                let ghost old_ord = ord@;
                ord.set(p, c);
                rv.set(p, true);
                proof {
                    lemma_marked_finite(old_rv);
                    assert(marked(rv@) =~= marked(old_rv).insert(p as int));
                    assert(!marked(old_rv).contains(p as int));
                    assert(marked(rv@).len() == c + 1);
                }
                c = c + 1;
            },
            Option::None => {
                proof {
                    let s = Set::new(|x: int| 0 <= x < n && !rv@[x]);
                    assert(tm.len() == n);
                    if forall|x: int| 0 <= x < n ==> rv@[x] {
                        assert(marked(rv@) =~= set_int_range(0, n as int));
                        lemma_int_range(0, n as int);
                        assert(false);
                    }
                    let x0 = choose|x: int| 0 <= x < n && !rv@[x];
                    assert(s.contains(x0));
                    lemma_int_range(0, n as int);
                    assert(s.subset_of(set_int_range(0, n as int)));
                    lemma_len_subset(s, set_int_range(0, n as int));
                    assert forall|x: int| #[trigger] s.contains(x) implies exists|y: int|
                        s.contains(y) && invokes(tm, x, y) by {
                        assert(0 <= x < n && !rv@[x]);
                        assert(exists|jx: int| invokes(tm, x, jx) && !rv@[jx]);
                        let jx = choose|jx: int| invokes(tm, x, jx) && !rv@[jx];
                        assert(0 <= jx < tm.len());
                        assert(s.contains(jx) && invokes(tm, x, jx));
                    }
                    lemma_stuck_cycle(tm, s, x0);
                }
                return Option::None;
            },
        }
    }
    proof {
        assert forall|i: int| 0 <= i < n implies rv@[i] by {
            if !rv@[i] {
                lemma_int_range(0, n as int);
                assert(marked(rv@).subset_of(set_int_range(0, n as int).remove(i)));
                lemma_len_subset(marked(rv@), set_int_range(0, n as int).remove(i));
            }
        }
        assert(valid_order(tm, ord@));
        lemma_order_acyclic(tm, ord@);
    }
    Option::Some(ord)
}

} // verus!
