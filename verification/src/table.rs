//! The per-document macro table: name-keyed storage of fragments with
//! first-definition-wins semantics.

use vstd::prelude::*;
use crate::fragment::{Fragment, FragmentModel, parse_fragment};
use crate::text::{dv, subvec};

verus! {

pub open spec fn defines(t: Seq<FragmentModel>, n: Seq<char>) -> bool {
    exists|i: int| 0 <= i < t.len() && t[i].name == n
}

/// The position of the fragment named `n`; meaningful under `distinct_names`.
pub open spec fn index_of(t: Seq<FragmentModel>, n: Seq<char>) -> int {
    choose|i: int| 0 <= i < t.len() && t[i].name == n
}

pub open spec fn distinct_names(t: Seq<FragmentModel>) -> bool {
    forall|i: int, j: int| 0 <= i < j < t.len() ==> t[i].name != t[j].name
}

pub proof fn lemma_index_of(t: Seq<FragmentModel>, n: Seq<char>)
    requires
        defines(t, n),
    ensures
        0 <= index_of(t, n) < t.len(),
        t[index_of(t, n)].name == n,
{
}

pub proof fn lemma_index_unique(t: Seq<FragmentModel>, j: int)
    requires
        distinct_names(t),
        0 <= j < t.len(),
    ensures
        index_of(t, t[j].name) == j,
{
    assert(defines(t, t[j].name));
    lemma_index_of(t, t[j].name);
}

/// The table a sequence of raw segments gives rise to: each segment that
/// parses as a fragment definition is appended, unless its name is already
/// bound, in which case the earlier binding stays.
pub open spec fn table_of(segs: Seq<Seq<char>>) -> Seq<FragmentModel>
    decreases segs.len(),
{
    if segs.len() == 0 {
        Seq::empty()
    } else {
        let t = table_of(segs.drop_last());
        match parse_fragment(segs.last()) {
            Option::Some(f) => if defines(t, f.name) {
                t
            } else {
                t.push(f)
            },
            Option::None => t,
        }
    }
}

/// The names whose later definitions were discarded, in segment order.
pub open spec fn redefs_of(segs: Seq<Seq<char>>) -> Seq<Seq<char>>
    decreases segs.len(),
{
    if segs.len() == 0 {
        Seq::empty()
    } else {
        let t = table_of(segs.drop_last());
        let w = redefs_of(segs.drop_last());
        match parse_fragment(segs.last()) {
            Option::Some(f) => if defines(t, f.name) {
                w.push(f.name)
            } else {
                w
            },
            Option::None => w,
        }
    }
}

/// A later definition of an already-bound name never changes the table.
pub proof fn lemma_table_distinct(segs: Seq<Seq<char>>)
    ensures
        distinct_names(table_of(segs)),
    decreases segs.len(),
{
    if segs.len() != 0 {
        lemma_table_distinct(segs.drop_last());
    }
}

pub struct MacroTable {
    pub frags: Vec<Fragment>,
}

fn seq_eq(a: &Vec<char>, b: &Vec<char>) -> (r: bool)
    ensures
        r == (a@ == b@),
{
    if a.len() != b.len() {
        return false;
    }
    let mut i: usize = 0;
    while i < a.len()
        invariant
            a@.len() == b@.len(),
            i <= a@.len(),
            forall|j: int| 0 <= j < i ==> a@[j] == b@[j],
        decreases a@.len() - i,
    {
        if a[i] != b[i] {
            return false;
        }
        i = i + 1;
    }
    proof {
        assert(a@ =~= b@);
    }
    true
}

impl MacroTable {
    pub open spec fn model(&self) -> Seq<FragmentModel> {
        self.frags@.map_values(|f: Fragment| f.model())
    }

    pub fn new() -> (r: MacroTable)
        ensures
            r.model() == Seq::<FragmentModel>::empty(),
    {
        let r = MacroTable { frags: Vec::new() };
        proof {
            assert(r.model() =~= Seq::<FragmentModel>::empty());
        }
        r
    }

    /// Position of the fragment bound to `name`, if any.
    pub fn lookup_index(&self, name: &Vec<char>) -> (r: Option<usize>)
        ensures
            r matches Option::Some(i) ==> i < self.model().len() && self.model()[i as int].name
                == name@,
            r is None ==> !defines(self.model(), name@),
    {
        let mut i: usize = 0;
        while i < self.frags.len()
            invariant
                i <= self.frags@.len(),
                forall|j: int| 0 <= j < i ==> self.model()[j].name != name@,
            decreases self.frags@.len() - i,
        {
            if seq_eq(&self.frags[i].name, name) {
                return Option::Some(i);
            }
            i = i + 1;
        }
        Option::None
    }

    /// Stores a fragment under its name unless the name is already bound;
    /// the result signals whether the fragment was fresh, a redefinition
    /// being a discarded, warning-level event.
    pub fn insert(&mut self, f: Fragment) -> (fresh: bool)
        ensures
            fresh == !defines(old(self).model(), f.model().name),
            fresh ==> final(self).model() == old(self).model().push(f.model()),
            !fresh ==> final(self).model() == old(self).model(),
    {
        match self.lookup_index(&f.name) {
            Option::Some(_) => false,
            Option::None => {
                let ghost prev = self.model();
                self.frags.push(f);
                proof {
                    assert(self.model() =~= prev.push(f.model()));
                }
                true
            },
        }
    }
}

/// Extracts the fragments of the given raw segments into a fresh table,
/// returning beside it the redefined names that were discarded.
pub fn build_table(segments: &Vec<Vec<char>>) -> (r: (MacroTable, Vec<Vec<char>>))
    ensures
        r.0.model() == table_of(dv(segments@)),
        dv(r.1@) == redefs_of(dv(segments@)),
{
    let ghost ds = dv(segments@);
    let mut table = MacroTable::new();
    let mut warns: Vec<Vec<char>> = Vec::new();
    let mut i: usize = 0;
    proof {
        assert(ds.subrange(0, 0) =~= Seq::<Seq<char>>::empty());
        assert(table.model() =~= table_of(ds.subrange(0, 0)));
        assert(dv(warns@) =~= redefs_of(ds.subrange(0, 0)));
    }
    while i < segments.len()
        invariant
            i <= segments@.len(),
            ds == dv(segments@),
            table.model() == table_of(ds.subrange(0, i as int)),
            dv(warns@) == redefs_of(ds.subrange(0, i as int)),
        decreases segments@.len() - i,
    {
        let ghost pre = ds.subrange(0, i as int);
        let ghost post = ds.subrange(0, i + 1);
        proof {
            assert(post.drop_last() =~= pre);
            assert(post.last() == segments@[i as int]@);
        }
        match Fragment::parse(&segments[i]) {
            Result::Ok(f) => {
                let ghost fm = f.model();
                let name_copy = subvec(&f.name, 0, f.name.len());
                proof {
                    assert(name_copy@ =~= fm.name);
                }
                let fresh = table.insert(f);
                if !fresh {
                    let ghost pw = dv(warns@);
                    warns.push(name_copy);
                    proof {
                        assert(dv(warns@) =~= pw.push(fm.name));
                    }
                }
            },
            Result::Err(_) => {},
        }
        i = i + 1;
    }
    proof {
        assert(ds.subrange(0, ds.len() as int) =~= ds);
    }
    (table, warns)
}

} // verus!
