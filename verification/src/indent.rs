//! Indentation-aware line prefixing: every line of an invoked fragment's
//! body gains one four-space unit per unit of the invocation's indentation,
//! and exactly one trailing newline.

use vstd::prelude::*;
use crate::text::{dv, lines_of, spaces, split_lines, subvec, unlines};
use crate::trusted::{chars_to_string, str_to_chars};

verus! {

pub proof fn lemma_spaces_snoc(n: nat)
    ensures
        spaces(n).push(' ') == spaces(n + 1),
    decreases n,
{
    if n == 0 {
        assert(spaces(1) =~= spaces(0).push(' '));
    } else {
        lemma_spaces_snoc((n - 1) as nat);
        assert(spaces(n).push(' ') =~= seq![' '] + spaces((n - 1) as nat).push(' '));
        assert(seq![' '] + spaces(n) =~= spaces(n + 1));
    }
}

pub proof fn lemma_unlines_snoc(ls: Seq<Seq<char>>, l: Seq<char>)
    ensures
        unlines(ls.push(l)) == unlines(ls) + l + seq!['\n'],
    decreases ls.len(),
{
    if ls.len() == 0 {
        assert(ls.push(l).drop_first() =~= Seq::<Seq<char>>::empty());
        assert(ls.push(l)[0] == l);
        assert(unlines(ls.push(l).drop_first()) == Seq::<char>::empty());
        assert(unlines(ls.push(l)) =~= unlines(ls) + l + seq!['\n']);
    } else {
        lemma_unlines_snoc(ls.drop_first(), l);
        assert(ls.push(l).drop_first() =~= ls.drop_first().push(l));
        assert(unlines(ls.push(l)) =~= unlines(ls) + l + seq!['\n']);
    }
}

/// Every line of `text`, prefixed by `indents` four-space units and closed
/// by exactly one newline.
pub fn prepend_indents(text: &str, indents: usize) -> (r: String)
    ensures
        r@ == unlines(
            lines_of(text@).map_values(|l: Seq<char>| spaces(4 * (indents as nat)) + l),
        ),
{
    let chars = str_to_chars(text);
    let lines = split_lines(&chars);
    let mut prefix: Vec<char> = Vec::new();
    let mut q: usize = 0;
    proof {
        assert(prefix@ =~= spaces(0));
    }
    while q < indents
        invariant
            q <= indents,
            prefix@ == spaces(4 * (q as nat)),
        decreases indents - q,
    {
        proof {
            lemma_spaces_snoc(4 * (q as nat));
            lemma_spaces_snoc(4 * (q as nat) + 1);
            lemma_spaces_snoc(4 * (q as nat) + 2);
            lemma_spaces_snoc(4 * (q as nat) + 3);
        }
        prefix.push(' ');
        prefix.push(' ');
        prefix.push(' ');
        prefix.push(' ');
        q = q + 1;
    }
    let ghost mls = lines_of(chars@).map_values(|l: Seq<char>| spaces(4 * (indents as nat)) + l);
    let mut out: Vec<char> = Vec::new();
    let mut m: usize = 0;
    proof {
        assert(mls.subrange(0, 0) =~= Seq::<Seq<char>>::empty());
    }
    while m < lines.len()
        invariant
            m <= lines@.len(),
            dv(lines@) == lines_of(chars@),
            mls == lines_of(chars@).map_values(|l: Seq<char>| spaces(4 * (indents as nat)) + l),
            prefix@ == spaces(4 * (indents as nat)),
            out@ == unlines(mls.subrange(0, m as int)),
        decreases lines@.len() - m,
    {
        let mut w = subvec(&prefix, 0, prefix.len());
        let mut piece = subvec(&lines[m], 0, lines[m].len());
        proof {
            assert(prefix@.subrange(0, prefix@.len() as int) =~= prefix@);
            assert(lines@[m as int]@.subrange(0, lines@[m as int]@.len() as int) =~= lines@[
                m as int]@);
        }
        out.append(&mut w);
        out.append(&mut piece);
        out.push('\n');
        proof {
            lemma_unlines_snoc(mls.subrange(0, m as int), mls[m as int]);
            assert(mls.subrange(0, m + 1) =~= mls.subrange(0, m as int).push(mls[m as int]));
            assert(out@ =~= unlines(mls.subrange(0, m as int)) + mls[m as int] + seq!['\n']);
        }
        m = m + 1;
    }
    proof {
        assert(mls.subrange(0, mls.len() as int) =~= mls);
    }
    chars_to_string(&out)
}

} // verus!
