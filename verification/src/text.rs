//! Character-level text model: lines, leading whitespace, and the marker
//! grammar for fragment definition headers and invocation lines.

use vstd::prelude::*;

verus! {

/// Whitespace that may follow a comment marker or trail a definition header.
pub open spec fn is_blank(c: char) -> bool {
    c == ' ' || c == '\t' || c == '\r' || c == '\u{b}' || c == '\u{c}'
}

/// The opening delimiter of a fragment name.
pub open spec fn open_delim() -> Seq<char> {
    seq!['<', '<']
}

/// The closing delimiter of a definition header: closing brackets plus the
/// definition marker.
pub open spec fn def_delim() -> Seq<char> {
    seq!['>', '>', '=']
}

/// Length of the run of space characters at the start of a line.
pub open spec fn leading_spaces(s: Seq<char>) -> nat
    decreases s.len(),
{
    if s.len() == 0 || s[0] != ' ' {
        0
    } else {
        1 + leading_spaces(s.drop_first())
    }
}

/// Length of the run of blank characters at the start of a line.
pub open spec fn leading_blanks(s: Seq<char>) -> nat
    decreases s.len(),
{
    if s.len() == 0 || !is_blank(s[0]) {
        0
    } else {
        1 + leading_blanks(s.drop_first())
    }
}

/// The line with its trailing blank characters removed.
pub open spec fn strip_trailing_blanks(s: Seq<char>) -> Seq<char>
    decreases s.len(),
{
    if s.len() == 0 || !is_blank(s.last()) {
        s
    } else {
        strip_trailing_blanks(s.drop_last())
    }
}

/// Index of the first occurrence of `c` in `s`, or -1 if absent.
pub open spec fn find_char(s: Seq<char>, c: char) -> int
    decreases s.len(),
{
    if s.len() == 0 {
        -1
    } else if s[0] == c {
        0
    } else if find_char(s.drop_first(), c) < 0 {
        -1
    } else {
        1 + find_char(s.drop_first(), c)
    }
}

/// A line with the carriage return of a two-character line ending removed.
pub open spec fn chop_cr(l: Seq<char>) -> Seq<char> {
    if l.len() > 0 && l.last() == '\r' {
        l.drop_last()
    } else {
        l
    }
}

/// The lines of a text, split at each line ending, where an ending is a
/// newline or a carriage return followed by a newline.  A final ending
/// terminates the last line; it does not open an empty one.
pub open spec fn lines_of(s: Seq<char>) -> Seq<Seq<char>>
    decreases s.len(),
{
    if s.len() == 0 {
        Seq::empty()
    } else if find_char(s, '\n') < 0 || find_char(s, '\n') >= s.len() {
        seq![s]
    } else {
        seq![chop_cr(s.subrange(0, find_char(s, '\n')))] + lines_of(
            s.subrange(find_char(s, '\n') + 1, s.len() as int),
        )
    }
}

/// The text formed by the given lines, each terminated by one newline.
pub open spec fn unlines(ls: Seq<Seq<char>>) -> Seq<char>
    decreases ls.len(),
{
    if ls.len() == 0 {
        Seq::empty()
    } else {
        ls[0] + seq!['\n'] + unlines(ls.drop_first())
    }
}

/// A run of `n` space characters.
pub open spec fn spaces(n: nat) -> Seq<char>
    decreases n,
{
    if n == 0 {
        Seq::empty()
    } else {
        seq![' '] + spaces((n - 1) as nat)
    }
}

// ---------------------------------------------------------------------------
// Characterization lemmas: the recursive definitions above are pinned down by
// first-order descriptions that executable scans can establish directly.
// ---------------------------------------------------------------------------

pub proof fn lemma_leading_spaces(s: Seq<char>)
    ensures
        leading_spaces(s) <= s.len(),
        forall|j: int| 0 <= j < leading_spaces(s) ==> s[j] == ' ',
        leading_spaces(s) < s.len() ==> s[leading_spaces(s) as int] != ' ',
    decreases s.len(),
{
    if s.len() != 0 && s[0] == ' ' {
        lemma_leading_spaces(s.drop_first());
        assert(forall|j: int| 1 <= j < s.len() ==> s[j] == s.drop_first()[j - 1]);
    }
}

pub proof fn lemma_leading_spaces_unique(s: Seq<char>, n: nat)
    requires
        n <= s.len(),
        forall|j: int| 0 <= j < n ==> s[j] == ' ',
        n < s.len() ==> s[n as int] != ' ',
    ensures
        leading_spaces(s) == n,
    decreases s.len(),
{
    if s.len() != 0 && s[0] == ' ' {
        assert(n != 0);
        lemma_leading_spaces_unique(s.drop_first(), (n - 1) as nat);
    }
}

pub proof fn lemma_leading_blanks_unique(s: Seq<char>, n: nat)
    requires
        n <= s.len(),
        forall|j: int| 0 <= j < n ==> is_blank(s[j]),
        n < s.len() ==> !is_blank(s[n as int]),
    ensures
        leading_blanks(s) == n,
    decreases s.len(),
{
    if s.len() != 0 && is_blank(s[0]) {
        assert(n != 0);
        lemma_leading_blanks_unique(s.drop_first(), (n - 1) as nat);
    }
}

pub proof fn lemma_strip_trailing_blanks(s: Seq<char>, n: nat)
    requires
        n <= s.len(),
        forall|j: int| n <= j < s.len() ==> is_blank(s[j]),
        n > 0 ==> !is_blank(s[n - 1]),
    ensures
        strip_trailing_blanks(s) == s.subrange(0, n as int),
    decreases s.len(),
{
    if s.len() == 0 || !is_blank(s.last()) {
        assert(n == s.len());
        assert(s.subrange(0, n as int) =~= s);
    } else {
        assert(n < s.len());
        lemma_strip_trailing_blanks(s.drop_last(), n);
        assert(s.drop_last().subrange(0, n as int) =~= s.subrange(0, n as int));
    }
}

pub proof fn lemma_find_char_unique(s: Seq<char>, c: char, n: nat)
    requires
        n <= s.len(),
        forall|j: int| 0 <= j < n ==> s[j] != c,
        n < s.len() ==> s[n as int] == c,
    ensures
        n == s.len() ==> find_char(s, c) < 0,
        n < s.len() ==> find_char(s, c) == n,
    decreases s.len(),
{
    if s.len() != 0 && s[0] != c {
        assert(n != 0);
        lemma_find_char_unique(s.drop_first(), c, (n - 1) as nat);
    }
}

// ---------------------------------------------------------------------------
// Executable scans over character vectors.
// ---------------------------------------------------------------------------

/// Index of the first occurrence of `c` in `v` at or after `from`.
pub fn scan_char(v: &Vec<char>, from: usize, c: char) -> (r: Option<usize>)
    requires
        from <= v@.len(),
    ensures
        match r {
            Some(i) => from <= i < v@.len() && v@[i as int] == c && forall|j: int|
                from <= j < i ==> v@[j] != c,
            None => forall|j: int| from <= j < v@.len() ==> v@[j] != c,
        },
{
    let mut i: usize = from;
    while i < v.len()
        invariant
            from <= i <= v@.len(),
            forall|j: int| from <= j < i ==> v@[j] != c,
        decreases v@.len() - i,
    {
        if v[i] == c {
            return Some(i);
        }
        i = i + 1;
    }
    None
}

/// A copy of `v[a..b]`.
pub fn subvec(v: &Vec<char>, a: usize, b: usize) -> (r: Vec<char>)
    requires
        a <= b <= v@.len(),
    ensures
        r@ == v@.subrange(a as int, b as int),
{
    let mut r: Vec<char> = Vec::new();
    let mut i: usize = a;
    while i < b
        invariant
            a <= i <= b <= v@.len(),
            r@ == v@.subrange(a as int, i as int),
        decreases b - i,
    {
        r.push(v[i]);
        proof {
            assert(r@ =~= v@.subrange(a as int, i + 1));
        }
        i = i + 1;
    }
    r
}

/// The lines a vector of character vectors stands for.
pub open spec fn dv(v: Seq<Vec<char>>) -> Seq<Seq<char>> {
    v.map_values(|l: Vec<char>| l@)
}

/// Splits a text into its lines, as `lines_of` describes.
pub fn split_lines(v: &Vec<char>) -> (r: Vec<Vec<char>>)
    ensures
        dv(r@) == lines_of(v@),
{
    let mut r: Vec<Vec<char>> = Vec::new();
    let mut start: usize = 0;
    proof {
        assert(v@.subrange(0, v@.len() as int) =~= v@);
    }
    while start < v.len()
        invariant
            start <= v@.len(),
            r@.map_values(|l: Vec<char>| l@) + lines_of(v@.subrange(start as int, v@.len() as int))
                =~= lines_of(v@),
        decreases v@.len() - start,
    {
        let ghost rest = v@.subrange(start as int, v@.len() as int);
        let ghost prev = r@.map_values(|l: Vec<char>| l@);
        match scan_char(v, start, '\n') {
            Some(nl) => {
                let end = if nl > start && v[nl - 1] == '\r' {
                    nl - 1
                } else {
                    nl
                };
                let line = subvec(v, start, end);
                proof {
                    lemma_find_char_unique(rest, '\n', (nl - start) as nat);
                    assert(rest.subrange(0, nl - start) =~= v@.subrange(start as int, nl as int));
                    assert(chop_cr(v@.subrange(start as int, nl as int)) =~= v@.subrange(
                        start as int,
                        end as int,
                    ));
                    assert(rest.subrange(nl - start + 1, rest.len() as int) =~= v@.subrange(
                        nl + 1,
                        v@.len() as int,
                    ));
                }
                r.push(line);
                proof {
                    assert(r@.map_values(|l: Vec<char>| l@) =~= prev.push(line@));
                    assert(prev.push(line@) + lines_of(v@.subrange(nl + 1, v@.len() as int)) =~=
                        prev + lines_of(rest));
                }
                start = nl + 1;
            },
            None => {
                let line = subvec(v, start, v.len());
                proof {
                    lemma_find_char_unique(rest, '\n', rest.len());
                    assert(lines_of(rest) =~= seq![rest]);
                }
                r.push(line);
                start = v.len();
                proof {
                    assert(r@.map_values(|l: Vec<char>| l@) =~= prev.push(line@));
                    let empty_rest = v@.subrange(start as int, v@.len() as int);
                    assert(lines_of(empty_rest) =~= Seq::<Seq<char>>::empty());
                    assert(prev.push(line@) + lines_of(empty_rest) =~= prev + lines_of(rest));
                }
            },
        }
    }
    proof {
        assert(lines_of(v@.subrange(start as int, v@.len() as int)) =~= Seq::<Seq<char>>::empty());
        assert(r@.map_values(|l: Vec<char>| l@) =~= lines_of(v@));
    }
    r
}

} // verus!
