//! Fragment definitions: the header grammar that introduces a named fragment
//! inside a code block, the invocation-marker grammar that references one,
//! and the literal header-for-name substitution applied to a matched segment.

use vstd::prelude::*;
use crate::text::{
    dv, find_char, is_blank, leading_blanks, leading_spaces, lemma_find_char_unique,
    lemma_leading_blanks_unique, lemma_leading_spaces_unique, lemma_strip_trailing_blanks,
    lines_of, open_delim, def_delim, scan_char, split_lines, strip_trailing_blanks, subvec,
};

verus! {

// ---------------------------------------------------------------------------
// Invocation markers.
//
// An invocation line consists of: a run of leading spaces, the comment
// marker, a run of blanks, `<<`, a non-empty name, and `>>` closing the line.
// ---------------------------------------------------------------------------

/// Index of the character just past `<<` on an invocation-shaped line.
pub open spec fn name_start(l: Seq<char>) -> int {
    let sp = leading_spaces(l) as int;
    sp + 2 + leading_blanks(l.subrange(sp + 2, l.len() as int)) + 2
}

pub open spec fn is_invocation(l: Seq<char>) -> bool {
    let sp = leading_spaces(l) as int;
    &&& sp + 2 <= l.len()
    &&& l[sp] == '/'
    &&& l[sp + 1] == '/'
    &&& {
        let o = sp + 2 + leading_blanks(l.subrange(sp + 2, l.len() as int));
        &&& o + 5 <= l.len()
        &&& l[o] == '<'
        &&& l[o + 1] == '<'
        &&& l[l.len() - 2] == '>'
        &&& l[l.len() - 1] == '>'
    }
}

/// The name referenced by an invocation line: everything between `<<` and the
/// closing `>>`, as the most permissive reading of the marker takes it.
pub open spec fn invoked_name(l: Seq<char>) -> Seq<char> {
    l.subrange(name_start(l), l.len() - 2)
}

/// Scans a line for an invocation marker, yielding its leading-space count
/// and the invoked name.
pub fn parse_invocation(l: &Vec<char>) -> (r: Option<(usize, Vec<char>)>)
    ensures
        r is Some <==> is_invocation(l@),
        r is Some ==> {
            &&& r.unwrap().0 == leading_spaces(l@)
            &&& r.unwrap().1@ == invoked_name(l@)
        },
{
    let n = l.len();
    let mut sp: usize = 0;
    while sp < n && l[sp] == ' '
        invariant
            sp <= n == l@.len(),
            forall|j: int| 0 <= j < sp ==> l@[j] == ' ',
        decreases n - sp,
    {
        sp = sp + 1;
    }
    proof {
        lemma_leading_spaces_unique(l@, sp as nat);
    }
    if n < 2 || sp > n - 2 || l[sp] != '/' || l[sp + 1] != '/' {
        return None;
    }
    let ghost tail = l@.subrange(sp + 2, n as int);
    let mut o: usize = sp + 2;
    while o < n && (l[o] == ' ' || l[o] == '\t' || l[o] == '\r' || l[o] == '\u{b}' || l[o]
        == '\u{c}')
        invariant
            sp + 2 <= o <= n == l@.len(),
            forall|j: int| sp + 2 <= j < o ==> is_blank(l@[j]),
        decreases n - o,
    {
        o = o + 1;
    }
    proof {
        assert(forall|j: int| 0 <= j < tail.len() ==> tail[j] == l@[sp + 2 + j]);
        lemma_leading_blanks_unique(tail, (o - sp - 2) as nat);
    }
    if n < 5 || o > n - 5 || l[o] != '<' || l[o + 1] != '<' || l[n - 2] != '>' || l[n - 1] != '>' {
        return None;
    }
    let name = subvec(l, o + 2, n - 2);
    proof {
        assert(name@ =~= invoked_name(l@));
    }
    Some((sp, name))
}

// ---------------------------------------------------------------------------
// Definition headers.
//
// A segment of a tagged code block defines a fragment when its first line is
// a comment of the form `// <<name>>=`, with blanks allowed after the comment
// marker and after the closing `>>=`, and the name read greedily up to the
// last `>>=` of the line.
// ---------------------------------------------------------------------------

/// A well-formed fragment name: non-empty and free of the angle-bracket
/// delimiter characters that build the markers.
pub open spec fn name_ok(n: Seq<char>) -> bool {
    n.len() > 0 && forall|k: int| 0 <= k < n.len() ==> n[k] != '<' && n[k] != '>'
}

/// The name introduced by the segment's header line, if the segment is a
/// fragment definition.
pub open spec fn header_name(text: Seq<char>) -> Option<Seq<char>> {
    let nl = find_char(text, '\n');
    if !(0 <= nl < text.len()) {
        Option::None
    } else {
        let line = text.subrange(0, nl);
        if !(line.len() >= 2 && line[0] == '/' && line[1] == '/') {
            Option::None
        } else {
            let o = 2 + leading_blanks(line.subrange(2, line.len() as int)) as int;
            if !(o + 2 <= line.len() && line[o] == '<' && line[o + 1] == '<') {
                Option::None
            } else {
                let t = strip_trailing_blanks(line.subrange(o + 2, line.len() as int));
                if t.len() >= 4 && t[t.len() - 3] == '>' && t[t.len() - 2] == '>' && t[t.len() - 1]
                    == '=' && name_ok(t.subrange(0, t.len() - 3)) {
                    Option::Some(t.subrange(0, t.len() - 3))
                } else {
                    Option::None
                }
            }
        }
    }
}

/// The literal header text `<<name>>=` whose every occurrence in a matched
/// segment is replaced by the bare name.
pub open spec fn header_literal(name: Seq<char>) -> Seq<char> {
    open_delim() + name + def_delim()
}

/// The body of a fragment cut from a matched segment: the raw segment with
/// the header literal textually replaced by the name, split into lines.
pub open spec fn fragment_body(text: Seq<char>, name: Seq<char>) -> Seq<Seq<char>> {
    lines_of(replace_all(text, header_literal(name), name))
}

/// A fragment as later stages see it: a name and a body of lines.
pub ghost struct FragmentModel {
    pub name: Seq<char>,
    pub lines: Seq<Seq<char>>,
}

pub open spec fn parse_fragment(text: Seq<char>) -> Option<FragmentModel> {
    match header_name(text) {
        Option::None => Option::None,
        Option::Some(name) => Option::Some(
            FragmentModel { name, lines: fragment_body(text, name) },
        ),
    }
}

pub struct Fragment {
    pub name: Vec<char>,
    pub lines: Vec<Vec<char>>,
}

impl Fragment {
    pub open spec fn model(&self) -> FragmentModel {
        FragmentModel { name: self.name@, lines: dv(self.lines@) }
    }

    /// Recognizes a fragment definition among the text segments of the tagged
    /// code blocks; segments without a header are not definitions.
    #[verifier::rlimit(60)]
    pub fn parse(text: &Vec<char>) -> (r: Result<Fragment, ParseError>)
        ensures
            r is Ok <==> parse_fragment(text@) is Some,
            r is Ok ==> r.unwrap().model() == parse_fragment(text@).unwrap(),
    {
        let n = text.len();
        let nl = match scan_char(text, 0, '\n') {
            Option::Some(i) => i,
            Option::None => {
                proof {
                    lemma_find_char_unique(text@, '\n', n as nat);
                }
                return Result::Err(ParseError::MissingIdentifier);
            },
        };
        proof {
            lemma_find_char_unique(text@, '\n', nl as nat);
        }
        let ghost line = text@.subrange(0, nl as int);
        proof {
            assert(forall|j: int| 0 <= j < line.len() ==> line[j] == text@[j]);
        }
        if nl < 2 || text[0] != '/' || text[1] != '/' {
            return Result::Err(ParseError::MissingIdentifier);
        }
        let mut o: usize = 2;
        while o < nl && (text[o] == ' ' || text[o] == '\t' || text[o] == '\r' || text[o]
            == '\u{b}' || text[o] == '\u{c}')
            invariant
                2 <= o <= nl < text@.len(),
            forall|j: int| 2 <= j < o ==> is_blank(text@[j]),
            decreases nl - o,
        {
            o = o + 1;
        }
        proof {
            let t2 = line.subrange(2, line.len() as int);
            assert(forall|j: int| 0 <= j < t2.len() ==> t2[j] == text@[2 + j]);
            lemma_leading_blanks_unique(t2, (o - 2) as nat);
        }
        if o > nl - 2 || text[o] != '<' || text[o + 1] != '<' {
            return Result::Err(ParseError::MissingIdentifier);
        }
        let ghost rest = line.subrange(o + 2, line.len() as int);
        proof {
            assert(forall|j: int| 0 <= j < rest.len() ==> rest[j] == text@[o + 2 + j]);
        }
        let mut e: usize = nl;
        while e > o + 2 && (text[e - 1] == ' ' || text[e - 1] == '\t' || text[e - 1] == '\r'
            || text[e - 1] == '\u{b}' || text[e - 1] == '\u{c}')
            invariant
                o + 2 <= e <= nl < text@.len(),
                forall|j: int| e <= j < nl ==> is_blank(text@[j]),
            decreases e,
        {
            e = e - 1;
        }
        proof {
            lemma_strip_trailing_blanks(rest, (e - o - 2) as nat);
            assert(strip_trailing_blanks(rest) =~= text@.subrange(o + 2, e as int));
        }
        if e - o < 6 || text[e - 3] != '>' || text[e - 2] != '>' || text[e - 1] != '=' {
            return Result::Err(ParseError::MissingIdentifier);
        }
        let name = subvec(text, o + 2, e - 3);
        proof {
            let t = strip_trailing_blanks(rest);
            assert(t.subrange(0, t.len() - 3) =~= text@.subrange(o + 2, e - 3));
        }
        let mut d: usize = 0;
        #[verifier::loop_isolation(false)]
        while d < name.len()
            invariant
                d <= name@.len(),
                forall|k: int| 0 <= k < d ==> name@[k] != '<' && name@[k] != '>',
            decreases name@.len() - d,
        {
            if name[d] == '<' || name[d] == '>' {
                return Result::Err(ParseError::MissingIdentifier);
            }
            d = d + 1;
        }
        proof {
            assert(name_ok(name@));
        }
        // Replace every occurrence of the literal header text by the name.
        let mut pat: Vec<char> = Vec::new();
        pat.push('<');
        pat.push('<');
        proof {
            assert(pat@ =~= open_delim() + name@.subrange(0, 0));
        }
        let mut k: usize = 0;
        while k < name.len()
            invariant
                k <= name@.len(),
                pat@ == open_delim() + name@.subrange(0, k as int),
            decreases name@.len() - k,
        {
            pat.push(name[k]);
            proof {
                assert(pat@ =~= open_delim() + name@.subrange(0, k + 1));
            }
            k = k + 1;
        }
        pat.push('>');
        pat.push('>');
        pat.push('=');
        proof {
            assert(name@.subrange(0, name@.len() as int) =~= name@);
            assert(pat@ =~= header_literal(name@));
        }
        let body = replace_all_exec(text, &pat, &name);
        let lines = split_lines(&body);
        Result::Ok(Fragment { name, lines })
    }
}

/// A segment inside a tagged code block that does not open with a fragment
/// header; such a segment simply defines nothing.
#[derive(Debug, Clone, Copy, PartialEq, Eq)]
pub enum ParseError {
    MissingIdentifier,
}

// ---------------------------------------------------------------------------
// Literal substring replacement, as the header substitution performs it:
// non-overlapping occurrences, scanned from the left.
// ---------------------------------------------------------------------------

pub open spec fn match_at(s: Seq<char>, pat: Seq<char>, i: int) -> bool {
    0 <= i && i + pat.len() <= s.len() && s.subrange(i, i + pat.len()) == pat
}

/// Index of the first occurrence of `pat` in `s`, or -1 if there is none.
pub open spec fn find_pat(s: Seq<char>, pat: Seq<char>) -> int
    decreases s.len(),
{
    if s.len() == 0 || s.len() < pat.len() {
        -1
    } else if match_at(s, pat, 0) {
        0
    } else if find_pat(s.drop_first(), pat) < 0 {
        -1
    } else {
        1 + find_pat(s.drop_first(), pat)
    }
}

pub proof fn lemma_find_pat(s: Seq<char>, pat: Seq<char>)
    requires
        pat.len() > 0,
    ensures
        find_pat(s, pat) < 0 ==> forall|i: int| !match_at(s, pat, i),
        find_pat(s, pat) >= 0 ==> {
            &&& find_pat(s, pat) + pat.len() <= s.len()
            &&& match_at(s, pat, find_pat(s, pat))
            &&& forall|i: int| 0 <= i < find_pat(s, pat) ==> !match_at(s, pat, i)
        },
    decreases s.len(),
{
    if s.len() != 0 && s.len() >= pat.len() && !match_at(s, pat, 0) {
        lemma_find_pat(s.drop_first(), pat);
        assert forall|i: int| 1 <= i && i + pat.len() <= s.len() implies match_at(s, pat, i)
            == match_at(s.drop_first(), pat, i - 1) by {
            assert(s.subrange(i, i + pat.len()) =~= s.drop_first().subrange(
                i - 1,
                i - 1 + pat.len(),
            ));
        }
    }
}

pub proof fn lemma_find_pat_unique(s: Seq<char>, pat: Seq<char>, n: nat)
    requires
        pat.len() > 0,
        forall|i: int| 0 <= i < n ==> !match_at(s, pat, i),
    ensures
        n + pat.len() > s.len() ==> find_pat(s, pat) < 0,
        n + pat.len() <= s.len() && match_at(s, pat, n as int) ==> find_pat(s, pat) == n,
{
    lemma_find_pat(s, pat);
}

/// The text with every occurrence of `pat` replaced by `rep`, scanning left
/// to right past each replacement.
pub open spec fn replace_all(s: Seq<char>, pat: Seq<char>, rep: Seq<char>) -> Seq<char>
    decreases s.len(),
    when pat.len() > 0
{
    let i = find_pat(s, pat);
    if i < 0 || i + pat.len() > s.len() {
        s
    } else {
        s.subrange(0, i) + rep + replace_all(s.subrange(i + pat.len(), s.len() as int), pat, rep)
    }
}

pub fn pat_match_at(v: &Vec<char>, pat: &Vec<char>, i: usize) -> (r: bool)
    requires
        i + pat@.len() <= v@.len(),
    ensures
        r == match_at(v@, pat@, i as int),
{
    let n = v.len();
    let mut k: usize = 0;
    while k < pat.len()
        invariant
            k <= pat@.len(),
            n == v@.len(),
            i + pat@.len() <= v@.len(),
            forall|j: int| 0 <= j < k ==> v@[i + j] == pat@[j],
        decreases pat@.len() - k,
    {
        if v[i + k] != pat[k] {
            assert(v@.subrange(i as int, i + pat@.len())[k as int] != pat@[k as int]);
            return false;
        }
        k = k + 1;
    }
    proof {
        assert(v@.subrange(i as int, i + pat@.len()) =~= pat@);
    }
    true
}

/// Index of the first occurrence of `pat` in `v`, by direct scan.
pub fn find_pat_exec(v: &Vec<char>, pat: &Vec<char>) -> (r: Option<usize>)
    requires
        pat@.len() > 0,
    ensures
        r is Some ==> find_pat(v@, pat@) == r.unwrap(),
        r is None ==> find_pat(v@, pat@) < 0,
{
    if pat.len() > v.len() {
        proof {
            lemma_find_pat_unique(v@, pat@, 0);
        }
        return Option::None;
    }
    let mut i: usize = 0;
    while i <= v.len() - pat.len()
        invariant
            0 < pat@.len() <= v@.len(),
            i <= v@.len(),
            forall|j: int| 0 <= j < i ==> !match_at(v@, pat@, j),
        decreases v@.len() - i,
    {
        if pat_match_at(v, pat, i) {
            proof {
                lemma_find_pat_unique(v@, pat@, i as nat);
            }
            return Option::Some(i);
        }
        i = i + 1;
    }
    proof {
        lemma_find_pat_unique(v@, pat@, i as nat);
    }
    Option::None
}

pub fn replace_all_exec(v: &Vec<char>, pat: &Vec<char>, rep: &Vec<char>) -> (r: Vec<char>)
    requires
        pat@.len() > 0,
    ensures
        r@ == replace_all(v@, pat@, rep@),
{
    let mut out: Vec<char> = Vec::new();
    let mut tail: Vec<char> = subvec(v, 0, v.len());
    proof {
        assert(v@.subrange(0, v@.len() as int) =~= v@);
    }
    loop
        invariant
            pat@.len() > 0,
            out@ + replace_all(tail@, pat@, rep@) == replace_all(v@, pat@, rep@),
        decreases tail@.len(),
    {
        match find_pat_exec(&tail, pat) {
            Option::None => {
                proof {
                    assert(out@ + tail@ =~= out@ + replace_all(tail@, pat@, rep@));
                }
                let mut rest = tail;
                out.append(&mut rest);
                return out;
            },
            Option::Some(i) => {
                proof {
                    lemma_find_pat(tail@, pat@);
                }
                let mut head = subvec(&tail, 0, i);
                let mut mid = subvec(rep, 0, rep.len());
                proof {
                    assert(rep@.subrange(0, rep@.len() as int) =~= rep@);
                }
                let tn = tail.len();
                let next = subvec(&tail, i + pat.len(), tn);
                out.append(&mut head);
                out.append(&mut mid);
                proof {
                    assert(out@ + replace_all(next@, pat@, rep@) =~= replace_all(v@, pat@, rep@));
                }
                tail = next;
            },
        }
    }
}

} // verus!
