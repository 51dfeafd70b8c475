//! Boundary conversions between strings and character vectors; the verified
//! text algorithms work on characters.

use vstd::prelude::*;

verus! {

/// Relies on str::chars: it yields exactly the slice's characters in order.
#[verifier::external_body]
pub(crate) fn str_to_chars(s: &str) -> (r: Vec<char>)
    ensures
        r@ == s@,
{
    s.chars().collect()
}

/// Relies on String's FromIterator over char: collecting characters forms
/// the string of exactly those characters.
#[verifier::external_body]
pub(crate) fn chars_to_string(v: &Vec<char>) -> (r: String)
    ensures
        r@ == v@,
{
    v.iter().collect()
}

/// The text segments inside the fenced code blocks of a markdown document
/// that are tagged `rust`, in document order.  What falls inside which block
/// is markdown's affair, decided by the parser relied on below; the value
/// depends on the document alone.
pub uninterp spec fn rust_segments_of(doc: Seq<char>) -> Seq<Seq<char>>;

/// Relies on pulldown_cmark::Parser: its events delimit fenced code blocks,
/// each block's tag word, and the text pieces inside.
#[verifier::external_body]
pub(crate) fn extract_rust_segments(doc: &str) -> (r: Vec<Vec<char>>)
    ensures
        crate::text::dv(r@) == rust_segments_of(doc@),
{
    let mut out: Vec<Vec<char>> = Vec::new();
    let mut in_block = false;
    for ev in pulldown_cmark::Parser::new(doc) {
        match ev {
            pulldown_cmark::Event::Start(pulldown_cmark::Tag::CodeBlock(
                pulldown_cmark::CodeBlockKind::Fenced(tag),
            )) => in_block = tag.as_ref() == "rust",
            pulldown_cmark::Event::End(_) => in_block = false,
            pulldown_cmark::Event::Text(piece) if in_block => out.push(piece.chars().collect()),
            _ => {},
        }
    }
    out
}

} // verus!
