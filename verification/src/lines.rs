//! The per-object metric: line counts of text content.

use vstd::prelude::*;

verus! {

/// Number of newline bytes in a byte sequence.
pub open spec fn newline_count(b: Seq<u8>) -> nat
    decreases b.len(),
{
    if b.len() == 0 {
        0
    } else {
        newline_count(b.drop_last()) + if b.last() == 10u8 {
            1nat
        } else {
            0nat
        }
    }
}

/// Number of text lines in a byte sequence: every newline-terminated
/// line counts, and so does a final unterminated one. Empty content
/// has no lines.
pub open spec fn line_count(b: Seq<u8>) -> nat {
    newline_count(b) + if b.len() > 0 && b.last() != 10u8 {
        1nat
    } else {
        0nat
    }
}

/// There are never more newlines than bytes, and when every byte is a
/// newline the last one is.
proof fn lemma_newline_count_le_len(b: Seq<u8>)
    ensures
        newline_count(b) <= b.len(),
        b.len() > 0 && b.last() != 10u8 ==> newline_count(b) < b.len(),
    decreases b.len(),
{
    if b.len() > 0 {
        lemma_newline_count_le_len(b.drop_last());
    }
}

/// Whether a byte sequence decodes as text. What `core::str::from_utf8`
/// accepts depends on the bytes alone.
pub uninterp spec fn is_text(b: Seq<u8>) -> bool;

/// Relies on core::str::from_utf8: it returns `Ok` exactly when the
/// bytes are valid UTF-8, a property of the bytes alone, here named
/// `is_text`.
#[verifier::external_body]
fn utf8_ok(b: &Vec<u8>) -> (r: bool)
    ensures
        r == is_text(b@),
{
    core::str::from_utf8(b.as_slice()).is_ok()
}

/// The metric of a content object: its line count when the content
/// decodes as text, none otherwise.
pub open spec fn metric_of(b: Seq<u8>) -> Option<nat> {
    if is_text(b) {
        Some(line_count(b))
    } else {
        None
    }
}

/// The mathematical value of an optional machine-word metric.
pub open spec fn opt_nat(o: Option<usize>) -> Option<nat> {
    match o {
        Some(n) => Some(n as nat),
        None => None,
    }
}

/// Count the text lines of a byte sequence.
pub fn count_lines_bytes(b: &Vec<u8>) -> (n: usize)
    ensures
        n == line_count(b@),
{
    let len = b.len();
    let mut count: usize = 0;
    let mut i: usize = 0;
    while i < len
        invariant
            len == b@.len(),
            i <= len,
            count == newline_count(b@.take(i as int)),
            count <= i,
        decreases len - i,
    {
        proof {
            assert(b@.take(i as int + 1).drop_last() =~= b@.take(i as int));
            assert(b@.take(i as int + 1).last() == b@[i as int]);
        }
        if b[i] == 10u8 {
            count += 1;
        }
        i += 1;
    }
    proof {
        assert(b@.take(len as int) =~= b@);
        lemma_newline_count_le_len(b@);
    }
    if len > 0 && b[len - 1] != 10u8 {
        count += 1;
    }
    count
}

/// Measure one content object: the line count of text content, or
/// nothing for content that does not decode as text.
pub fn measure_content(b: &Vec<u8>) -> (r: Option<usize>)
    ensures
        opt_nat(r) == metric_of(b@),
{
    if utf8_ok(b) {
        Some(count_lines_bytes(b))
    } else {
        None
    }
}

} // verus!
