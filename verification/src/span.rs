//! Cutting a string at byte offsets.
//!
//! The wire format counts bytes, and a `&str` can only be cut between two
//! characters. The places where the decoder cuts all lie next to an ASCII
//! byte, and such a place is always between two characters.

use vstd::prelude::*;
use vstd::string::StringSliceAdditionalSpecFns;
use vstd::utf8::*;

verus! {

/// `rest` is what is left of `s` once some bytes are taken off its front.
pub open spec fn is_end_of(rest: Seq<u8>, s: Seq<u8>) -> bool {
    rest.len() <= s.len() && rest == s.skip(s.len() - rest.len())
}

/// An end piece of an end piece of `s` is an end piece of `s`.
pub proof fn lemma_end_of_end(rest: Seq<u8>, mid: Seq<u8>, s: Seq<u8>)
    requires
        is_end_of(rest, mid),
        is_end_of(mid, s),
    ensures
        is_end_of(rest, s),
{
    assert(rest =~= s.skip(s.len() - rest.len()));
}

/// The bytes of a string are valid UTF-8.
pub proof fn lemma_str_is_utf8(s: &str)
    ensures
        valid_utf8(s.spec_bytes()),
{
    encode_utf8_valid_utf8(s@);
}

/// A character that starts with an ASCII byte ends with it.
proof fn lemma_boundary_step(bytes: Seq<u8>, i: int)
    requires
        valid_utf8(bytes),
        0 <= i < bytes.len(),
        bytes[i] <= 0x7f,
        is_char_boundary(bytes, i),
    ensures
        is_char_boundary(bytes, i + 1),
    decreases bytes.len(),
{
    let rest = pop_first_scalar(bytes);
    let first = length_of_first_scalar(bytes);
    assert(valid_utf8(rest));
    if i == 0 {
        assert(is_char_boundary(rest, 0));
    } else {
        assert(is_char_boundary(rest, i - first));
        assert(rest[i - first] == bytes[i]);
        lemma_boundary_step(rest, i - first);
    }
}

/// There is a character boundary before and after every ASCII byte.
pub proof fn lemma_boundary_at_ascii(bytes: Seq<u8>, i: int)
    requires
        valid_utf8(bytes),
        0 <= i < bytes.len(),
        bytes[i] <= 0x7f,
    ensures
        is_char_boundary(bytes, i),
        is_char_boundary(bytes, i + 1),
{
    is_char_boundary_iff_not_is_continuation_byte(bytes, i);
    lemma_boundary_step(bytes, i);
}

/// A place that is not between two characters lies before a byte that is
/// not ASCII.
pub proof fn lemma_not_boundary(bytes: Seq<u8>, i: int)
    requires
        valid_utf8(bytes),
        0 <= i <= bytes.len(),
        !is_char_boundary(bytes, i),
    ensures
        i < bytes.len(),
        bytes[i] > 0x7f,
{
    is_char_boundary_start_end_of_seq(bytes);
    is_char_boundary_iff_not_is_continuation_byte(bytes, i);
}

/// `s` without its first `from` bytes.
pub(crate) fn tail<'a>(s: &'a str, from: usize) -> (r: &'a str)
    requires
        from <= s.spec_bytes().len(),
        is_char_boundary(s.spec_bytes(), from as int),
    ensures
        r.spec_bytes() == s.spec_bytes().skip(from as int),
{
    let (_, r) = s.split_at(from);
    r
}

/// The first `to` bytes of `s`.
pub(crate) fn head<'a>(s: &'a str, to: usize) -> (r: &'a str)
    requires
        to <= s.spec_bytes().len(),
        is_char_boundary(s.spec_bytes(), to as int),
    ensures
        r.spec_bytes() == s.spec_bytes().take(to as int),
{
    let (r, _) = s.split_at(to);
    r
}

} // verus!
