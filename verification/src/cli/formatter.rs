//! Output helpers.
use vstd::prelude::*;
use vstd::string::StringSliceAdditionalSpecFns;
use vstd::utf8::is_char_boundary;

verus! {

/// The largest character boundary of `bytes` at or below `at`.
pub open spec fn boundary_at_or_below(bytes: Seq<u8>, at: int) -> int
    decreases at,
{
    if at <= 0 || is_char_boundary(bytes, at) {
        if at <= 0 { 0 } else { at }
    } else {
        boundary_at_or_below(bytes, at - 1)
    }
}

/// Where a string of `bytes` is cut to fit `max` bytes: nowhere when it fits,
/// otherwise at the last character boundary at or below `max`.
pub open spec fn truncation_point(bytes: Seq<u8>, max: int) -> int {
    if bytes.len() <= max { bytes.len() as int } else { boundary_at_or_below(bytes, max) }
}

/// The longest prefix of `s` of at most `max_bytes` bytes that ends on a
/// character boundary.
pub fn safe_truncate_str(s: &str, max_bytes: usize) -> (r: &str)
    ensures
        r.spec_bytes() == s.spec_bytes().subrange(0, truncation_point(s.spec_bytes(), max_bytes as int)),
{
    if s.as_bytes().len() <= max_bytes {
        assert(s.spec_bytes().subrange(0, s.spec_bytes().len() as int) =~= s.spec_bytes());
        return s;
    }
    let mut end = max_bytes;
    while end > 0 && !s.is_char_boundary(end)
        invariant
            end <= max_bytes,
            boundary_at_or_below(s.spec_bytes(), end as int) == boundary_at_or_below(s.spec_bytes(), max_bytes as int),
        decreases end,
    {
        end = end - 1;
    }
    proof {
        vstd::utf8::encode_utf8_valid_utf8(s@);
    }
    assert(is_char_boundary(s.spec_bytes(), end as int));
    s.split_at(end).0
}

} // verus!
