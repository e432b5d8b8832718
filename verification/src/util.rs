use vstd::prelude::*;
use vstd::string::StringSliceAdditionalSpecFns;

verus! {

/// All bytes are ASCII.
pub open spec fn all_ascii(bytes: Seq<u8>) -> bool {
    forall|i: int| 0 <= i < bytes.len() ==> bytes[i] < 128
}

/// Calls `std::str::from_utf8`: the bytes as text if they are valid UTF-8.
/// Claimed, as its documentation states: ASCII bytes are valid UTF-8, and
/// text that is returned consists of exactly the given bytes.
#[verifier::external_body]
fn str_from_utf8(v: &[u8]) -> (r: Option<&str>)
    ensures
        all_ascii(v@) ==> r is Some,
        r matches Some(s) ==> s.spec_bytes() == v@,
{
    std::str::from_utf8(v).ok()
}

/// Writes `text` to the start of `buf` as far as it fits, and returns the
/// written text if all of it fits.
pub fn write_text<'a>(buf: &'a mut [u8], text: &Vec<u8>) -> (r: Option<&'a str>)
    requires
        all_ascii(text@),
    ensures
        ({
            let m = if text@.len() <= old(buf)@.len() { text@.len() } else { old(buf)@.len() };
            final(buf)@ == text@.subrange(0, m as int) + old(buf)@.subrange(m as int, old(buf)@.len() as int)
        }),
        r is Some <==> text@.len() <= old(buf)@.len(),
        r matches Some(s) ==> s.spec_bytes() == text@,
{
    let n = text.len();
    let cap = buf.len();
    let m = if n <= cap { n } else { cap };
    let mut i: usize = 0;
    while i < m
        invariant
            m <= n,
            m <= cap,
            n == text@.len(),
            cap == buf@.len(),
            cap == old(buf)@.len(),
            i <= m,
            buf@ == text@.subrange(0, i as int) + old(buf)@.subrange(i as int, cap as int),
        decreases m - i,
    {
        buf[i] = text[i];
        i += 1;
        assert(buf@ =~= text@.subrange(0, i as int) + old(buf)@.subrange(i as int, cap as int));
    }
    if n > cap {
        return None;
    }
    let written: &'a [u8] = buf;
    let s = vstd::slice::slice_subrange(written, 0, n);
    assert(s@ =~= text@);
    str_from_utf8(s)
}

} // verus!
