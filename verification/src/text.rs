//! Byte-level text helpers: line counting, runs of line feeds, the
//! trailing e-mail signature of a patch, and saturating offset arithmetic.
use vstd::prelude::*;
use vstd::string::StringSliceAdditionalSpecFns;

verus! {

/// The byte of a line feed.
pub const NEWLINE: u8 = 0x0a;

/// Number of line feeds in `s`.
pub open spec fn newline_count(s: Seq<u8>) -> nat
    decreases s.len(),
{
    if s.len() == 0 {
        0
    } else {
        newline_count(s.drop_last()) + if s.last() == NEWLINE {
            1nat
        } else {
            0nat
        }
    }
}

/// Number of lines that `str::lines` yields for `s`: one per line feed, and one
/// more for a last line that is not ended by a line feed.
pub open spec fn line_count(s: Seq<u8>) -> nat {
    newline_count(s) + if s.len() > 0 && s.last() != NEWLINE {
        1nat
    } else {
        0nat
    }
}

/// `n` line feeds.
pub open spec fn newline_run(n: nat) -> Seq<u8> {
    Seq::new(n, |i: int| NEWLINE)
}

proof fn lemma_newline_count_bound(s: Seq<u8>)
    ensures
        newline_count(s) <= s.len(),
    decreases s.len(),
{
    if s.len() > 0 {
        lemma_newline_count_bound(s.drop_last());
    }
}

/// Counts the lines of `text` as `str::lines().count()` does.
pub fn count_lines(text: &[u8]) -> (n: usize)
    ensures
        n == line_count(text@),
{
    let len = text.len();
    let mut count: usize = 0;
    let mut i: usize = 0;
    while i < len
        invariant
            len == text@.len(),
            i <= len,
            count == newline_count(text@.take(i as int)),
        decreases len - i,
    {
        proof {
            assert(text@.take(i + 1).drop_last() =~= text@.take(i as int));
            lemma_newline_count_bound(text@.take(i as int));
        }
        if text[i] == NEWLINE {
            count = count + 1;
        }
        i = i + 1;
    }
    assert(text@.take(len as int) =~= text@);
    if len > 0 && text[len - 1] != NEWLINE {
        proof {
            lemma_newline_count_bound(text@.drop_last());
        }
        count = count + 1;
    }
    count
}

/// Appends `n` line feeds to `buf`.
pub fn push_newlines(buf: &mut Vec<u8>, n: usize)
    ensures
        final(buf)@ == old(buf)@ + newline_run(n as nat),
{
    let ghost start = buf@;
    let mut i: usize = 0;
    while i < n
        invariant
            i <= n,
            buf@ =~= start + newline_run(i as nat),
        decreases n - i,
    {
        buf.push(NEWLINE);
        i = i + 1;
    }
}

/// Appends all of `src` to `buf`.
pub fn append_bytes(buf: &mut Vec<u8>, src: &[u8])
    ensures
        final(buf)@ == old(buf)@ + src@,
{
    let ghost start = buf@;
    let len = src.len();
    let mut i: usize = 0;
    while i < len
        invariant
            len == src@.len(),
            i <= len,
            buf@ =~= start + src@.take(i as int),
        decreases len - i,
    {
        buf.push(src[i]);
        i = i + 1;
    }
    assert(src@.take(len as int) =~= src@);
}

/// The bytes of `-- \n`, the line that opens an e-mail signature (RFC 3676),
/// as `git format-patch` writes it below a patch.
pub open spec fn signature_marker() -> Seq<u8> {
    seq![0x2du8, 0x2du8, 0x20u8, 0x0au8]
}

/// Whether the signature marker starts at byte `i` of `b`.
pub open spec fn marker_at(b: Seq<u8>, i: int) -> bool {
    0 <= i && i + 4 <= b.len() && b.subrange(i, i + 4) == signature_marker()
}

/// The last start of the signature marker below `n`, if any.
pub open spec fn last_marker_below(b: Seq<u8>, n: int) -> Option<int>
    decreases n,
{
    if n <= 0 {
        None
    } else if marker_at(b, n - 1) {
        Some(n - 1)
    } else {
        last_marker_below(b, n - 1)
    }
}

/// The start of the last signature marker in `b` (what `str::rfind` gives).
pub open spec fn last_marker(b: Seq<u8>) -> Option<int> {
    last_marker_below(b, b.len() as int)
}

/// `b` without its last signature marker and everything after it.
pub open spec fn without_signature(b: Seq<u8>) -> Seq<u8> {
    match last_marker(b) {
        Some(i) => b.take(i),
        None => b,
    }
}

/// What `last_marker_below` finds: the greatest start below `n`.
pub proof fn lemma_last_marker_below(b: Seq<u8>, n: int)
    ensures
        match last_marker_below(b, n) {
            Some(i) => marker_at(b, i) && i < n && forall|j: int| i < j < n ==> !marker_at(b, j),
            None => forall|j: int| j < n ==> !marker_at(b, j),
        },
    decreases n,
{
    if n > 0 && !marker_at(b, n - 1) {
        lemma_last_marker_below(b, n - 1);
    }
}

/// Cuts the signature off a patch: everything from the last `-- \n` on, if the
/// patch holds one.
pub fn trim_signature(patch: &str) -> (trimmed: &str)
    ensures
        trimmed.spec_bytes() == without_signature(patch.spec_bytes()),
{
    let bytes = patch.as_bytes();
    let len = bytes.len();
    let mut n: usize = len;
    proof {
        assert(last_marker(bytes@) == last_marker_below(bytes@, n as int));
    }
    while n > 0
        invariant
            len == bytes@.len(),
            bytes@ == patch.spec_bytes(),
            n <= len,
            last_marker(bytes@) == last_marker_below(bytes@, n as int),
        decreases n,
    {
        let i = n - 1;
        if len >= 4 && i <= len - 4 && bytes[i] == 0x2d && bytes[i + 1] == 0x2d && bytes[i + 2] == 0x20
            && bytes[i + 3] == 0x0a {
            proof {
                assert(bytes@.subrange(i as int, i + 4) =~= signature_marker());
                assert(last_marker(bytes@) == Some(i as int));
                broadcast use vstd::utf8::group_utf8_lib;

                assert(vstd::utf8::valid_utf8(bytes@));
                if i > 0 {
                    assert(vstd::utf8::is_char_boundary(bytes@, i as int) <==> !vstd::utf8::is_continuation_byte(bytes@[i as int]));
                }
            }
            let (head, _tail) = patch.split_at(i);
            return head;
        }
        proof {
            if i + 4 <= len {
                if marker_at(bytes@, i as int) {
                    assert(bytes@.subrange(i as int, i + 4)[0] == bytes@[i as int]);
                    assert(bytes@.subrange(i as int, i + 4)[1] == bytes@[i + 1]);
                    assert(bytes@.subrange(i as int, i + 4)[2] == bytes@[i + 2]);
                    assert(bytes@.subrange(i as int, i + 4)[3] == bytes@[i + 3]);
                }
            }
        }
        n = i;
    }
    patch
}

/// `x` held to the range of `usize`.
pub open spec fn clamp_usize(x: int) -> int {
    if x < 0 {
        0
    } else if x > usize::MAX {
        usize::MAX as int
    } else {
        x
    }
}

/// `x` held to the range of `isize`.
pub open spec fn clamp_isize(x: int) -> int {
    if x < isize::MIN {
        isize::MIN as int
    } else if x > isize::MAX {
        isize::MAX as int
    } else {
        x
    }
}

/// `usize::saturating_add_signed`.
pub fn saturating_add_signed(a: usize, b: isize) -> (r: usize)
    ensures
        r == clamp_usize(a + b),
{
    let sum: i128 = a as i128 + b as i128;
    if sum < 0 {
        0
    } else if sum > usize::MAX as i128 {
        usize::MAX
    } else {
        sum as usize
    }
}

/// `isize::saturating_add_unsigned`.
pub fn saturating_add_unsigned(a: isize, b: usize) -> (r: isize)
    ensures
        r == clamp_isize(a + b),
{
    let sum: i128 = a as i128 + b as i128;
    if sum > isize::MAX as i128 {
        isize::MAX
    } else {
        sum as isize
    }
}

/// `isize::saturating_sub_unsigned`.
pub fn saturating_sub_unsigned(a: isize, b: usize) -> (r: isize)
    ensures
        r == clamp_isize(a - b),
{
    let diff: i128 = a as i128 - b as i128;
    if diff < isize::MIN as i128 {
        isize::MIN
    } else {
        diff as isize
    }
}

} // verus!
