//! Hunks of a unified diff and the application of a hunk's edits to its context.
//!
//! The edits of a hunk are given against the hunk's context as it was before any
//! of them; each edit's byte range is shifted by how much the earlier edits grew
//! or shrank the text, with saturating arithmetic.
use vstd::prelude::*;

use crate::text::{clamp_isize, clamp_usize, saturating_add_signed, saturating_add_unsigned,
    saturating_sub_unsigned};

verus! {

/// One edit of a hunk: the bytes `start..end` of the context are replaced by `text`.
pub struct HunkEdit {
    pub start: usize,
    pub end: usize,
    pub text: Vec<u8>,
}

/// A hunk of a file's diff: the text it covers, the edits that turn that text
/// into the new text, and the line of the old file where it starts, if known.
pub struct Hunk {
    pub context: Vec<u8>,
    pub edits: Vec<HunkEdit>,
    pub start_line: Option<u32>,
}

/// Whether byte `i` of `b` starts a character (or is the end of `b`), as
/// `str::is_char_boundary` decides it.
pub open spec fn is_boundary(b: Seq<u8>, i: int) -> bool {
    i == 0 || i == b.len() || (0 < i < b.len() && !(0x80 <= b[i] <= 0xbf))
}

/// Start of `e`'s range after shifting it by `offset`.
pub open spec fn shifted_start(e: HunkEdit, offset: int) -> int {
    clamp_usize(e.start + offset)
}

/// End of `e`'s range after shifting it by `offset`.
pub open spec fn shifted_end(e: HunkEdit, offset: int) -> int {
    clamp_usize(e.end + offset)
}

/// Length of the range `start..end` (`Range::len`).
pub open spec fn range_len(start: int, end: int) -> int {
    if start < end {
        end - start
    } else {
        0
    }
}

/// The offset for the edits after `e`, given the offset `e` was shifted by.
pub open spec fn next_offset(e: HunkEdit, offset: int) -> int {
    clamp_isize(
        clamp_isize(offset + e.text@.len()) - range_len(
            shifted_start(e, offset),
            shifted_end(e, offset),
        ),
    )
}

/// `b` with the bytes `start..end` replaced by `t` (`String::replace_range`).
pub open spec fn replace_range(b: Seq<u8>, start: int, end: int, t: Seq<u8>) -> Seq<u8> {
    b.take(start) + t + b.skip(end)
}

/// Whether `e`, shifted by `offset`, is a range that `String::replace_range`
/// accepts on `ctx`: in order, in bounds, and on character boundaries.
pub open spec fn edit_fits(ctx: Seq<u8>, e: HunkEdit, offset: int) -> bool {
    let s = shifted_start(e, offset);
    let t = shifted_end(e, offset);
    &&& s <= t <= ctx.len()
    &&& is_boundary(ctx, s)
    &&& is_boundary(ctx, t)
}

/// `ctx` after the edit `e`, shifted by `offset`.
pub open spec fn apply_edit(ctx: Seq<u8>, e: HunkEdit, offset: int) -> Seq<u8> {
    replace_range(ctx, shifted_start(e, offset), shifted_end(e, offset), e.text@)
}

/// Whether every edit of `edits`, applied in order from `offset` on, fits.
pub open spec fn edits_fit(ctx: Seq<u8>, edits: Seq<HunkEdit>, offset: int) -> bool
    decreases edits.len(),
{
    edits.len() == 0 || (edit_fits(ctx, edits[0], offset) && edits_fit(
        apply_edit(ctx, edits[0], offset),
        edits.drop_first(),
        next_offset(edits[0], offset),
    ))
}

/// `ctx` after all `edits`, in order, the first shifted by `offset`.
pub open spec fn apply_edits(ctx: Seq<u8>, edits: Seq<HunkEdit>, offset: int) -> Seq<u8>
    decreases edits.len(),
{
    if edits.len() == 0 {
        ctx
    } else {
        apply_edits(
            apply_edit(ctx, edits[0], offset),
            edits.drop_first(),
            next_offset(edits[0], offset),
        )
    }
}

/// The new text of a hunk: its context after all its edits.
pub open spec fn patched_context(h: Hunk) -> Seq<u8> {
    apply_edits(h.context@, h.edits@, 0)
}

/// Whether all edits of the hunk fit its context.
pub open spec fn hunk_fits(h: Hunk) -> bool {
    edits_fit(h.context@, h.edits@, 0)
}

/// `b` with the bytes `start..end` replaced by `t`.
pub fn replace_bytes(b: &Vec<u8>, start: usize, end: usize, t: &Vec<u8>) -> (r: Vec<u8>)
    requires
        start <= end <= b@.len(),
    ensures
        r@ == replace_range(b@, start as int, end as int, t@),
{
    let mut r: Vec<u8> = Vec::new();
    let mut i: usize = 0;
    while i < start
        invariant
            start <= end <= b@.len(),
            i <= start,
            r@ =~= b@.take(i as int),
        decreases start - i,
    {
        r.push(b[i]);
        i = i + 1;
    }
    let tlen = t.len();
    let mut j: usize = 0;
    while j < tlen
        invariant
            tlen == t@.len(),
            j <= tlen,
            r@ =~= b@.take(start as int) + t@.take(j as int),
        decreases tlen - j,
    {
        r.push(t[j]);
        j = j + 1;
    }
    assert(t@.take(tlen as int) =~= t@);
    let blen = b.len();
    let mut k: usize = end;
    while k < blen
        invariant
            start <= end <= k <= blen,
            blen == b@.len(),
            r@ =~= b@.take(start as int) + t@ + b@.subrange(end as int, k as int),
        decreases blen - k,
    {
        r.push(b[k]);
        k = k + 1;
    }
    r
}

/// Whether the edit `e`, shifted by `offset`, fits `ctx` (see `edit_fits`).
pub fn edit_fits_exec(ctx: &Vec<u8>, e: &HunkEdit, offset: isize) -> (ok: bool)
    ensures
        ok == edit_fits(ctx@, *e, offset as int),
{
    let s = saturating_add_signed(e.start, offset);
    let t = saturating_add_signed(e.end, offset);
    let len = ctx.len();
    if s > t || t > len {
        return false;
    }
    let s_ok = s == 0 || s == len || !(0x80 <= ctx[s] && ctx[s] <= 0xbf);
    let t_ok = t == 0 || t == len || !(0x80 <= ctx[t] && ctx[t] <= 0xbf);
    s_ok && t_ok
}

/// Applies `edits` to `context` in order, shifting each edit's range by the
/// growth of the text so far, as the patch viewer does with a hunk's edits.
pub fn apply_hunk_edits(context: Vec<u8>, edits: &Vec<HunkEdit>) -> (r: Vec<u8>)
    requires
        edits_fit(context@, edits@, 0),
    ensures
        r@ == apply_edits(context@, edits@, 0),
{
    let mut ctx = context;
    let mut offset: isize = 0;
    let n = edits.len();
    let mut i: usize = 0;
    assert(edits@.skip(0) =~= edits@);
    while i < n
        invariant
            n == edits@.len(),
            i <= n,
            edits_fit(ctx@, edits@.skip(i as int), offset as int),
            apply_edits(ctx@, edits@.skip(i as int), offset as int) == apply_edits(
                context@,
                edits@,
                0,
            ),
        decreases n - i,
    {
        let e = &edits[i];
        proof {
            assert(edits@.skip(i as int)[0] == edits@[i as int]);
            assert(edits@.skip(i as int).drop_first() =~= edits@.skip(i + 1));
        }
        let s = saturating_add_signed(e.start, offset);
        let t = saturating_add_signed(e.end, offset);
        let grown = saturating_add_unsigned(offset, e.text.len());
        let len = if s < t {
            t - s
        } else {
            0
        };
        let next = saturating_sub_unsigned(grown, len);
        ctx = replace_bytes(&ctx, s, t, &e.text);
        offset = next;
        i = i + 1;
    }
    ctx
}

/// Whether all edits of `edits`, applied in order, fit `context`; a hunk whose
/// edits do not fit makes `String::replace_range` panic.
pub fn edits_fit_exec(context: &Vec<u8>, edits: &Vec<HunkEdit>) -> (ok: bool)
    ensures
        ok == edits_fit(context@, edits@, 0),
{
    let mut ctx = context.clone();
    let mut offset: isize = 0;
    let n = edits.len();
    let mut i: usize = 0;
    assert(edits@.skip(0) =~= edits@);
    while i < n
        invariant
            n == edits@.len(),
            i <= n,
            edits_fit(ctx@, edits@.skip(i as int), offset as int) == edits_fit(
                context@,
                edits@,
                0,
            ),
        decreases n - i,
    {
        let e = &edits[i];
        proof {
            assert(edits@.skip(i as int)[0] == edits@[i as int]);
            assert(edits@.skip(i as int).drop_first() =~= edits@.skip(i + 1));
        }
        if !edit_fits_exec(&ctx, e, offset) {
            return false;
        }
        let s = saturating_add_signed(e.start, offset);
        let t = saturating_add_signed(e.end, offset);
        let grown = saturating_add_unsigned(offset, e.text.len());
        let len = if s < t {
            t - s
        } else {
            0
        };
        let next = saturating_sub_unsigned(grown, len);
        ctx = replace_bytes(&ctx, s, t, &e.text);
        offset = next;
        i = i + 1;
    }
    true
}

impl Hunk {
    /// Whether all of this hunk's edits fit its context (see `hunk_fits`).
    pub fn edits_fit(&self) -> (ok: bool)
        ensures
            ok == hunk_fits(*self),
    {
        edits_fit_exec(&self.context, &self.edits)
    }
}

} // verus!
