//! Properties of the patch model that hold across events and functions.
use vstd::prelude::*;
use vstd::utf8::valid_utf8;

use crate::hunk::{
    apply_edit, apply_edits, edits_fit, is_boundary, next_offset,
    replace_range, shifted_end, shifted_start, Hunk, HunkEdit,
};
use crate::patch::{
    event_ok, is_listing, joined_texts, lead_in, listed_files, modified_texts, run_events, step, DiffEvent,
    FileStatus, PatchModel,
};
use crate::text::{newline_run, NEWLINE};
use crate::pathmap::key_lt;
use crate::paths::{after_first_slash, listed_name, portable_path, simple_relative_path};

verus! {

broadcast use vstd::utf8::group_utf8_lib;

/// Replacing a range that starts and ends on character boundaries of valid
/// UTF-8 by valid UTF-8 gives valid UTF-8.
pub proof fn lemma_replace_range_utf8(b: Seq<u8>, s: int, e: int, t: Seq<u8>)
    requires
        valid_utf8(b),
        valid_utf8(t),
        0 <= s <= e <= b.len(),
        is_boundary(b, s),
        is_boundary(b, e),
    ensures
        valid_utf8(replace_range(b, s, e, t)),
{
    assert(vstd::utf8::is_char_boundary(b, s)) by {
        if 0 < s < b.len() {
            vstd::utf8::is_char_boundary_iff_not_is_continuation_byte(b, s);
        } else if s == b.len() {
            vstd::utf8::is_char_boundary_start_end_of_seq(b);
        }
    }
    assert(vstd::utf8::is_char_boundary(b, e)) by {
        if 0 < e < b.len() {
            vstd::utf8::is_char_boundary_iff_not_is_continuation_byte(b, e);
        } else if e == b.len() {
            vstd::utf8::is_char_boundary_start_end_of_seq(b);
        }
    }
    vstd::utf8::valid_utf8_split(b, s);
    vstd::utf8::valid_utf8_split(b, e);
    assert(b.take(s) =~= b.subrange(0, s));
    assert(b.skip(e) =~= b.subrange(e, b.len() as int));
    vstd::utf8::valid_utf8_concat(b.take(s), t);
    vstd::utf8::valid_utf8_concat(b.take(s) + t, b.skip(e));
}

/// Whether the text of every edit is valid UTF-8.
pub open spec fn edit_texts_utf8(edits: Seq<HunkEdit>) -> bool {
    forall|i: int| 0 <= i < edits.len() ==> valid_utf8(#[trigger] edits[i].text@)
}

/// Edits that fit keep a valid UTF-8 context valid, where their texts are valid:
/// the patched text of a hunk can always be made a `String` again.
pub proof fn lemma_apply_edits_utf8(ctx: Seq<u8>, edits: Seq<HunkEdit>, offset: int)
    requires
        valid_utf8(ctx),
        edit_texts_utf8(edits),
        edits_fit(ctx, edits, offset),
    ensures
        valid_utf8(apply_edits(ctx, edits, offset)),
    decreases edits.len(),
{
    if edits.len() > 0 {
        let e = edits[0];
        assert(valid_utf8(e.text@));
        lemma_replace_range_utf8(ctx, shifted_start(e, offset), shifted_end(e, offset), e.text@);
        assert(edit_texts_utf8(edits.drop_first())) by {
            assert forall|i: int| 0 <= i < edits.drop_first().len() implies valid_utf8(
                #[trigger] edits.drop_first()[i].text@,
            ) by {
                assert(edits.drop_first()[i] == edits[i + 1]);
            }
        }
        lemma_apply_edits_utf8(apply_edit(ctx, e, offset), edits.drop_first(), next_offset(e, offset));
    }
}

/// Total length of the texts of `edits`.
pub open spec fn total_text_len(edits: Seq<HunkEdit>) -> int
    decreases edits.len(),
{
    if edits.len() == 0 {
        0
    } else {
        edits[0].text@.len() + total_text_len(edits.drop_first())
    }
}

/// Whether the ranges of `edits`, from `pos` on, follow one another in `ctx`
/// without overlapping.
pub open spec fn edits_in_order(ctx: Seq<u8>, edits: Seq<HunkEdit>, pos: int) -> bool
    decreases edits.len(),
{
    edits.len() == 0 || (pos <= edits[0].start && edits[0].start <= edits[0].end && edits[0].end
        <= ctx.len() && edits_in_order(ctx, edits.drop_first(), edits[0].end as int))
}

/// `ctx` from `pos` on, with each of `edits` putting its text in place of its
/// range, all ranges taken in `ctx` as it is.
pub open spec fn splice_edits(ctx: Seq<u8>, edits: Seq<HunkEdit>, pos: int) -> Seq<u8>
    decreases edits.len(),
{
    if edits.len() == 0 {
        ctx.skip(pos)
    } else {
        ctx.subrange(pos, edits[0].start as int) + edits[0].text@ + splice_edits(
            ctx,
            edits.drop_first(),
            edits[0].end as int,
        )
    }
}

proof fn lemma_total_text_len_nonneg(edits: Seq<HunkEdit>)
    ensures
        total_text_len(edits) >= 0,
    decreases edits.len(),
{
    if edits.len() > 0 {
        lemma_total_text_len_nonneg(edits.drop_first());
    }
}

proof fn lemma_apply_as_splice(c: Seq<u8>, a: Seq<u8>, p: int, edits: Seq<HunkEdit>)
    requires
        0 <= p <= c.len() <= isize::MAX,
        edits_in_order(c, edits, p),
        a.len() + (c.len() - p) + total_text_len(edits) <= isize::MAX,
    ensures
        apply_edits(a + c.skip(p), edits, a.len() - p) == a + splice_edits(c, edits, p),
    decreases edits.len(),
{
    lemma_total_text_len_nonneg(edits);
    if edits.len() == 0 {
    } else {
        let e = edits[0];
        let t = a + c.skip(p);
        let off = a.len() - p;
        lemma_total_text_len_nonneg(edits.drop_first());
        assert(shifted_start(e, off) == e.start + off);
        assert(shifted_end(e, off) == e.end + off);
        let a2 = a + c.subrange(p, e.start as int) + e.text@;
        assert(t.take(e.start + off) =~= a + c.subrange(p, e.start as int));
        assert(t.skip(e.end + off) =~= c.skip(e.end as int));
        assert(apply_edit(t, e, off) =~= a2 + c.skip(e.end as int));
        assert(total_text_len(edits) == e.text@.len() + total_text_len(edits.drop_first()));
        assert(off + e.text@.len() <= isize::MAX);
        assert(off >= -(c.len() as int));
        let grown = crate::text::clamp_isize(off + e.text@.len());
        assert(grown == off + e.text@.len());
        assert(crate::hunk::range_len(shifted_start(e, off), shifted_end(e, off)) == e.end - e.start);
        assert(next_offset(e, off) == a2.len() - e.end);
        lemma_apply_as_splice(c, a2, e.end as int, edits.drop_first());
        assert(a2 + splice_edits(c, edits.drop_first(), e.end as int) =~= a + splice_edits(c, edits, p));
    }
}

/// The edits of a hunk are given against its context as it was before any of
/// them: where their ranges follow one another without overlapping (and the text
/// stays far below `isize::MAX` bytes), applying them one by one with shifted
/// ranges puts each text in place of its range in the unedited context.
pub proof fn lemma_edits_use_unedited_coordinates(ctx: Seq<u8>, edits: Seq<HunkEdit>)
    requires
        edits_in_order(ctx, edits, 0),
        ctx.len() + total_text_len(edits) <= isize::MAX,
    ensures
        apply_edits(ctx, edits, 0) == splice_edits(ctx, edits, 0),
{
    let empty = Seq::<u8>::empty();
    lemma_total_text_len_nonneg(edits);
    assert(empty + ctx.skip(0) =~= ctx);
    lemma_apply_as_splice(ctx, empty, 0, edits);
    assert(empty + splice_edits(ctx, edits, 0) =~= splice_edits(ctx, edits, 0));
}

proof fn lemma_fit_from(c: Seq<u8>, a: Seq<u8>, p: int, edits: Seq<HunkEdit>)
    requires
        0 <= p <= c.len() <= isize::MAX,
        valid_utf8(c),
        edits_in_order(c, edits, p),
        forall|i: int| 0 <= i < edits.len() ==> is_boundary(c, #[trigger] edits[i].start as int)
            && is_boundary(c, edits[i].end as int),
        a.len() + (c.len() - p) + total_text_len(edits) <= isize::MAX,
    ensures
        edits_fit(a + c.skip(p), edits, a.len() - p),
    decreases edits.len(),
{
    lemma_total_text_len_nonneg(edits);
    if edits.len() > 0 {
        let e = edits[0];
        let t = a + c.skip(p);
        let off = a.len() - p;
        lemma_total_text_len_nonneg(edits.drop_first());
        assert(is_boundary(c, e.start as int) && is_boundary(c, e.end as int));
        assert(shifted_start(e, off) == e.start + off);
        assert(shifted_end(e, off) == e.end + off);
        assert forall|x: int| p <= x <= c.len() && is_boundary(c, x) implies is_boundary(t, x + off) by {
            if x < c.len() {
                assert(t[x + off] == c[x]);
                if x == 0 {
                    vstd::utf8::is_char_boundary_iff_not_is_continuation_byte(c, 0);
                } else {
                    assert(!(0x80 <= c[x] <= 0xbf));
                }
            }
        }
        let a2 = a + c.subrange(p, e.start as int) + e.text@;
        assert(t.take(e.start + off) =~= a + c.subrange(p, e.start as int));
        assert(t.skip(e.end + off) =~= c.skip(e.end as int));
        assert(apply_edit(t, e, off) =~= a2 + c.skip(e.end as int));
        assert(total_text_len(edits) == e.text@.len() + total_text_len(edits.drop_first()));
        assert(off >= -(c.len() as int));
        assert(crate::hunk::range_len(shifted_start(e, off), shifted_end(e, off)) == e.end - e.start);
        assert(next_offset(e, off) == a2.len() - e.end);
        assert forall|i: int| 0 <= i < edits.drop_first().len() implies is_boundary(c, #[trigger] edits.drop_first()[i].start as int)
            && is_boundary(c, edits.drop_first()[i].end as int) by {
            assert(edits.drop_first()[i] == edits[i + 1]);
        }
        lemma_fit_from(c, a2, e.end as int, edits.drop_first());
    }
}

/// Edits given in order, without overlapping, with both ends of every range on
/// a character boundary of valid UTF-8, fit their context (so a modified hunk
/// made of them is one the viewer can take, given its start line is below
/// `usize::MAX`).
pub proof fn lemma_in_order_edits_fit(ctx: Seq<u8>, edits: Seq<HunkEdit>)
    requires
        valid_utf8(ctx),
        edits_in_order(ctx, edits, 0),
        forall|i: int| 0 <= i < edits.len() ==> is_boundary(ctx, #[trigger] edits[i].start as int)
            && is_boundary(ctx, edits[i].end as int),
        ctx.len() + total_text_len(edits) <= isize::MAX,
    ensures
        edits_fit(ctx, edits, 0),
{
    let empty = Seq::<u8>::empty();
    lemma_total_text_len_nonneg(edits);
    assert(empty + ctx.skip(0) =~= ctx);
    lemma_fit_from(ctx, empty, 0, edits);
}

/// A modified hunk whose edits are in order, on character boundaries of its
/// valid UTF-8 context, and whose start line is below `usize::MAX`, is an event
/// the viewer can take.
pub proof fn lemma_in_order_hunk_ok(path: String, hunk: Hunk)
    requires
        valid_utf8(hunk.context@),
        edits_in_order(hunk.context@, hunk.edits@, 0),
        forall|i: int| 0 <= i < hunk.edits@.len() ==> is_boundary(hunk.context@, #[trigger] hunk.edits@[i].start as int)
            && is_boundary(hunk.context@, hunk.edits@[i].end as int),
        hunk.context@.len() + total_text_len(hunk.edits@) <= isize::MAX,
        crate::patch::hunk_start(hunk) < usize::MAX,
    ensures
        event_ok(DiffEvent::Hunk { path, hunk, status: FileStatus::Modified }),
{
    lemma_in_order_edits_fit(hunk.context@, hunk.edits@);
}

/// A run of line feeds is valid UTF-8.
pub proof fn lemma_newline_run_utf8(n: nat)
    ensures
        valid_utf8(newline_run(n)),
    decreases n,
{
    if n == 0 {
        assert(newline_run(0).len() == 0);
    } else {
        lemma_newline_run_utf8((n - 1) as nat);
        let one = seq![NEWLINE];
        assert(valid_utf8(one)) by {
            reveal_with_fuel(valid_utf8, 2);
            assert(vstd::utf8::pop_first_scalar(one) =~= Seq::<u8>::empty());
        }
        assert(newline_run((n - 1) as nat) + one =~= newline_run(n));
    }
}

/// Whether every text that the event carries is valid UTF-8.
pub open spec fn event_texts_utf8(e: DiffEvent) -> bool {
    match e {
        DiffEvent::Hunk { hunk, .. } => valid_utf8(hunk.context@) && edit_texts_utf8(hunk.edits@),
        _ => true,
    }
}

/// Whether every text of every file in `files` is valid UTF-8.
pub open spec fn files_utf8(files: Map<Seq<char>, (Seq<u8>, Seq<u8>)>) -> bool {
    forall|k: Seq<char>| #[trigger] files.dom().contains(k) ==> valid_utf8(files[k].0) && valid_utf8(files[k].1)
}

proof fn lemma_joined_texts_utf8(edits: Seq<HunkEdit>)
    requires
        edit_texts_utf8(edits),
    ensures
        valid_utf8(joined_texts(edits)),
    decreases edits.len(),
{
    if edits.len() == 0 {
        assert(joined_texts(edits).len() == 0);
    } else {
        assert(edit_texts_utf8(edits.drop_last())) by {
            assert forall|i: int| 0 <= i < edits.drop_last().len() implies valid_utf8(
                #[trigger] edits.drop_last()[i].text@,
            ) by {
                assert(edits.drop_last()[i] == edits[i]);
            }
        }
        lemma_joined_texts_utf8(edits.drop_last());
        assert(valid_utf8(edits[edits.len() - 1].text@));
    }
}

/// One event keeps all texts valid UTF-8 where its own texts are.
pub proof fn lemma_step_utf8(m: PatchModel, e: DiffEvent)
    requires
        files_utf8(m.files),
        event_ok(e),
        event_texts_utf8(e),
    ensures
        files_utf8(step(m, e).files),
{
    let m2 = step(m, e);
    match e {
        DiffEvent::Hunk { path, hunk, status } => match status {
            FileStatus::Modified => {
                let prev = if m.files.dom().contains(path@) {
                    m.files[path@]
                } else {
                    (Seq::<u8>::empty(), Seq::<u8>::empty())
                };
                assert(valid_utf8(prev.0) && valid_utf8(prev.1)) by {
                    if !m.files.dom().contains(path@) {
                        assert(prev.0.len() == 0);
                    }
                }
                let lead = lead_in(prev.0, hunk);
                lemma_newline_run_utf8((lead.len()) as nat);
                assert(lead =~= newline_run(lead.len() as nat));
                lemma_apply_edits_utf8(hunk.context@, hunk.edits@, 0);
                vstd::utf8::valid_utf8_concat(prev.0, lead);
                vstd::utf8::valid_utf8_concat(prev.0 + lead, hunk.context@);
                vstd::utf8::valid_utf8_concat(prev.1, lead);
                vstd::utf8::valid_utf8_concat(prev.1 + lead, apply_edits(hunk.context@, hunk.edits@, 0));
                assert(files_utf8(m2.files));
            },
            FileStatus::Created => {
                lemma_joined_texts_utf8(hunk.edits@);
                assert(valid_utf8(Seq::<u8>::empty()));
                assert(files_utf8(m2.files));
            },
            FileStatus::Deleted => {
                assert(valid_utf8(Seq::<u8>::empty()));
                assert(files_utf8(m2.files));
            },
        },
        DiffEvent::FileEnd { renamed_to } => {
            assert(files_utf8(m2.files));
        },
    }
}

/// Running the events of a diff whose texts are all valid UTF-8 gives files
/// whose old and new texts are all valid UTF-8.
pub proof fn lemma_run_events_utf8(events: Seq<DiffEvent>)
    requires
        forall|i: int| 0 <= i < events.len() ==> #[trigger] event_ok(events[i]),
        forall|i: int| 0 <= i < events.len() ==> #[trigger] event_texts_utf8(events[i]),
    ensures
        files_utf8(run_events(events).files),
    decreases events.len(),
{
    if events.len() > 0 {
        let init = events.drop_last();
        assert forall|i: int| 0 <= i < init.len() implies #[trigger] event_ok(init[i]) && event_texts_utf8(init[i]) by {
            assert(init[i] == events[i]);
            assert(event_ok(events[i]) && event_texts_utf8(events[i]));
        }
        lemma_run_events_utf8(init);
        assert(event_ok(events[events.len() - 1]));
        assert(event_texts_utf8(events[events.len() - 1]));
        lemma_step_utf8(run_events(init), events.last());
    }
}

/// The files as listed carry the texts of the files they were listed from, so
/// listing keeps them valid UTF-8.
pub proof fn lemma_listed_files_utf8(
    files: Map<Seq<char>, (Seq<u8>, Seq<u8>)>,
    keys: Seq<Seq<char>>,
    listed: Seq<Seq<char>>,
)
    requires
        files_utf8(files),
        forall|i: int| 0 <= i < keys.len() ==> files.dom().contains(#[trigger] keys[i]),
    ensures
        forall|k: Seq<char>| #[trigger] listed_files(files, keys, listed).dom().contains(k) ==> {
            let f = listed_files(files, keys, listed)[k];
            &&& files.dom().contains(f.0)
            &&& valid_utf8(f.1)
            &&& valid_utf8(f.2)
        },
    decreases keys.len(),
{
    if keys.len() > 0 && listed.len() > 0 {
        assert forall|i: int| 0 <= i < keys.drop_last().len() implies files.dom().contains(
            #[trigger] keys.drop_last()[i],
        ) by {
            assert(keys.drop_last()[i] == keys[i]);
        }
        lemma_listed_files_utf8(files, keys.drop_last(), listed.drop_last());
        let last = keys[keys.len() - 1];
        assert(files.dom().contains(last));
        assert(valid_utf8(files[last].0) && valid_utf8(files[last].1));
        let prior = listed_files(files, keys.drop_last(), listed.drop_last());
        assert forall|k: Seq<char>| #[trigger] listed_files(files, keys, listed).dom().contains(k) implies {
            let f = listed_files(files, keys, listed)[k];
            &&& files.dom().contains(f.0)
            &&& valid_utf8(f.1)
            &&& valid_utf8(f.2)
        } by {
            if k != listed.last() {
                assert(prior.dom().contains(k));
            }
        }
    }
}

/// Where every text of a diff is valid UTF-8, every file that `load_entries`
/// lists from it has valid UTF-8 texts, so both texts can be made `String`s.
pub proof fn lemma_load_entries_utf8(
    events: Seq<DiffEvent>,
    r: Map<Seq<char>, (Seq<char>, Seq<u8>, Seq<u8>)>,
)
    requires
        forall|i: int| 0 <= i < events.len() ==> #[trigger] event_ok(events[i]),
        forall|i: int| 0 <= i < events.len() ==> #[trigger] event_texts_utf8(events[i]),
        is_listing(run_events(events).files, r),
    ensures
        forall|k: Seq<char>| #[trigger] r.dom().contains(k) ==> valid_utf8(r[k].1) && valid_utf8(r[k].2),
{
    let files = run_events(events).files;
    let (keys, listed) = choose|keys: Seq<Seq<char>>, listed: Seq<Seq<char>>|
        {
            &&& crate::patch::increasing(keys)
            &&& keys.to_set() == files.dom()
            &&& listed.len() == keys.len()
            &&& crate::patch::listed_by_name(keys, listed)
            &&& r == listed_files(files, keys, listed)
        };
    lemma_run_events_utf8(events);
    assert forall|i: int| 0 <= i < keys.len() implies files.dom().contains(#[trigger] keys[i]) by {
        assert(keys.to_set().contains(keys[i]));
    }
    lemma_listed_files_utf8(files, keys, listed);
}

/// The listing of files holds exactly the listing paths.
pub proof fn lemma_listed_files_dom(
    files: Map<Seq<char>, (Seq<u8>, Seq<u8>)>,
    keys: Seq<Seq<char>>,
    listed: Seq<Seq<char>>,
)
    requires
        listed.len() == keys.len(),
    ensures
        forall|k: Seq<char>| #[trigger] listed_files(files, keys, listed).dom().contains(k) <==> listed.contains(k),
    decreases keys.len(),
{
    if keys.len() > 0 {
        lemma_listed_files_dom(files, keys.drop_last(), listed.drop_last());
        let prior = listed_files(files, keys.drop_last(), listed.drop_last());
        assert(listed_files(files, keys, listed) == prior.insert(
            listed.last(),
            (keys.last(), files[keys.last()].0, files[keys.last()].1),
        ));
        assert forall|k: Seq<char>| #[trigger] listed_files(files, keys, listed).dom().contains(k) <==> listed.contains(k) by {
            if k != listed.last() && prior.dom().contains(k) {
                assert(listed.drop_last().contains(k));
            }
            if listed.drop_last().contains(k) {
                let j = choose|j: int| 0 <= j < listed.drop_last().len() && listed.drop_last()[j] == k;
                assert(listed[j] == k);
            }
            if listed.contains(k) && k != listed.last() {
                let j = choose|j: int| 0 <= j < listed.len() && listed[j] == k;
                assert(j != listed.len() - 1);
                assert(listed.drop_last()[j] == k);
            }
            if k == listed.last() {
                assert(listed[listed.len() - 1] == k);
            }
        }
    } else {
        assert forall|k: Seq<char>| #[trigger] listed_files(files, keys, listed).dom().contains(k) <==> listed.contains(k) by {
            if listed.contains(k) {
                let j = choose|j: int| 0 <= j < listed.len() && listed[j] == k;
            }
        }
    }
}

/// Under a listing path, the listing holds the last file (in key order) listed
/// under it.
pub proof fn lemma_listed_files_value(
    files: Map<Seq<char>, (Seq<u8>, Seq<u8>)>,
    keys: Seq<Seq<char>>,
    listed: Seq<Seq<char>>,
    i: int,
)
    requires
        listed.len() == keys.len(),
        0 <= i < keys.len(),
        forall|j: int| i < j < keys.len() ==> #[trigger] listed[j] != listed[i],
    ensures
        listed_files(files, keys, listed).dom().contains(listed[i]),
        listed_files(files, keys, listed)[listed[i]] == (keys[i], files[keys[i]].0, files[keys[i]].1),
    decreases keys.len(),
{
    if i < keys.len() - 1 {
        assert forall|j: int| i < j < keys.drop_last().len() implies #[trigger] listed.drop_last()[j] != listed.drop_last()[i] by {
            assert(listed.drop_last()[j] == listed[j]);
        }
        lemma_listed_files_value(files, keys.drop_last(), listed.drop_last(), i);
        assert(listed[keys.len() - 1] != listed[i]);
    }
}

/// The file at a plain relative path `key` is listed under what follows the
/// first `/` of `key` (`patch -p1`), with its own texts and `key` as its source
/// path, where no file after it in key order is listed under the same path
/// (each of those has a portable path and another listing path).
pub proof fn lemma_listed_under_stripped_path(
    files: Map<Seq<char>, (Seq<u8>, Seq<u8>)>,
    r: Map<Seq<char>, (Seq<char>, Seq<u8>, Seq<u8>)>,
    key: Seq<char>,
)
    requires
        is_listing(files, r),
        files.dom().contains(key),
        simple_relative_path(key),
        forall|k: Seq<char>| #[trigger] files.dom().contains(k) && key_lt(key, k) ==> portable_path(k)
            && listed_name(k) != after_first_slash(key),
    ensures
        r.dom().contains(after_first_slash(key)),
        r[after_first_slash(key)] == (key, files[key].0, files[key].1),
{
    let (keys, listed) = choose|keys: Seq<Seq<char>>, listed: Seq<Seq<char>>|
        {
            &&& crate::patch::increasing(keys)
            &&& keys.to_set() == files.dom()
            &&& listed.len() == keys.len()
            &&& crate::patch::listed_by_name(keys, listed)
            &&& r == listed_files(files, keys, listed)
        };
    crate::paths::lemma_simple_path(key);
    assert(keys.to_set().contains(key));
    let i = choose|i: int| 0 <= i < keys.len() && keys[i] == key;
    assert(portable_path(keys[i]));
    assert(listed[i] == after_first_slash(key));
    assert forall|j: int| i < j < keys.len() implies #[trigger] listed[j] != listed[i] by {
        assert(key_lt(keys[i], keys[j]));
        assert(keys.to_set().contains(keys[j]));
        assert(portable_path(keys[j]));
    }
    lemma_listed_files_value(files, keys, listed, i);
}

/// Where every path of the files is portable, the listing's paths are exactly
/// the files' `listed_name`s.
pub proof fn lemma_listing_paths(
    files: Map<Seq<char>, (Seq<u8>, Seq<u8>)>,
    r: Map<Seq<char>, (Seq<char>, Seq<u8>, Seq<u8>)>,
)
    requires
        is_listing(files, r),
        forall|k: Seq<char>| #[trigger] files.dom().contains(k) ==> portable_path(k),
    ensures
        forall|n: Seq<char>| #[trigger] r.dom().contains(n) <==> exists|k: Seq<char>|
            files.dom().contains(k) && listed_name(k) == n,
{
    let (keys, listed) = choose|keys: Seq<Seq<char>>, listed: Seq<Seq<char>>|
        {
            &&& crate::patch::increasing(keys)
            &&& keys.to_set() == files.dom()
            &&& listed.len() == keys.len()
            &&& crate::patch::listed_by_name(keys, listed)
            &&& r == listed_files(files, keys, listed)
        };
    lemma_listed_files_dom(files, keys, listed);
    assert forall|n: Seq<char>| #[trigger] r.dom().contains(n) <==> exists|k: Seq<char>|
        files.dom().contains(k) && listed_name(k) == n by {
        if r.dom().contains(n) {
            let j = choose|j: int| 0 <= j < listed.len() && listed[j] == n;
            assert(keys.to_set().contains(keys[j]));
            assert(portable_path(keys[j]));
            assert(files.dom().contains(keys[j]) && listed_name(keys[j]) == n);
        }
        if exists|k: Seq<char>| files.dom().contains(k) && listed_name(k) == n {
            let k = choose|k: Seq<char>| files.dom().contains(k) && listed_name(k) == n;
            assert(keys.to_set().contains(k));
            let j = choose|j: int| 0 <= j < keys.len() && keys[j] == k;
            assert(portable_path(keys[j]));
            assert(listed[j] == n);
            assert(listed.contains(n));
        }
    }
}

/// No more files are listed than the diff has paths: the title's file count
/// is at most the number of files the events name.
pub proof fn lemma_listed_files_count(
    files: Map<Seq<char>, (Seq<u8>, Seq<u8>)>,
    keys: Seq<Seq<char>>,
    listed: Seq<Seq<char>>,
)
    ensures
        listed_files(files, keys, listed).dom().finite(),
        listed_files(files, keys, listed).dom().len() <= keys.len(),
    decreases keys.len(),
{
    if keys.len() > 0 && listed.len() > 0 {
        lemma_listed_files_count(files, keys.drop_last(), listed.drop_last());
    }
}

/// A rename at the end of a file's diff moves the texts that the file's
/// modified hunks built to the new path; the old path is gone, and no file is
/// current any more.
pub proof fn lemma_rename_moves_texts(m: PatchModel, path: String, hunk: Hunk, new_name: String)
    ensures
        ({
            let m1 = step(m, DiffEvent::Hunk { path, hunk, status: FileStatus::Modified });
            let m2 = step(m1, DiffEvent::FileEnd { renamed_to: Some(new_name) });
            &&& m2.files.dom().contains(new_name@)
            &&& m2.files[new_name@] == m1.files[path@]
            &&& path@ != new_name@ ==> !m2.files.dom().contains(path@)
            &&& m2.current is None
            &&& forall|k: Seq<char>| k != path@ && k != new_name@ ==> (#[trigger] m2.files.dom().contains(k)
                <==> m.files.dom().contains(k))
        }),
{
}

/// The end of a file's diff without a rename changes nothing.
pub proof fn lemma_file_end_without_rename(m: PatchModel)
    ensures
        step(m, DiffEvent::FileEnd { renamed_to: None }) == m,
{
}

/// A created file has no old text, and its new text is the texts of the hunk's
/// edits one after another; a deleted file keeps the hunk's context as its old
/// text and has no new text. Neither changes which file is current.
pub proof fn lemma_created_and_deleted(m: PatchModel, path: String, hunk: Hunk)
    ensures
        ({
            let c = step(m, DiffEvent::Hunk { path, hunk, status: FileStatus::Created });
            &&& c.files.dom().contains(path@)
            &&& c.files[path@] == (Seq::<u8>::empty(), joined_texts(hunk.edits@))
            &&& c.current == m.current
        }),
        ({
            let d = step(m, DiffEvent::Hunk { path, hunk, status: FileStatus::Deleted });
            &&& d.files.dom().contains(path@)
            &&& d.files[path@] == (hunk.context@, Seq::<u8>::empty())
            &&& d.current == m.current
        }),
{
}

/// A modified hunk adds the same run of line feeds, and then the hunk's text, to
/// both texts of its file, so the hunk's old and new text start on the same line.
pub proof fn lemma_modified_hunk_lines_up(m: PatchModel, path: String, hunk: Hunk)
    ensures
        ({
            let prev = if m.files.dom().contains(path@) {
                m.files[path@]
            } else {
                (Seq::<u8>::empty(), Seq::<u8>::empty())
            };
            let lead = lead_in(prev.0, hunk);
            let s = step(m, DiffEvent::Hunk { path, hunk, status: FileStatus::Modified });
            &&& s.files[path@] == modified_texts(prev, hunk)
            &&& s.files[path@].0 == prev.0 + lead + hunk.context@
            &&& s.files[path@].1 == prev.1 + lead + apply_edits(hunk.context@, hunk.edits@, 0)
            &&& lead.len() >= 1
            &&& s.current == Some(path@)
        }),
{
}

} // verus!
