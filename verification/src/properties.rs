//! What the operations are for, stated over their inputs and results in plain
//! terms: every event of a diff counts, a modified hunk is padded down to its
//! start line, a created file holds its edit texts one after another, the
//! signature is cut at its last marker whatever follows it, and the title
//! counts files in decimal with a plural for every count but one.
use vstd::prelude::*;

use crate::hunk::{apply_edits, Hunk, HunkEdit};
use crate::patch::{joined_texts, run_events, step, DiffEvent, FileStatus, PatchModel};
use crate::text::{last_marker, last_marker_below, lemma_last_marker_below, line_count, marker_at,
    newline_count, without_signature, NEWLINE};
use crate::view::{decimal, digit_char, title_text};

verus! {

/// Running one more event steps the state by that event: no event of a diff
/// is left out, however many come before it.
pub proof fn lemma_run_one_more_event(events: Seq<DiffEvent>, e: DiffEvent)
    ensures
        run_events(events.push(e)) == step(run_events(events), e),
{
    assert(events.push(e).drop_last() =~= events);
}

/// After any events, a hunk of a file (modified, created or deleted) leaves that
/// file among the files, whatever came before it.
pub proof fn lemma_last_hunk_file_is_listed(
    events: Seq<DiffEvent>,
    path: String,
    hunk: Hunk,
    status: FileStatus,
)
    ensures
        run_events(events.push(DiffEvent::Hunk { path, hunk, status })).files.dom().contains(path@),
{
    lemma_run_one_more_event(events, DiffEvent::Hunk { path, hunk, status });
}

/// `k` line feeds.
pub open spec fn line_feeds(k: nat) -> Seq<u8> {
    Seq::new(k, |i: int| 10u8)
}

/// A modified hunk puts, before its text, as many line feeds as its start line
/// (0 when unknown) exceeds the lines the old text already has, and one more;
/// the old text gets the hunk's context and the new text its edited context.
pub proof fn lemma_modified_hunk_padding(m: PatchModel, path: String, hunk: Hunk)
    ensures
        ({
            let prev = if m.files.dom().contains(path@) {
                m.files[path@]
            } else {
                (Seq::<u8>::empty(), Seq::<u8>::empty())
            };
            let start: int = match hunk.start_line {
                Some(n) => n as int,
                None => 0,
            };
            let missing: int = if start > line_count(prev.0) {
                start - line_count(prev.0)
            } else {
                0
            };
            let pad = line_feeds((missing + 1) as nat);
            let s = step(m, DiffEvent::Hunk { path, hunk, status: FileStatus::Modified });
            &&& s.files.dom().contains(path@)
            &&& s.files[path@].0 == prev.0 + pad + hunk.context@
            &&& s.files[path@].1 == prev.1 + pad + apply_edits(hunk.context@, hunk.edits@, 0)
            &&& pad.len() == missing + 1
            &&& forall|i: int| 0 <= i < pad.len() ==> pad[i] == NEWLINE
        }),
{
    let prev = if m.files.dom().contains(path@) {
        m.files[path@]
    } else {
        (Seq::<u8>::empty(), Seq::<u8>::empty())
    };
    let start: int = match hunk.start_line {
        Some(n) => n as int,
        None => 0,
    };
    let missing: int = if start > line_count(prev.0) {
        start - line_count(prev.0)
    } else {
        0
    };
    assert(crate::patch::lead_in(prev.0, hunk) =~= line_feeds((missing + 1) as nat));
}

/// Lines as `str::lines` counts them: none in empty text, and one more for each
/// line (a non-empty run of bytes with a line feed, if any, only at its end)
/// put after text that is empty or ends with a line feed.
pub proof fn lemma_line_count_counts_lines(s: Seq<u8>, line: Seq<u8>)
    requires
        s.len() == 0 || s.last() == NEWLINE,
        line.len() > 0,
        forall|i: int| 0 <= i < line.len() - 1 ==> line[i] != NEWLINE,
    ensures
        line_count(Seq::<u8>::empty()) == 0,
        line_count(s + line) == line_count(s) + 1,
{
    lemma_newline_count_concat(s, line);
    lemma_newline_count_one_line(line);
    if s.len() > 0 {
        assert(s.drop_last() + seq![s.last()] =~= s);
        assert(newline_count(s) == newline_count(s.drop_last()) + 1);
    }
}

proof fn lemma_newline_count_concat(a: Seq<u8>, b: Seq<u8>)
    ensures
        newline_count(a + b) == newline_count(a) + newline_count(b),
    decreases b.len(),
{
    if b.len() == 0 {
        assert(a + b =~= a);
    } else {
        assert((a + b).drop_last() =~= a + b.drop_last());
        assert((a + b).last() == b.last());
        lemma_newline_count_concat(a, b.drop_last());
    }
}

proof fn lemma_newline_count_one_line(line: Seq<u8>)
    requires
        forall|i: int| 0 <= i < line.len() - 1 ==> line[i] != NEWLINE,
    ensures
        newline_count(line) == if line.len() > 0 && line.last() == NEWLINE {
            1nat
        } else {
            0nat
        },
{
    if line.len() > 0 {
        lemma_no_newlines(line.drop_last());
    }
}

proof fn lemma_no_newlines(s: Seq<u8>)
    requires
        forall|i: int| 0 <= i < s.len() ==> s[i] != NEWLINE,
    ensures
        newline_count(s) == 0,
    decreases s.len(),
{
    if s.len() > 0 {
        lemma_no_newlines(s.drop_last());
    }
}

/// The texts of edits, one after another: one more edit adds exactly its text
/// at the end, and no edits give no text.
pub proof fn lemma_joined_texts_append(edits: Seq<HunkEdit>, e: HunkEdit)
    ensures
        joined_texts(Seq::<HunkEdit>::empty()) == Seq::<u8>::empty(),
        joined_texts(edits.push(e)) == joined_texts(edits) + e.text@,
        joined_texts(edits.push(e)).len() == joined_texts(edits).len() + e.text@.len(),
{
    assert(edits.push(e).drop_last() =~= edits);
}

/// A created file has no old text, and as new text the text of its hunk's
/// edits one after another; with a single edit, exactly that edit's text.
pub proof fn lemma_created_file_text(m: PatchModel, path: String, hunk: Hunk)
    ensures
        ({
            let s = step(m, DiffEvent::Hunk { path, hunk, status: FileStatus::Created });
            &&& s.files.dom().contains(path@)
            &&& s.files[path@].0 == Seq::<u8>::empty()
            &&& hunk.edits@.len() == 1 ==> s.files[path@].1 == hunk.edits@[0].text@
            &&& hunk.edits@.len() == 0 ==> s.files[path@].1 == Seq::<u8>::empty()
        }),
{
    if hunk.edits@.len() == 1 {
        assert(hunk.edits@.drop_last() =~= Seq::<HunkEdit>::empty());
        assert(joined_texts(Seq::<HunkEdit>::empty()) == Seq::<u8>::empty());
        assert(joined_texts(hunk.edits@) == joined_texts(hunk.edits@.drop_last()) + hunk.edits@.last().text@);
        assert(Seq::<u8>::empty() + hunk.edits@[0].text@ =~= hunk.edits@[0].text@);
    }
}

/// The signature is cut at its last marker, whatever follows that marker: the
/// result is exactly the bytes before the last `-- \n`.
pub proof fn lemma_signature_cut_at_last_marker(b: Seq<u8>, i: int)
    requires
        marker_at(b, i),
        forall|j: int| i < j ==> !marker_at(b, j),
    ensures
        without_signature(b) == b.take(i),
{
    lemma_last_marker_below(b, b.len() as int);
    match last_marker(b) {
        Some(k) => {
            if k < i {
                assert(i < b.len());
            }
            assert(k == i);
        },
        None => {
            assert(i < b.len());
        },
    }
}

/// A patch without the marker comes back whole.
pub proof fn lemma_no_marker_no_cut(b: Seq<u8>)
    requires
        forall|j: int| !marker_at(b, j),
    ensures
        without_signature(b) == b,
{
    lemma_last_marker_below(b, b.len() as int);
}

/// The value of a run of decimal digits.
pub open spec fn digits_value(s: Seq<char>) -> int
    decreases s.len(),
{
    if s.len() == 0 {
        0
    } else {
        digits_value(s.drop_last()) * 10 + (s.last() as int - '0' as int)
    }
}

/// `decimal(n)` writes `n`: only the digits `0` to `9`, whose value is `n`,
/// without a leading zero.
pub proof fn lemma_decimal_writes_number(n: nat)
    ensures
        decimal(n).len() >= 1,
        forall|i: int| 0 <= i < decimal(n).len() ==> '0' <= #[trigger] decimal(n)[i] <= '9',
        digits_value(decimal(n)) == n,
        decimal(n).len() > 1 ==> decimal(n)[0] != '0',
        n < 10 ==> decimal(n).len() == 1,
    decreases n,
{
    if n < 10 {
        assert(digit_char(n) as int - '0' as int == n);
        assert(decimal(n).drop_last() =~= Seq::<char>::empty());
        lemma_one_digit(decimal(n));
    } else {
        lemma_decimal_writes_number(n / 10);
        let d = decimal(n);
        assert(d == decimal(n / 10) + seq![digit_char(n % 10)]);
        assert(d.drop_last() =~= decimal(n / 10));
        assert(digit_char(n % 10) as int - '0' as int == n % 10);
        assert(digits_value(d) == digits_value(decimal(n / 10)) * 10 + (n % 10));
        assert((n / 10) * 10 + n % 10 == n) by (nonlinear_arith);
        assert forall|i: int| 0 <= i < d.len() implies '0' <= #[trigger] d[i] <= '9' by {
            if i < d.len() - 1 {
                assert(d[i] == decimal(n / 10)[i]);
            }
        }
        assert(d[0] == decimal(n / 10)[0]);
        if decimal(n / 10).len() == 1 {
            assert(n / 10 >= 1) by (nonlinear_arith)
                requires
                    n >= 10,
            ;
            lemma_one_digit(decimal(n / 10));
        }
    }
}

proof fn lemma_one_digit(s: Seq<char>)
    requires
        s.len() == 1,
    ensures
        digits_value(s) == s[0] as int - '0' as int,
{
    assert(s.drop_last() =~= Seq::<char>::empty());
    assert(digits_value(Seq::<char>::empty()) == 0);
    assert(0int * 10 == 0);
}

/// The title names the file count in decimal, with `files` for every count but
/// one and `1 file` for one.
pub proof fn lemma_title_counts_files(patch_filename: Option<Seq<char>>, n: nat)
    ensures
        ({
            let name = match patch_filename {
                Some(f) => f,
                None => "Patch Diff"@,
            };
            &&& n != 1 ==> title_text(patch_filename, n) == name + " ("@ + decimal(n) + " files"@ + ")"@
            &&& n == 1 ==> title_text(patch_filename, n) == name + " ("@ + "1 file"@ + ")"@
        }),
{
}

} // verus!
