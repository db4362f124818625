//! Turning the events of a parsed unified diff into the old and new text of each
//! file that the patch touches.
use vstd::prelude::*;

use crate::hunk::{apply_hunk_edits, hunk_fits, patched_context, Hunk, HunkEdit};
use crate::pathmap::{key_lt, PathEntry, PathMap};
use crate::paths::{
    after_first_slash, listed_name, path_components, portable_path, simple_relative_path,
    string_views,
};
use crate::text::{append_bytes, count_lines, line_count, newline_run, push_newlines};

verus! {

/// What a file's diff does to the file.
pub enum FileStatus {
    Created,
    Modified,
    Deleted,
}

/// An event of a unified diff, in the order the diff holds them.
pub enum DiffEvent {
    /// A hunk of the file at `path`.
    Hunk { path: String, hunk: Hunk, status: FileStatus },
    /// The end of a file's diff; `renamed_to` is the file's new path if the diff
    /// renames it.
    FileEnd { renamed_to: Option<String> },
}

/// The old and the new text of a file.
pub struct FileTexts {
    pub old_text: Vec<u8>,
    pub new_text: Vec<u8>,
}

impl View for FileTexts {
    type V = (Seq<u8>, Seq<u8>);

    open spec fn view(&self) -> (Seq<u8>, Seq<u8>) {
        (self.old_text@, self.new_text@)
    }
}

/// The texts of the files seen so far, by path, and the file whose modified
/// hunks came last (the one a rename at the end of its diff applies to).
pub struct PatchModel {
    pub files: Map<Seq<char>, (Seq<u8>, Seq<u8>)>,
    pub current: Option<Seq<char>>,
}

/// The state before the first event.
pub open spec fn initial_model() -> PatchModel {
    PatchModel { files: Map::empty(), current: None }
}

/// The line of the old file where the hunk starts (0 when unknown).
pub open spec fn hunk_start(h: Hunk) -> int {
    match h.start_line {
        Some(n) => n as int,
        None => 0,
    }
}

/// Line feeds put before a modified hunk's text: enough to bring the old text
/// down to the hunk's start line, and one more.
pub open spec fn lead_in(prev_old: Seq<u8>, h: Hunk) -> Seq<u8> {
    let missing = if hunk_start(h) > line_count(prev_old) {
        hunk_start(h) - line_count(prev_old)
    } else {
        0
    };
    newline_run((missing + 1) as nat)
}

/// The texts of a file after one more modified hunk.
pub open spec fn modified_texts(prev: (Seq<u8>, Seq<u8>), h: Hunk) -> (Seq<u8>, Seq<u8>) {
    (prev.0 + lead_in(prev.0, h) + h.context@, prev.1 + lead_in(prev.0, h) + patched_context(h))
}

/// The texts of edits, one after another.
pub open spec fn joined_texts(edits: Seq<HunkEdit>) -> Seq<u8>
    decreases edits.len(),
{
    if edits.len() == 0 {
        Seq::empty()
    } else {
        joined_texts(edits.drop_last()) + edits.last().text@
    }
}

/// The state after one more event.
pub open spec fn step(m: PatchModel, e: DiffEvent) -> PatchModel {
    match e {
        DiffEvent::Hunk { path, hunk, status } => match status {
            FileStatus::Modified => {
                let prev = if m.files.dom().contains(path@) {
                    m.files[path@]
                } else {
                    (Seq::empty(), Seq::empty())
                };
                PatchModel {
                    files: m.files.insert(path@, modified_texts(prev, hunk)),
                    current: Some(path@),
                }
            },
            FileStatus::Created => PatchModel {
                files: m.files.insert(path@, (Seq::empty(), joined_texts(hunk.edits@))),
                current: m.current,
            },
            FileStatus::Deleted => PatchModel {
                files: m.files.insert(path@, (hunk.context@, Seq::empty())),
                current: m.current,
            },
        },
        DiffEvent::FileEnd { renamed_to } => match renamed_to {
            None => m,
            Some(new_name) => match m.current {
                None => m,
                Some(p) => PatchModel {
                    files: if m.files.dom().contains(p) {
                        m.files.remove(p).insert(new_name@, m.files[p])
                    } else {
                        m.files
                    },
                    current: None,
                },
            },
        },
    }
}

/// The state after all of `events`, in order.
pub open spec fn run_events(events: Seq<DiffEvent>) -> PatchModel
    decreases events.len(),
{
    if events.len() == 0 {
        initial_model()
    } else {
        step(run_events(events.drop_last()), events.last())
    }
}

/// Whether the viewer can take the event without panicking: a modified hunk's
/// edits fit its context, and its start line leaves room for one more line feed.
pub open spec fn event_ok(e: DiffEvent) -> bool {
    match e {
        DiffEvent::Hunk { hunk, status, .. } => match status {
            FileStatus::Modified => hunk_fits(hunk) && hunk_start(hunk) < usize::MAX,
            _ => true,
        },
        _ => true,
    }
}

/// Whether every event of `events` is one the viewer can take.
pub open spec fn events_ok(events: Seq<DiffEvent>) -> bool {
    forall|i: int| 0 <= i < events.len() ==> #[trigger] event_ok(events[i])
}

impl DiffEvent {
    /// Whether the viewer can take this event without panicking (`event_ok`).
    pub fn is_applicable(&self) -> (ok: bool)
        ensures
            ok == event_ok(*self),
    {
        match self {
            DiffEvent::Hunk { hunk, status, .. } => match status {
                FileStatus::Modified => {
                    let start: u64 = match hunk.start_line {
                        Some(n) => n as u64,
                        None => 0,
                    };
                    hunk.edits_fit() && (start as u128) < (usize::MAX as u128)
                },
                _ => true,
            },
            _ => true,
        }
    }
}

/// The texts of the files of a patch, and the file that a rename applies to.
pub struct PatchState {
    pub files: PathMap<FileTexts>,
    pub current: Option<String>,
}

impl PatchState {
    /// The state as a model.
    pub open spec fn model(&self) -> PatchModel {
        PatchModel {
            files: self.files@,
            current: match self.current {
                Some(p) => Some(p@),
                None => None,
            },
        }
    }

    /// The state before any event.
    pub fn new() -> (s: Self)
        ensures
            s.model() == initial_model(),
    {
        PatchState { files: PathMap::new(), current: None }
    }

    /// Takes one event of the diff.
    pub fn apply_event(&mut self, event: DiffEvent)
        requires
            event_ok(event),
        ensures
            final(self).model() == step(old(self).model(), event),
    {
        match event {
            DiffEvent::Hunk { path, hunk, status } => match status {
                FileStatus::Modified => {
                    let prev = self.files.remove(&path);
                    let (mut old_text, mut new_text) = match prev {
                        Some(t) => (t.old_text, t.new_text),
                        None => (Vec::new(), Vec::new()),
                    };
                    let start_line: usize = match hunk.start_line {
                        Some(n) => n as usize,
                        None => 0,
                    };
                    let missing = start_line.saturating_sub(count_lines(old_text.as_slice()));
                    let ghost prev_old = old_text@;
                    push_newlines(&mut old_text, missing + 1);
                    append_bytes(&mut old_text, hunk.context.as_slice());
                    push_newlines(&mut new_text, missing + 1);
                    let patched = apply_hunk_edits(hunk.context, &hunk.edits);
                    append_bytes(&mut new_text, patched.as_slice());
                    let texts = FileTexts { old_text, new_text };
                    let ghost m0 = old(self).model();
                    proof {
                        assert(lead_in(prev_old, hunk) =~= newline_run((missing + 1) as nat));
                    }
                    self.files.insert(path.clone(), texts);
                    self.current = Some(path);
                    proof {
                        let prev_m = if m0.files.dom().contains(path@) {
                            m0.files[path@]
                        } else {
                            (Seq::<u8>::empty(), Seq::<u8>::empty())
                        };
                        assert(prev_old == prev_m.0);
                        assert(texts@ == modified_texts(prev_m, hunk));
                        assert(self.files@ =~= m0.files.insert(path@, texts@));
                        assert(self.model() == step(m0, DiffEvent::Hunk { path, hunk, status: FileStatus::Modified }));
                    }
                },
                FileStatus::Created => {
                    let mut joined: Vec<u8> = Vec::new();
                    let n = hunk.edits.len();
                    let mut i: usize = 0;
                    while i < n
                        invariant
                            n == hunk.edits@.len(),
                            i <= n,
                            joined@ == joined_texts(hunk.edits@.take(i as int)),
                        decreases n - i,
                    {
                        proof {
                            assert(hunk.edits@.take(i + 1).drop_last() =~= hunk.edits@.take(i as int));
                        }
                        append_bytes(&mut joined, hunk.edits[i].text.as_slice());
                        i = i + 1;
                    }
                    assert(hunk.edits@.take(n as int) =~= hunk.edits@);
                    let ghost m0 = old(self).model();
                    let ghost k = path@;
                    self.files.insert(path, FileTexts { old_text: Vec::new(), new_text: joined });
                    proof {
                        assert(self.files@ =~= m0.files.insert(k, (Seq::<u8>::empty(), joined_texts(hunk.edits@))));
                    }
                },
                FileStatus::Deleted => {
                    let ghost m0 = old(self).model();
                    let ghost k = path@;
                    let ghost c = hunk.context@;
                    self.files.insert(path, FileTexts { old_text: hunk.context, new_text: Vec::new() });
                    proof {
                        assert(self.files@ =~= m0.files.insert(k, (c, Seq::<u8>::empty())));
                    }
                },
            },
            DiffEvent::FileEnd { renamed_to } => match renamed_to {
                None => {},
                Some(new_name) => {
                    let cur = self.current.take();
                    match cur {
                        None => {},
                        Some(p) => {
                            let ghost f0 = self.files@;
                            match self.files.remove(&p) {
                                Some(entry) => {
                                    let ghost v = entry@;
                                    let ghost k = new_name@;
                                    self.files.insert(new_name, entry);
                                    proof {
                                        assert(v == f0[p@]);
                                        assert(self.files@ =~= f0.remove(p@).insert(k, f0[p@]));
                                    }
                                },
                                None => {
                                    assert(self.files@ =~= f0);
                                },
                            }
                        },
                    }
                },
            },
        }
    }
}

/// Runs all events of a diff, in order, and gives the texts of its files.
pub fn collect_file_texts(events: Vec<DiffEvent>) -> (files: PathMap<FileTexts>)
    requires
        events_ok(events@),
    ensures
        files@ == run_events(events@).files,
{
    let ghost all = events@;
    let n = events.len();
    let mut reversed = reversed(events);
    let mut state = PatchState::new();
    assert(all.take(0) =~= Seq::<DiffEvent>::empty());
    while reversed.len() > 0
        invariant
            reversed@.len() <= n,
            n == all.len(),
            forall|j: int| 0 <= j < reversed@.len() ==> #[trigger] reversed@[j] == all[n - 1 - j],
            state.model() == run_events(all.take(n - reversed@.len())),
            events_ok(all),
        decreases reversed@.len(),
    {
        let ghost done = n - reversed@.len();
        let e = reversed.pop().unwrap();
        proof {
            assert(e == all[done]);
            assert(all.take(done + 1).drop_last() =~= all.take(done));
            assert(event_ok(all[done]));
        }
        state.apply_event(e);
    }
    assert(all.take(n as int) =~= all);
    state.files
}

} // verus!

verus! {

/// A file that the patch touches, under the path the viewer lists it by: its
/// path in the patch (`source_path`), its old text and its new text.
pub struct PatchedFile {
    pub source_path: String,
    pub old_text: Vec<u8>,
    pub new_text: Vec<u8>,
}

impl View for PatchedFile {
    type V = (Seq<char>, Seq<u8>, Seq<u8>);

    open spec fn view(&self) -> (Seq<char>, Seq<u8>, Seq<u8>) {
        (self.source_path@, self.old_text@, self.new_text@)
    }
}

impl PatchedFile {
    /// Whether the patch leaves the file empty, which the viewer shows as a
    /// deleted file.
    pub fn was_deleted(&self) -> (b: bool)
        ensures
            b == (self.new_text@.len() == 0),
    {
        self.new_text.len() == 0
    }
}

/// The files of a patch as the viewer lists them: each file of `files`, taken
/// in the order of `keys`, goes in under its listing path `listed[i]`, in place
/// of an earlier file with the same listing path.
pub open spec fn listed_files(
    files: Map<Seq<char>, (Seq<u8>, Seq<u8>)>,
    keys: Seq<Seq<char>>,
    listed: Seq<Seq<char>>,
) -> Map<Seq<char>, (Seq<char>, Seq<u8>, Seq<u8>)>
    decreases keys.len(),
{
    if keys.len() == 0 || listed.len() == 0 {
        Map::empty()
    } else {
        listed_files(files, keys.drop_last(), listed.drop_last()).insert(
            listed.last(),
            (keys.last(), files[keys.last()].0, files[keys.last()].1),
        )
    }
}

/// The elements of `v` in reverse order.
fn reversed<T>(v: Vec<T>) -> (r: Vec<T>)
    ensures
        r@.len() == v@.len(),
        forall|j: int| 0 <= j < r@.len() ==> #[trigger] r@[j] == v@[v@.len() - 1 - j],
{
    let ghost all = v@;
    let n = v.len();
    let mut pending = v;
    let mut r: Vec<T> = Vec::new();
    while pending.len() > 0
        invariant
            pending@.len() + r@.len() == n,
            n == all.len(),
            pending@ == all.take(pending@.len() as int),
            forall|j: int| 0 <= j < r@.len() ==> #[trigger] r@[j] == all[n - 1 - j],
        decreases pending@.len(),
    {
        let e = pending.pop().unwrap();
        r.push(e);
        assert(pending@ =~= all.take(pending@.len() as int));
    }
    r
}

/// Lists the files of `files` under the paths `listed`, one per file in key
/// order; a later file takes the place of an earlier one with the same listed
/// path.
pub fn list_patched_files(files: PathMap<FileTexts>, listed: Vec<String>) -> (r: PathMap<PatchedFile>)
    requires
        listed@.len() == files.keys().len(),
    ensures
        r@ == listed_files(files@, files.keys(), string_views(listed@)),
{
    proof {
        use_type_invariant(&files);
        files.lemma_wf();
    }
    let ghost fmap = files@;
    let ghost keys = files.keys();
    let ghost names = string_views(listed@);
    let n = listed.len();
    let mut entries = reversed(files.into_entries());
    let mut paths = reversed(listed);
    let mut r: PathMap<PatchedFile> = PathMap::new();
    assert(listed_files(fmap, keys.take(0), names.take(0)) =~= Map::empty());
    while entries.len() > 0
        invariant
            entries@.len() == paths@.len(),
            entries@.len() <= n,
            n == keys.len(),
            n == names.len(),
            forall|j: int| 0 <= j < entries@.len() ==> (#[trigger] entries@[j]).path@ == keys[n - 1 - j]
                && fmap.dom().contains(keys[n - 1 - j]) && entries@[j].value@ == fmap[keys[n - 1 - j]],
            forall|j: int| 0 <= j < paths@.len() ==> (#[trigger] paths@[j])@ == names[n - 1 - j],
            r@ == listed_files(fmap, keys.take(n - entries@.len()), names.take(n - entries@.len())),
        decreases entries@.len(),
    {
        let ghost done = n - entries@.len();
        let e = entries.pop().unwrap();
        let p = paths.pop().unwrap();
        proof {
            assert(keys.take(done + 1).drop_last() =~= keys.take(done));
            assert(names.take(done + 1).drop_last() =~= names.take(done));
            assert(e.path@ == keys[done]);
            assert(p@ == names[done]);
        }
        let file = PatchedFile { source_path: e.path, old_text: e.value.old_text, new_text: e.value.new_text };
        r.insert(p, file);
        proof {
            assert(file@ == (keys[done], fmap[keys[done]].0, fmap[keys[done]].1));
        }
    }
    assert(keys.take(n as int) =~= keys);
    assert(names.take(n as int) =~= names);
    r
}

/// Whether `keys` is in increasing key order.
pub open spec fn increasing(keys: Seq<Seq<char>>) -> bool {
    forall|i: int, j: int| 0 <= i < j < keys.len() ==> key_lt(#[trigger] keys[i], #[trigger] keys[j])
}

/// Whether each key that is a portable path (no `\`, no drive-style `:` as
/// its second character, no leading `//`) is listed under its
/// `listed_name`: its components after the first, joined by `/`.
pub open spec fn listed_by_name(keys: Seq<Seq<char>>, listed: Seq<Seq<char>>) -> bool {
    forall|i: int| 0 <= i < keys.len() && portable_path(#[trigger] keys[i]) ==> listed[i] == listed_name(keys[i])
}

/// Whether `r` lists the files of `files`: each file, in key order, under its
/// listing path (`listed_name` of its key, wherever the key is a portable
/// path), a later file taking the place of an earlier one with the same
/// listing path.
pub open spec fn is_listing(
    files: Map<Seq<char>, (Seq<u8>, Seq<u8>)>,
    r: Map<Seq<char>, (Seq<char>, Seq<u8>, Seq<u8>)>,
) -> bool {
    exists|keys: Seq<Seq<char>>, listed: Seq<Seq<char>>|
        {
            &&& increasing(keys)
            &&& keys.to_set() == files.dom()
            &&& listed.len() == keys.len()
            &&& listed_by_name(keys, listed)
            &&& r == listed_files(files, keys, listed)
        }
}

/// The path a patched file is listed under: its components after the first
/// (the path as `patch -p1` takes it), joined by `/`. Paths equal as `Path`s
/// have the same components, so they are listed as one. For a plain relative
/// path this is what follows its first `/`.
pub fn listing_path(path: &String) -> (r: String)
    ensures
        portable_path(path@) ==> r@ == listed_name(path@),
        simple_relative_path(path@) ==> r@ == after_first_slash(path@),
{
    let comps = path_components(path.as_str());
    let ghost views = string_views(comps@);
    let n = comps.len();
    proof {
        if simple_relative_path(path@) {
            crate::paths::lemma_simple_path(path@);
        }
    }
    if n == 0 {
        return String::new();
    }
    let mut r = String::new();
    let mut i: usize = 1;
    proof {
        reveal_strlit("/");
        assert(views.subrange(1, 1).len() == 0);
    }
    while i < n
        invariant
            n == comps@.len(),
            views == string_views(comps@),
            1 <= i <= n,
            r@ == crate::paths::join_slash(views.subrange(1, i as int)),
            "/"@ == seq!['/'],
        decreases n - i,
    {
        proof {
            assert(views.subrange(1, i + 1).drop_last() =~= views.subrange(1, i as int));
            assert(views.subrange(1, i + 1).last() == comps@[i as int]@);
        }
        if i > 1 {
            r.append("/");
        }
        r.append(comps[i].as_str());
        proof {
            if i == 1 {
                assert(views.subrange(1, 2) =~= seq![comps@[1]@]);
                assert(r@ =~= comps@[1]@);
            }
        }
        i = i + 1;
    }
    proof {
        assert(views.subrange(1, n as int) =~= views.drop_first());
    }
    r
}

/// The files that a diff touches, with their old and new texts, from the
/// diff's events in order. Each file is listed under its `listing_path`; where
/// two files share one, the later of them in key order stays.
pub fn load_entries(events: Vec<DiffEvent>) -> (r: PathMap<PatchedFile>)
    requires
        events_ok(events@),
    ensures
        r@.dom().len() <= run_events(events@).files.dom().len(),
        is_listing(run_events(events@).files, r@),
{
    let files = collect_file_texts(events);
    proof {
        use_type_invariant(&files);
        files.lemma_wf();
    }
    let n = files.len();
    let mut listed: Vec<String> = Vec::new();
    let mut i: usize = 0;
    while i < n
        invariant
            n == files.keys().len(),
            n == files.entry_seq().len(),
            forall|j: int| 0 <= j < n ==> #[trigger] files.entry_seq()[j].path@ == files.keys()[j],
            i <= n,
            listed@.len() == i,
            forall|j: int| 0 <= j < i && portable_path(#[trigger] files.keys()[j]) ==> listed@[j]@
                == listed_name(files.keys()[j]),
        decreases n - i,
    {
        let e = files.entry_at(i);
        let name = listing_path(&e.path);
        listed.push(name);
        i = i + 1;
    }
    let ghost keys = files.keys();
    let ghost fmap = files@;
    let r = list_patched_files(files, listed);
    proof {
        assert(keys.to_set() =~= fmap.dom());
        assert(listed_by_name(keys, string_views(listed@)));
        crate::laws::lemma_listed_files_count(fmap, keys, string_views(listed@));
    }
    r
}

} // verus!
