use patch_diff::hunk::{apply_hunk_edits, replace_bytes, Hunk, HunkEdit};
use patch_diff::patch::{
    collect_file_texts, list_patched_files, listing_path, load_entries, DiffEvent, FileStatus,
    PatchState, PatchedFile,
};
use patch_diff::pathmap::{str_less, PathMap};
use patch_diff::text::{
    append_bytes, count_lines, push_newlines, saturating_add_signed, saturating_add_unsigned,
    saturating_sub_unsigned, trim_signature,
};
use patch_diff::view::{
    decimal_string, is_diff_file, ActAsTarget, PatchDiffView, TabColor, ToolbarItemLocation,
    ViewKind,
};

fn edit(start: usize, end: usize, text: &str) -> HunkEdit {
    HunkEdit { start, end, text: text.as_bytes().to_vec() }
}

fn hunk(context: &str, edits: Vec<HunkEdit>, start_line: Option<u32>) -> Hunk {
    Hunk { context: context.as_bytes().to_vec(), edits, start_line }
}

fn hunk_event(path: &str, h: Hunk, status: FileStatus) -> DiffEvent {
    DiffEvent::Hunk { path: path.to_string(), hunk: h, status }
}

fn texts_of(files: &PathMap<patch_diff::patch::FileTexts>, path: &str) -> Option<(String, String)> {
    files.get(&path.to_string()).map(|t| {
        (String::from_utf8(t.old_text.clone()).unwrap(), String::from_utf8(t.new_text.clone()).unwrap())
    })
}

fn file_of<'a>(files: &'a PathMap<PatchedFile>, path: &str) -> Option<&'a PatchedFile> {
    files.get(&path.to_string())
}

#[test]
fn trim_signature_cuts_at_last_marker() {
    assert_eq!(trim_signature("diff --git a/x b/x\n+line\n-- \n2.40.0\n"), "diff --git a/x b/x\n+line\n");
    assert_eq!(trim_signature("a-- \nb-- \nc"), "a-- \nb");
    assert_eq!(trim_signature("-- \n"), "");
}

#[test]
fn trim_signature_keeps_patch_without_marker() {
    assert_eq!(trim_signature("no signature here\n--\n"), "no signature here\n--\n");
    assert_eq!(trim_signature(""), "");
    assert_eq!(trim_signature("é-- x"), "é-- x");
}

#[test]
fn count_lines_matches_str_lines() {
    for s in ["", "a", "a\n", "a\nb", "\n\n", "a\r\nb\r\n", "\nx"] {
        assert_eq!(count_lines(s.as_bytes()), s.lines().count(), "{:?}", s);
    }
}

#[test]
fn push_and_append_bytes() {
    let mut buf = b"x".to_vec();
    push_newlines(&mut buf, 3);
    append_bytes(&mut buf, b"yz");
    assert_eq!(buf, b"x\n\n\nyz".to_vec());
}

#[test]
fn saturating_arithmetic() {
    assert_eq!(saturating_add_signed(5, -10), 0);
    assert_eq!(saturating_add_signed(5, -3), 2);
    assert_eq!(saturating_add_signed(usize::MAX, 1), usize::MAX);
    assert_eq!(saturating_add_unsigned(isize::MAX - 1, 5), isize::MAX);
    assert_eq!(saturating_add_unsigned(-3, 5), 2);
    assert_eq!(saturating_sub_unsigned(isize::MIN + 1, 5), isize::MIN);
    assert_eq!(saturating_sub_unsigned(3, 5), -2);
}

#[test]
fn replace_bytes_splices() {
    let r = replace_bytes(&b"abcdef".to_vec(), 1, 3, &b"XYZ".to_vec());
    assert_eq!(r, b"aXYZdef".to_vec());
}

#[test]
fn edits_shift_by_earlier_growth() {
    let edits = vec![edit(0, 5, "HELLO!"), edit(6, 11, "there")];
    let r = apply_hunk_edits(b"hello world".to_vec(), &edits);
    assert_eq!(r, b"HELLO! there".to_vec());
}

#[test]
fn edits_shift_by_earlier_shrinking() {
    let edits = vec![edit(0, 4, "a"), edit(5, 8, "bb"), edit(9, 9, "!")];
    let r = apply_hunk_edits(b"1234 678 9".to_vec(), &edits);
    assert_eq!(r, b"a bb !9".to_vec());
}

#[test]
fn edits_fit_checks_bounds_and_boundaries() {
    assert!(hunk("abc", vec![edit(1, 2, "x")], None).edits_fit());
    assert!(!hunk("abc", vec![edit(2, 4, "x")], None).edits_fit());
    assert!(!hunk("abc", vec![edit(2, 1, "x")], None).edits_fit());
    assert!(!hunk("é", vec![edit(1, 2, "x")], None).edits_fit());
    assert!(hunk("é", vec![edit(0, 2, "e")], None).edits_fit());
    // the second range is shifted by the growth of the first edit
    assert!(!hunk("ab", vec![edit(0, 0, "x"), edit(2, 3, "")], None).edits_fit());
    assert!(hunk("abcdef", vec![edit(0, 3, ""), edit(4, 6, "x")], None).edits_fit());
}

#[test]
fn event_applicability() {
    let ok = hunk_event("a/x", hunk("abc", vec![edit(0, 1, "z")], Some(3)), FileStatus::Modified);
    assert!(ok.is_applicable());
    let bad = hunk_event("a/x", hunk("abc", vec![edit(0, 9, "z")], None), FileStatus::Modified);
    assert!(!bad.is_applicable());
    let created = hunk_event("a/x", hunk("abc", vec![edit(0, 9, "z")], None), FileStatus::Created);
    assert!(created.is_applicable());
    assert!(DiffEvent::FileEnd { renamed_to: None }.is_applicable());
}

#[test]
fn modified_hunk_pads_to_its_start_line() {
    let mut st = PatchState::new();
    st.apply_event(hunk_event("a/f.txt", hunk("one\ntwo\n", vec![edit(4, 7, "TWO")], Some(2)), FileStatus::Modified));
    assert_eq!(
        texts_of(&st.files, "a/f.txt"),
        Some(("\n\n\none\ntwo\n".to_string(), "\n\n\none\nTWO\n".to_string()))
    );
    assert_eq!(st.current.as_deref(), Some("a/f.txt"));
    // five lines so far; a hunk at line 10 needs five more line feeds, and one.
    st.apply_event(hunk_event("a/f.txt", hunk("ten\n", vec![edit(0, 3, "10")], Some(10)), FileStatus::Modified));
    assert_eq!(
        texts_of(&st.files, "a/f.txt"),
        Some((
            "\n\n\none\ntwo\n\n\n\n\n\n\nten\n".to_string(),
            "\n\n\none\nTWO\n\n\n\n\n\n\n10\n".to_string()
        ))
    );
}

#[test]
fn modified_hunk_below_start_line_adds_one_line_feed() {
    let mut st = PatchState::new();
    st.apply_event(hunk_event("p", hunk("a\nb\nc\n", vec![], None), FileStatus::Modified));
    st.apply_event(hunk_event("p", hunk("d\n", vec![], Some(1)), FileStatus::Modified));
    assert_eq!(texts_of(&st.files, "p"), Some(("\na\nb\nc\n\nd\n".to_string(), "\na\nb\nc\n\nd\n".to_string())));
}

#[test]
fn created_file_joins_edit_texts() {
    let mut st = PatchState::new();
    st.apply_event(hunk_event("b/new.rs", hunk("", vec![edit(0, 0, "x\n"), edit(0, 0, "y\n")], None), FileStatus::Created));
    assert_eq!(texts_of(&st.files, "b/new.rs"), Some((String::new(), "x\ny\n".to_string())));
    assert!(st.current.is_none());
}

#[test]
fn deleted_file_keeps_context_as_old_text() {
    let mut st = PatchState::new();
    st.apply_event(hunk_event("a/gone.rs", hunk("gone\n", vec![edit(0, 5, "")], None), FileStatus::Deleted));
    assert_eq!(texts_of(&st.files, "a/gone.rs"), Some(("gone\n".to_string(), String::new())));
}

#[test]
fn created_replaces_earlier_texts() {
    let mut st = PatchState::new();
    st.apply_event(hunk_event("p", hunk("old\n", vec![], None), FileStatus::Deleted));
    st.apply_event(hunk_event("p", hunk("", vec![edit(0, 0, "new\n")], None), FileStatus::Created));
    assert_eq!(texts_of(&st.files, "p"), Some((String::new(), "new\n".to_string())));
}

#[test]
fn rename_moves_current_file() {
    let mut st = PatchState::new();
    st.apply_event(hunk_event("a/old.rs", hunk("x\n", vec![edit(0, 1, "y")], None), FileStatus::Modified));
    st.apply_event(DiffEvent::FileEnd { renamed_to: Some("a/new.rs".to_string()) });
    assert_eq!(texts_of(&st.files, "a/old.rs"), None);
    assert_eq!(texts_of(&st.files, "a/new.rs"), Some(("\nx\n".to_string(), "\ny\n".to_string())));
    assert!(st.current.is_none());
    assert_eq!(st.files.len(), 1);
}

#[test]
fn rename_without_current_file_does_nothing() {
    let mut st = PatchState::new();
    st.apply_event(hunk_event("a/c.rs", hunk("", vec![edit(0, 0, "c")], None), FileStatus::Created));
    st.apply_event(DiffEvent::FileEnd { renamed_to: Some("a/d.rs".to_string()) });
    assert_eq!(texts_of(&st.files, "a/c.rs"), Some((String::new(), "c".to_string())));
    assert_eq!(texts_of(&st.files, "a/d.rs"), None);
}

#[test]
fn file_end_without_rename_keeps_current_file() {
    let mut st = PatchState::new();
    st.apply_event(hunk_event("a/old.rs", hunk("x\n", vec![], None), FileStatus::Modified));
    st.apply_event(DiffEvent::FileEnd { renamed_to: None });
    assert_eq!(st.current.as_deref(), Some("a/old.rs"));
    // the rename in a later file's end still applies to it
    st.apply_event(DiffEvent::FileEnd { renamed_to: Some("a/moved.rs".to_string()) });
    assert!(texts_of(&st.files, "a/moved.rs").is_some());
    assert!(texts_of(&st.files, "a/old.rs").is_none());
}

#[test]
fn collect_file_texts_runs_events_in_order() {
    let events = vec![
        hunk_event("a/z.rs", hunk("z\n", vec![], None), FileStatus::Modified),
        DiffEvent::FileEnd { renamed_to: None },
        hunk_event("a/b.rs", hunk("", vec![edit(0, 0, "b\n")], None), FileStatus::Created),
        DiffEvent::FileEnd { renamed_to: None },
    ];
    let files = collect_file_texts(events);
    assert_eq!(files.len(), 2);
    assert_eq!(files.entry_at(0).path, "a/b.rs");
    assert_eq!(files.entry_at(1).path, "a/z.rs");
}

#[test]
fn path_map_keeps_key_order_and_replaces() {
    let mut m: PathMap<PatchedFile> = PathMap::new();
    for (k, v) in [("b", "1"), ("a", "2"), ("c", "3"), ("a", "4"), ("ab", "5")] {
        m.insert(k.to_string(), PatchedFile { source_path: k.to_string(), old_text: vec![], new_text: v.as_bytes().to_vec() });
    }
    assert_eq!(m.len(), 4);
    let keys: Vec<&str> = (0..m.len()).map(|i| m.entry_at(i).path.as_str()).collect();
    assert_eq!(keys, vec!["a", "ab", "b", "c"]);
    assert_eq!(file_of(&m, "a").unwrap().new_text, b"4".to_vec());
    assert!(m.remove(&"ab".to_string()).is_some());
    assert!(m.remove(&"ab".to_string()).is_none());
    assert_eq!(m.len(), 3);
    assert!(m.get(&"zz".to_string()).is_none());
}

#[test]
fn str_less_is_byte_order() {
    assert!(str_less("a", "b"));
    assert!(str_less("a", "ab"));
    assert!(!str_less("ab", "a"));
    assert!(!str_less("a", "a"));
    assert!(str_less("Z", "a"));
    assert!(str_less("z", "é"));
    assert!(str_less("a-b", "a/b"));
}

#[test]
fn listing_path_strips_first_component() {
    assert_eq!(listing_path(&"a/src/main.rs".to_string()), "src/main.rs");
    assert_eq!(listing_path(&"b/README.md".to_string()), "README.md");
    assert_eq!(listing_path(&"file.rs".to_string()), "");
    assert_eq!(listing_path(&"".to_string()), "");
    assert_eq!(listing_path(&"a/src//lib.rs".to_string()), "src/lib.rs");
    assert_eq!(listing_path(&"a/./x/".to_string()), "x");
    assert_eq!(listing_path(&"/abs/x".to_string()), "abs/x");
    assert_eq!(listing_path(&"a/b/c/d.rs".to_string()), "b/c/d.rs");
    assert_eq!(listing_path(&"a/b:c.rs".to_string()), "b:c.rs");
}

#[test]
fn load_entries_lists_unusual_paths_by_components() {
    let events = vec![
        hunk_event("./x/y.rs", hunk("", vec![edit(0, 0, "1")], None), FileStatus::Created),
        hunk_event("/abs/z.rs", hunk("", vec![edit(0, 0, "2")], None), FileStatus::Created),
        hunk_event("a//b/./c.rs", hunk("", vec![edit(0, 0, "3")], None), FileStatus::Created),
    ];
    let files = load_entries(events);
    assert_eq!(files.len(), 3);
    assert_eq!(file_of(&files, "x/y.rs").unwrap().source_path, "./x/y.rs");
    assert_eq!(file_of(&files, "abs/z.rs").unwrap().source_path, "/abs/z.rs");
    assert_eq!(file_of(&files, "b/c.rs").unwrap().source_path, "a//b/./c.rs");
}

#[test]
fn load_entries_lists_paths_equal_as_paths_once() {
    let events = vec![
        hunk_event("a/x//y.rs", hunk("", vec![edit(0, 0, "1")], None), FileStatus::Created),
        hunk_event("a/x/y.rs", hunk("", vec![edit(0, 0, "2")], None), FileStatus::Created),
    ];
    let files = load_entries(events);
    assert_eq!(files.len(), 1);
    let f = file_of(&files, "x/y.rs").unwrap();
    // "a/x//y.rs" comes first in byte order ('/' < 'y'), so "a/x/y.rs" stays
    assert!(str_less("a/x//y.rs", "a/x/y.rs"));
    assert_eq!(f.source_path, "a/x/y.rs");
    assert_eq!(f.new_text, b"2".to_vec());
}

#[test]
fn patched_texts_stay_utf8() {
    let events = vec![
        hunk_event("a/ü.txt", hunk("héllo wörld\n", vec![edit(0, 6, "grüß"), edit(7, 13, "wält")], Some(1)), FileStatus::Modified),
    ];
    assert!(events[0].is_applicable());
    let files = load_entries(events);
    let f = file_of(&files, "ü.txt").unwrap();
    assert_eq!(String::from_utf8(f.old_text.clone()).unwrap(), "\n\nhéllo wörld\n");
    assert_eq!(String::from_utf8(f.new_text.clone()).unwrap(), "\n\ngrüß wält\n");
}

#[test]
fn list_patched_files_later_key_wins() {
    let mut files = PathMap::new();
    files.insert("a/x".to_string(), patch_diff::patch::FileTexts { old_text: b"1".to_vec(), new_text: b"2".to_vec() });
    files.insert("b/x".to_string(), patch_diff::patch::FileTexts { old_text: b"3".to_vec(), new_text: vec![] });
    let listed = list_patched_files(files, vec!["x".to_string(), "x".to_string()]);
    assert_eq!(listed.len(), 1);
    let f = file_of(&listed, "x").unwrap();
    assert_eq!(f.source_path, "b/x");
    assert_eq!(f.old_text, b"3".to_vec());
    assert!(f.was_deleted());
}

#[test]
fn load_entries_lists_files_by_p1_path() {
    let events = vec![
        hunk_event("a/src/lib.rs", hunk("fn a() {}\n", vec![edit(3, 4, "b")], Some(0)), FileStatus::Modified),
        DiffEvent::FileEnd { renamed_to: None },
        hunk_event("b/docs/new.md", hunk("", vec![edit(0, 0, "# New\n")], None), FileStatus::Created),
        DiffEvent::FileEnd { renamed_to: None },
        hunk_event("a/old.txt", hunk("bye\n", vec![edit(0, 4, "")], None), FileStatus::Deleted),
        DiffEvent::FileEnd { renamed_to: None },
    ];
    let files = load_entries(events);
    assert_eq!(files.len(), 3);
    let lib = file_of(&files, "src/lib.rs").unwrap();
    assert_eq!(lib.source_path, "a/src/lib.rs");
    assert_eq!(lib.old_text, b"\nfn a() {}\n".to_vec());
    assert_eq!(lib.new_text, b"\nfn b() {}\n".to_vec());
    assert!(!lib.was_deleted());
    let new = file_of(&files, "docs/new.md").unwrap();
    assert_eq!(new.old_text, Vec::<u8>::new());
    assert_eq!(new.new_text, b"# New\n".to_vec());
    let old = file_of(&files, "old.txt").unwrap();
    assert!(old.was_deleted());
    assert_eq!(old.old_text, b"bye\n".to_vec());
}

#[test]
fn load_entries_follows_renames() {
    let events = vec![
        hunk_event("a/before.rs", hunk("x\n", vec![edit(0, 1, "y")], None), FileStatus::Modified),
        DiffEvent::FileEnd { renamed_to: Some("b/after.rs".to_string()) },
    ];
    let files = load_entries(events);
    assert_eq!(files.len(), 1);
    let f = file_of(&files, "after.rs").unwrap();
    assert_eq!(f.source_path, "b/after.rs");
    assert_eq!(f.new_text, b"\ny\n".to_vec());
}

#[test]
fn load_entries_of_empty_diff() {
    assert_eq!(load_entries(vec![]).len(), 0);
}

#[test]
fn decimal_string_writes_numbers() {
    for n in [0usize, 7, 10, 42, 1000, 987654321] {
        assert_eq!(decimal_string(n), n.to_string());
    }
    assert_eq!(decimal_string(usize::MAX), usize::MAX.to_string());
}

#[test]
fn title_names_patch_and_file_count() {
    assert_eq!(PatchDiffView::new(Some("fix.patch".to_string()), 3).title(), "fix.patch (3 files)");
    assert_eq!(PatchDiffView::new(None, 1).title(), "Patch Diff (1 file)");
    assert_eq!(PatchDiffView::new(None, 0).title(), "Patch Diff (0 files)");
    assert_eq!(PatchDiffView::new(Some("x.diff".to_string()), 12).title(), "x.diff (12 files)");
}

#[test]
fn tab_shows_title_muted_unless_selected() {
    let v = PatchDiffView::new(Some("p.patch".to_string()), 2);
    let sel = v.tab_content(true);
    assert_eq!(sel.text, "p.patch (2 files)");
    assert!(matches!(sel.color, TabColor::Default));
    assert!(matches!(v.tab_content(false).color, TabColor::Muted));
    assert_eq!(v.tab_tooltip_text().as_deref(), Some("p.patch (2 files)"));
    assert_eq!(v.tab_content_text(5), "p.patch (2 files)");
    assert_eq!(v.telemetry_event_text(), Some("Patch Diff View Opened"));
    assert!(matches!(v.breadcrumb_location(), ToolbarItemLocation::PrimaryLeft));
}

#[test]
fn act_as_type_hands_out_editors() {
    let v = PatchDiffView::new(None, 1);
    assert!(matches!(v.act_as_type(ViewKind::PatchDiffView), Some(ActAsTarget::ItSelf)));
    assert!(matches!(v.act_as_type(ViewKind::Editor), Some(ActAsTarget::RhsEditor)));
    assert!(matches!(v.act_as_type(ViewKind::SplittableEditor), Some(ActAsTarget::SplitEditor)));
    assert!(v.act_as_type(ViewKind::Other).is_none());
}

#[test]
fn diff_files_are_those_in_the_diff_language() {
    assert!(is_diff_file(Some(&"Diff".to_string())));
    assert!(!is_diff_file(Some(&"Rust".to_string())));
    assert!(!is_diff_file(Some(&"diff".to_string())));
    assert!(!is_diff_file(None));
}
