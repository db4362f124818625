//! What the patch view shows about itself: its title, its tab, and the
//! decisions it makes about editors and the views it stands in for.
use vstd::prelude::*;
use vstd::string::StringExecFns;

verus! {

/// The decimal digit `d` (`0 <= d < 10`).
pub open spec fn digit_char(d: nat) -> char {
    if d == 0 {
        '0'
    } else if d == 1 {
        '1'
    } else if d == 2 {
        '2'
    } else if d == 3 {
        '3'
    } else if d == 4 {
        '4'
    } else if d == 5 {
        '5'
    } else if d == 6 {
        '6'
    } else if d == 7 {
        '7'
    } else if d == 8 {
        '8'
    } else {
        '9'
    }
}

/// `n` written in decimal, as `usize`'s `Display` writes it.
pub open spec fn decimal(n: nat) -> Seq<char>
    decreases n,
{
    if n < 10 {
        seq![digit_char(n)]
    } else {
        decimal(n / 10) + seq![digit_char(n % 10)]
    }
}

/// The count part of the title: `1 file`, or `N files` for any other `N`.
pub open spec fn file_count_label(n: nat) -> Seq<char> {
    if n == 1 {
        "1 file"@
    } else {
        decimal(n) + " files"@
    }
}

/// The view's title: the patch's file name (or `Patch Diff` for a patch with no
/// file), then the file count in brackets.
pub open spec fn title_text(patch_filename: Option<Seq<char>>, file_count: nat) -> Seq<char> {
    let name = match patch_filename {
        Some(n) => n,
        None => "Patch Diff"@,
    };
    name + " ("@ + file_count_label(file_count) + ")"@
}

/// The decimal digit of `d` as a one-character string.
fn digit_str(d: usize) -> (s: &'static str)
    requires
        d < 10,
    ensures
        s@ == seq![digit_char(d as nat)],
{
    proof {
        reveal_strlit("0");
        reveal_strlit("1");
        reveal_strlit("2");
        reveal_strlit("3");
        reveal_strlit("4");
        reveal_strlit("5");
        reveal_strlit("6");
        reveal_strlit("7");
        reveal_strlit("8");
        reveal_strlit("9");
    }
    if d == 0 {
        "0"
    } else if d == 1 {
        "1"
    } else if d == 2 {
        "2"
    } else if d == 3 {
        "3"
    } else if d == 4 {
        "4"
    } else if d == 5 {
        "5"
    } else if d == 6 {
        "6"
    } else if d == 7 {
        "7"
    } else if d == 8 {
        "8"
    } else {
        "9"
    }
}

/// Writes `n` in decimal.
pub fn decimal_string(n: usize) -> (s: String)
    ensures
        s@ == decimal(n as nat),
    decreases n,
{
    if n < 10 {
        String::from_str(digit_str(n))
    } else {
        let mut s = decimal_string(n / 10);
        s.append(digit_str(n % 10));
        s
    }
}

/// The color of a tab's label.
pub enum TabColor {
    Default,
    Muted,
}

/// What a tab shows: its label and the label's color.
pub struct TabContent {
    pub text: String,
    pub color: TabColor,
}

/// Where the view's breadcrumbs stand in the toolbar.
pub enum ToolbarItemLocation {
    PrimaryLeft,
    PrimaryRight,
    Secondary,
    Hidden,
}

/// The kinds of view that the workspace asks the patch view to stand in for.
pub enum ViewKind {
    PatchDiffView,
    Editor,
    SplittableEditor,
    Other,
}

/// What the patch view hands out when asked to stand in for a kind of view.
pub enum ActAsTarget {
    /// The patch view itself.
    ItSelf,
    /// The right-hand (new text) editor of its split editor.
    RhsEditor,
    /// Its split editor.
    SplitEditor,
}

/// A view of a patch: the patch file's name and how many files it touches.
pub struct PatchDiffView {
    patch_filename: Option<String>,
    file_count: usize,
}

impl PatchDiffView {
    /// The name of the patch file, if the patch has one.
    pub closed spec fn filename_view(&self) -> Option<Seq<char>> {
        match self.patch_filename {
            Some(n) => Some(n@),
            None => None,
        }
    }

    /// The number of files the patch touches.
    pub closed spec fn count(&self) -> nat {
        self.file_count as nat
    }

    /// A view of a patch with the given file name that touches `file_count` files.
    pub fn new(patch_filename: Option<String>, file_count: usize) -> (v: Self)
        ensures
            v.filename_view() == (match patch_filename {
                Some(n) => Some(n@),
                None => None::<Seq<char>>,
            }),
            v.count() == file_count,
    {
        PatchDiffView { patch_filename, file_count }
    }

    /// The title, e.g. `fix.patch (3 files)`.
    pub fn title(&self) -> (t: String)
        ensures
            t@ == title_text(self.filename_view(), self.count()),
    {
        let mut t = match &self.patch_filename {
            Some(name) => name.clone(),
            None => String::from_str("Patch Diff"),
        };
        t.append(" (");
        if self.file_count == 1 {
            t.append("1 file");
        } else {
            let digits = decimal_string(self.file_count);
            t.append(digits.as_str());
            t.append(" files");
        }
        t.append(")");
        t
    }

    /// The tab: the title, in the default color where the tab is selected and
    /// muted where it is not.
    pub fn tab_content(&self, selected: bool) -> (c: TabContent)
        ensures
            c.text@ == title_text(self.filename_view(), self.count()),
            selected ==> c.color is Default,
            !selected ==> c.color is Muted,
    {
        TabContent {
            text: self.title(),
            color: if selected {
                TabColor::Default
            } else {
                TabColor::Muted
            },
        }
    }

    /// The tab's tooltip: the title.
    pub fn tab_tooltip_text(&self) -> (t: Option<String>)
        ensures
            t matches Some(s) && s@ == title_text(self.filename_view(), self.count()),
    {
        Some(self.title())
    }

    /// The tab's text: the title, whatever the detail asked for.
    pub fn tab_content_text(&self, _detail: usize) -> (t: String)
        ensures
            t@ == title_text(self.filename_view(), self.count()),
    {
        self.title()
    }

    /// The event text for telemetry when the view opens.
    pub fn telemetry_event_text(&self) -> (t: Option<&'static str>)
        ensures
            t matches Some(s) && s@ == "Patch Diff View Opened"@,
    {
        Some("Patch Diff View Opened")
    }

    /// The view's breadcrumbs stand at the left of the toolbar.
    pub fn breadcrumb_location(&self) -> (l: ToolbarItemLocation)
        ensures
            l is PrimaryLeft,
    {
        ToolbarItemLocation::PrimaryLeft
    }

    /// What the view hands out when asked to stand in for a view of kind `kind`:
    /// itself, the new-text editor of its split editor, the split editor, or nothing.
    pub fn act_as_type(&self, kind: ViewKind) -> (r: Option<ActAsTarget>)
        ensures
            kind is PatchDiffView ==> r matches Some(ActAsTarget::ItSelf),
            kind is Editor ==> r matches Some(ActAsTarget::RhsEditor),
            kind is SplittableEditor ==> r matches Some(ActAsTarget::SplitEditor),
            kind is Other ==> r is None,
    {
        match kind {
            ViewKind::PatchDiffView => Some(ActAsTarget::ItSelf),
            ViewKind::Editor => Some(ActAsTarget::RhsEditor),
            ViewKind::SplittableEditor => Some(ActAsTarget::SplitEditor),
            ViewKind::Other => None,
        }
    }
}

/// Whether an editor shows a diff file: its buffer is a single buffer whose
/// language is named `Diff`. `language_name` is the name of that buffer's
/// language, or `None` where the editor has no single buffer or it has no language.
pub fn is_diff_file(language_name: Option<&String>) -> (r: bool)
    ensures
        r == (language_name matches Some(n) && n@ == "Diff"@),
{
    match language_name {
        Some(name) => {
            let diff = String::from_str("Diff");
            *name == diff
        },
        None => false,
    }
}

} // verus!
