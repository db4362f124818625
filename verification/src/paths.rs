//! Paths as the patch names them: their `/`-segments, the components that
//! `std::path` makes of them, and the joining of components by `/`.
use vstd::prelude::*;

verus! {

/// The views of `v`.
pub open spec fn string_views(v: Seq<String>) -> Seq<Seq<char>> {
    Seq::new(v.len(), |i: int| v[i]@)
}

/// The segments of `p` between its `/`s, `cur` standing before the first one.
pub open spec fn segments_from(p: Seq<char>, cur: Seq<char>) -> Seq<Seq<char>>
    decreases p.len(),
{
    if p.len() == 0 {
        seq![cur]
    } else if p[0] == '/' {
        seq![cur] + segments_from(p.drop_first(), Seq::empty())
    } else {
        segments_from(p.drop_first(), cur.push(p[0]))
    }
}

/// The segments of `p` between its `/`s (one segment where it has none).
pub open spec fn path_segments(p: Seq<char>) -> Seq<Seq<char>> {
    segments_from(p, Seq::empty())
}

/// Whether `p` is a plain relative path: segments split by single `/`s, none of
/// them empty or `.`, and no `\` or `:` anywhere. Such a path is taken apart
/// the same way on every platform: its components are its segments.
pub open spec fn simple_relative_path(p: Seq<char>) -> bool {
    &&& forall|i: int| 0 <= i < p.len() ==> #[trigger] p[i] != '\\' && p[i] != ':'
    &&& forall|i: int| 0 <= i < path_segments(p).len() ==> #[trigger] path_segments(p)[i].len() > 0
        && path_segments(p)[i] != seq!['.']
}

/// `segs` joined by `/`.
pub open spec fn join_slash(segs: Seq<Seq<char>>) -> Seq<char>
    decreases segs.len(),
{
    if segs.len() == 0 {
        Seq::empty()
    } else if segs.len() == 1 {
        segs[0]
    } else {
        join_slash(segs.drop_last()) + seq!['/'] + segs.last()
    }
}

/// What follows the first `/` of `p` (nothing where `p` has no `/`).
pub open spec fn after_first_slash(p: Seq<char>) -> Seq<char>
    decreases p.len(),
{
    if p.len() == 0 {
        Seq::empty()
    } else if p[0] == '/' {
        p.drop_first()
    } else {
        after_first_slash(p.drop_first())
    }
}

/// Whether `p` holds a `/`.
pub open spec fn has_slash(p: Seq<char>) -> bool {
    exists|i: int| 0 <= i < p.len() && p[i] == '/'
}

pub proof fn lemma_segments_nonempty(p: Seq<char>, cur: Seq<char>)
    ensures
        segments_from(p, cur).len() >= 1,
    decreases p.len(),
{
    if p.len() > 0 {
        if p[0] == '/' {
            lemma_segments_nonempty(p.drop_first(), Seq::empty());
        } else {
            lemma_segments_nonempty(p.drop_first(), cur.push(p[0]));
        }
    }
}

pub proof fn lemma_join_front(a: Seq<char>, segs: Seq<Seq<char>>)
    requires
        segs.len() >= 1,
    ensures
        join_slash(seq![a] + segs) == a + seq!['/'] + join_slash(segs),
    decreases segs.len(),
{
    let all = seq![a] + segs;
    assert(all.len() >= 2);
    assert(all.last() == segs.last());
    assert(join_slash(all) == join_slash(all.drop_last()) + seq!['/'] + all.last());
    if segs.len() == 1 {
        assert(all.drop_last() =~= seq![a]);
        assert(join_slash(seq![a]) == a);
        assert(join_slash(segs) == segs[0]);
    } else {
        assert(all.drop_last() =~= seq![a] + segs.drop_last());
        lemma_join_front(a, segs.drop_last());
        assert(a + seq!['/'] + join_slash(segs.drop_last()) + seq!['/'] + segs.last() =~= a
            + seq!['/'] + (join_slash(segs.drop_last()) + seq!['/'] + segs.last()));
    }
}

/// Joining the segments of a path by `/` gives the path back.
pub proof fn lemma_join_segments(p: Seq<char>, cur: Seq<char>)
    ensures
        join_slash(segments_from(p, cur)) == cur + p,
    decreases p.len(),
{
    if p.len() == 0 {
        assert(cur + p =~= cur);
    } else if p[0] == '/' {
        lemma_segments_nonempty(p.drop_first(), Seq::empty());
        lemma_join_segments(p.drop_first(), Seq::empty());
        lemma_join_front(cur, segments_from(p.drop_first(), Seq::empty()));
        assert(cur + seq!['/'] + (Seq::<char>::empty() + p.drop_first()) =~= cur + p);
    } else {
        lemma_join_segments(p.drop_first(), cur.push(p[0]));
        assert(cur.push(p[0]) + p.drop_first() =~= cur + p);
    }
}

/// The segments after the first are those of what follows the first `/`.
pub proof fn lemma_segments_tail(p: Seq<char>, cur: Seq<char>)
    ensures
        has_slash(p) ==> segments_from(p, cur).drop_first() == path_segments(after_first_slash(p)),
        !has_slash(p) ==> segments_from(p, cur).len() == 1 && after_first_slash(p).len() == 0,
    decreases p.len(),
{
    if p.len() == 0 {
    } else if p[0] == '/' {
        lemma_segments_nonempty(p.drop_first(), Seq::empty());
        assert(has_slash(p));
        assert((seq![cur] + segments_from(p.drop_first(), Seq::empty())).drop_first()
            =~= segments_from(p.drop_first(), Seq::empty()));
    } else {
        lemma_segments_tail(p.drop_first(), cur.push(p[0]));
        assert(has_slash(p) == has_slash(p.drop_first())) by {
            if has_slash(p) {
                let i = choose|i: int| 0 <= i < p.len() && p[i] == '/';
                assert(p.drop_first()[i - 1] == '/');
            }
            if has_slash(p.drop_first()) {
                let i = choose|i: int| 0 <= i < p.drop_first().len() && p.drop_first()[i] == '/';
                assert(p[i + 1] == '/');
            }
        }
    }
}

/// Whether `p` is taken apart the same way on every platform: no `\` in it
/// (the second kind of separator on Windows), no `:` as its second character
/// (where Windows reads a drive prefix such as `C:`; anywhere else a `:` is an
/// ordinary character), and no leading `//` (which Windows reads as a UNC
/// prefix).
pub open spec fn portable_path(p: Seq<char>) -> bool {
    &&& forall|i: int| 0 <= i < p.len() ==> #[trigger] p[i] != '\\'
    &&& !(p.len() >= 2 && p[1] == ':')
    &&& !(p.len() >= 2 && p[0] == '/' && p[1] == '/')
}

/// Whether `p` starts at the root.
pub open spec fn is_rooted(p: Seq<char>) -> bool {
    p.len() > 0 && p[0] == '/'
}

/// The segments of `s` that name something: all but the empty ones (from
/// repeated or trailing separators) and `.`.
pub open spec fn normal_segments(s: Seq<Seq<char>>) -> Seq<Seq<char>>
    decreases s.len(),
{
    if s.len() == 0 {
        Seq::empty()
    } else if s[0].len() == 0 || s[0] == seq!['.'] {
        normal_segments(s.drop_first())
    } else {
        seq![s[0]] + normal_segments(s.drop_first())
    }
}

/// The components of a relative path, as the documentation of
/// `Path::components` describes them: its segments without empty ones and
/// without `.`, except for a `.` at the very beginning.
pub open spec fn relative_components(p: Seq<char>) -> Seq<Seq<char>> {
    let segs = path_segments(p);
    if segs[0] == seq!['.'] {
        seq![seq!['.']] + normal_segments(segs.drop_first())
    } else {
        normal_segments(segs)
    }
}

/// The components of `p` after the first one: after the root of a rooted
/// path, after the first component of a relative one.
pub open spec fn components_after_first(p: Seq<char>) -> Seq<Seq<char>> {
    if is_rooted(p) {
        normal_segments(path_segments(p).drop_first())
    } else if relative_components(p).len() == 0 {
        Seq::empty()
    } else {
        relative_components(p).drop_first()
    }
}

/// The name a file of the patch is listed under: the components of its path
/// after the first (as `patch -p1` takes the path), joined by `/`.
pub open spec fn listed_name(p: Seq<char>) -> Seq<char> {
    join_slash(components_after_first(p))
}

/// Segments that all name something are their own normal segments.
pub proof fn lemma_normal_segments_id(s: Seq<Seq<char>>)
    requires
        forall|i: int| 0 <= i < s.len() ==> #[trigger] s[i].len() > 0 && s[i] != seq!['.'],
    ensures
        normal_segments(s) == s,
    decreases s.len(),
{
    if s.len() > 0 {
        assert(s[0].len() > 0 && s[0] != seq!['.']);
        assert forall|i: int| 0 <= i < s.drop_first().len() implies #[trigger] s.drop_first()[i].len() > 0
            && s.drop_first()[i] != seq!['.'] by {
            assert(s.drop_first()[i] == s[i + 1]);
        }
        lemma_normal_segments_id(s.drop_first());
        assert(seq![s[0]] + s.drop_first() =~= s);
    }
}

/// A plain relative path is portable and not rooted; its components are its
/// segments, and the name it is listed under is what follows its first `/`.
pub proof fn lemma_simple_path(p: Seq<char>)
    requires
        simple_relative_path(p),
    ensures
        portable_path(p),
        !is_rooted(p),
        relative_components(p) == path_segments(p),
        listed_name(p) == join_slash(path_segments(p).drop_first()),
        listed_name(p) == after_first_slash(p),
{
    lemma_segments_nonempty(p, Seq::empty());
    let segs = path_segments(p);
    assert(segs[0].len() > 0 && segs[0] != seq!['.']);
    if p.len() > 0 && p[0] == '/' {
        assert(segs =~= seq![Seq::<char>::empty()] + segments_from(p.drop_first(), Seq::empty()));
        assert(segs[0].len() == 0);
    }
    lemma_normal_segments_id(segs);
    lemma_segments_tail(p, Seq::empty());
    if has_slash(p) {
        lemma_join_segments(after_first_slash(p), Seq::empty());
        assert(Seq::<char>::empty() + after_first_slash(p) =~= after_first_slash(p));
    } else {
        assert(segs.drop_first().len() == 0);
        assert(join_slash(segs.drop_first()) =~= after_first_slash(p));
    }
}

/// The components of `path`, as `Path::iter` yields them, each as a string.
///
/// Calls `std::path::Path::iter`. Stated for a portable path, as the
/// documentation of `Path::components` describes its parsing: a relative
/// path's components are `relative_components`; a rooted path's components are
/// the root and then its normal segments. The string of the root component
/// (`MAIN_SEPARATOR`) is not stated, nor is anything of other paths, as
/// separators and prefixes depend on the platform.
#[verifier::external_body]
pub(crate) fn path_components(path: &str) -> (r: Vec<String>)
    ensures
        portable_path(path@) && !is_rooted(path@) ==> string_views(r@) == relative_components(path@),
        portable_path(path@) && is_rooted(path@) ==> r@.len() >= 1 && string_views(r@).drop_first()
            == normal_segments(path_segments(path@).drop_first()),
{
    let mut r = Vec::new();
    for c in std::path::Path::new(path).iter() {
        r.push(c.to_string_lossy().into_owned());
    }
    r
}

} // verus!
