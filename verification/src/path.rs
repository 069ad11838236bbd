//! Paths as text: absolute form, joining, parents.
//!
//! Everything here is lexical. A path is a sequence of characters, its
//! segments are the pieces between `/`, and nothing is looked up on disk.

use vstd::prelude::*;
use crate::error::{text_result, LinkError, LinkErrorView};

verus! {

/// A path is absolute when it starts at the root.
pub open spec fn is_absolute(path: Seq<char>) -> bool {
    path.len() > 0 && path[0] == '/'
}

/// The pieces of `path` between its separators, empty pieces included.
pub open spec fn segments(path: Seq<char>) -> Seq<Seq<char>>
    decreases path.len(),
{
    if path.len() == 0 {
        seq![Seq::empty()]
    } else {
        let before = segments(path.drop_last());
        if path.last() == '/' {
            before.push(Seq::empty())
        } else {
            before.drop_last().push(before.last().push(path.last()))
        }
    }
}

/// The segment that stands for the directory itself.
pub open spec fn is_current(segment: Seq<char>) -> bool {
    segment == seq!['.']
}

/// The segment that stands for the directory above.
pub open spec fn is_parent(segment: Seq<char>) -> bool {
    segment == seq!['.', '.']
}

/// The names that remain when `segments` are walked from the root: empty
/// segments and `.` are dropped, `..` takes back the name before it, and
/// above the root there is only the root.
pub open spec fn resolved(segments: Seq<Seq<char>>) -> Seq<Seq<char>>
    decreases segments.len(),
{
    if segments.len() == 0 {
        Seq::empty()
    } else {
        let before = resolved(segments.drop_last());
        let segment = segments.last();
        if segment.len() == 0 || is_current(segment) {
            before
        } else if is_parent(segment) {
            if before.len() > 0 {
                before.drop_last()
            } else {
                before
            }
        } else {
            before.push(segment)
        }
    }
}

/// Each name with a separator in front of it.
pub open spec fn rendered(names: Seq<Seq<char>>) -> Seq<char>
    decreases names.len(),
{
    if names.len() == 0 {
        Seq::empty()
    } else {
        rendered(names.drop_last()) + seq!['/'] + names.last()
    }
}

/// The absolute path that `path` names when read from the root.
pub open spec fn normalized(path: Seq<char>) -> Seq<char> {
    let names = resolved(segments(path));
    if names.len() == 0 {
        seq!['/']
    } else {
        rendered(names)
    }
}

/// The absolute form of `path`: an absolute path is normalized as it is, a
/// relative one is read from the working directory `cwd`. There is none
/// where `path` is relative and no absolute working directory is known.
pub open spec fn absolute(path: Seq<char>, cwd: Option<Seq<char>>) -> Option<Seq<char>> {
    if is_absolute(path) {
        Some(normalized(path))
    } else {
        match cwd {
            Some(dir) => if is_absolute(dir) {
                Some(normalized(dir + seq!['/'] + path))
            } else {
                None
            },
            None => None,
        }
    }
}

/// A name that can stand in a normalized path: it is not empty, holds no
/// separator, and is neither `.` nor `..`.
pub open spec fn is_name(segment: Seq<char>) -> bool {
    &&& segment.len() > 0
    &&& !segment.contains('/')
    &&& !is_current(segment)
    &&& !is_parent(segment)
}

/// No segment holds a separator.
pub proof fn lemma_segments_hold_no_separator(path: Seq<char>)
    ensures
        segments(path).len() >= 1,
        forall|i: int| 0 <= i < segments(path).len() ==> !(#[trigger] segments(path)[i]).contains('/'),
    decreases path.len(),
{
    if path.len() > 0 {
        lemma_segments_hold_no_separator(path.drop_last());
        let before = segments(path.drop_last());
        let now = segments(path);
        assert forall|i: int| 0 <= i < now.len() implies !(#[trigger] now[i]).contains('/') by {
            if i < now.len() - 1 {
                assert(now[i] == before[i]);
            } else if path.last() == '/' {
                assert(now[i] =~= Seq::<char>::empty());
            } else {
                let grown = before.last().push(path.last());
                assert(now[i] == grown);
                assert(!before[before.len() - 1].contains('/'));
                if grown.contains('/') {
                    let k = choose|k: int| 0 <= k < grown.len() && grown[k] == '/';
                    assert(before.last()[k] == '/');
                }
            }
        }
    }
}

/// The pieces with one separator between each two of them.
pub open spec fn interleaved(pieces: Seq<Seq<char>>) -> Seq<char>
    decreases pieces.len(),
{
    if pieces.len() == 0 {
        Seq::empty()
    } else if pieces.len() == 1 {
        pieces[0]
    } else {
        interleaved(pieces.drop_last()) + seq!['/'] + pieces.last()
    }
}

/// The segments split the path at its separators: put together again with
/// a separator between each two, they are the path.
pub proof fn lemma_segments_split_the_path(path: Seq<char>)
    ensures
        interleaved(segments(path)) == path,
    decreases path.len(),
{
    if path.len() == 0 {
        assert(segments(path)[0] =~= path);
    } else {
        let shorter = path.drop_last();
        let before = segments(shorter);
        let now = segments(path);
        lemma_segments_split_the_path(shorter);
        lemma_segments_hold_no_separator(shorter);
        if path.last() == '/' {
            assert(now.drop_last() == before);
            assert(interleaved(now) =~= shorter + seq!['/'] + Seq::<char>::empty());
            assert(shorter + seq!['/'] + Seq::<char>::empty() =~= path);
        } else {
            let grown = before.last().push(path.last());
            assert(now.last() == grown);
            if before.len() == 1 {
                assert(now.len() == 1);
                assert(before[0] == shorter);
                assert(now[0] == grown);
                assert(grown =~= path);
            } else {
                assert(now.drop_last() == before.drop_last());
                assert(interleaved(before) == interleaved(before.drop_last()) + seq!['/']
                    + before.last());
                assert(interleaved(now) == interleaved(before.drop_last()) + seq!['/'] + grown);
                assert(interleaved(before.drop_last()) + seq!['/'] + grown =~= (interleaved(
                    before.drop_last(),
                ) + seq!['/'] + before.last()).push(path.last()));
                assert(shorter.push(path.last()) =~= path);
            }
        }
    }
}

/// What remains of segments without separators are names.
pub proof fn lemma_resolved_are_names(pieces: Seq<Seq<char>>)
    requires
        forall|i: int| 0 <= i < pieces.len() ==> !(#[trigger] pieces[i]).contains('/'),
    ensures
        forall|i: int| 0 <= i < resolved(pieces).len() ==> is_name(#[trigger] resolved(pieces)[i]),
    decreases pieces.len(),
{
    if pieces.len() > 0 {
        let earlier = pieces.drop_last();
        assert forall|i: int| 0 <= i < earlier.len() implies !(#[trigger] earlier[i]).contains(
            '/',
        ) by {
            assert(earlier[i] == pieces[i]);
        }
        lemma_resolved_are_names(earlier);
        let before = resolved(earlier);
        let now = resolved(pieces);
        assert(pieces.last() == pieces[pieces.len() - 1]);
        assert forall|i: int| 0 <= i < now.len() implies is_name(#[trigger] now[i]) by {
            if i < before.len() {
                assert(now[i] == before[i]);
            }
        }
    }
}

/// Text without a separator, put behind a path, grows its last segment.
pub proof fn lemma_segments_of_appended_name(path: Seq<char>, name: Seq<char>)
    requires
        !name.contains('/'),
    ensures
        segments(path + name) == segments(path).drop_last().push(segments(path).last() + name),
    decreases name.len(),
{
    lemma_segments_hold_no_separator(path);
    if name.len() == 0 {
        assert(path + name == path);
        assert(segments(path).last() + name == segments(path).last());
        assert(segments(path).drop_last().push(segments(path).last()) == segments(path));
    } else {
        let shorter = name.drop_last();
        assert(name[name.len() - 1] != '/');
        assert(!shorter.contains('/')) by {
            if shorter.contains('/') {
                let k = choose|k: int| 0 <= k < shorter.len() && shorter[k] == '/';
                assert(name[k] == '/');
            }
        }
        lemma_segments_of_appended_name(path, shorter);
        assert((path + name).drop_last() == path + shorter);
        assert((path + name).last() == name.last());
        assert(segments(path).last() + shorter.push(name.last()) == (segments(path).last()
            + shorter).push(name.last()));
        assert(shorter.push(name.last()) == name);
    }
}

/// The segments of rendered names are an empty segment and the names.
pub proof fn lemma_segments_of_rendered(names: Seq<Seq<char>>)
    requires
        forall|i: int| 0 <= i < names.len() ==> is_name(#[trigger] names[i]),
    ensures
        segments(rendered(names)) == seq![Seq::<char>::empty()] + names,
    decreases names.len(),
{
    if names.len() == 0 {
        assert(seq![Seq::<char>::empty()] + names == seq![Seq::<char>::empty()]);
    } else {
        let earlier = names.drop_last();
        let name = names.last();
        assert(name == names[names.len() - 1]);
        assert forall|i: int| 0 <= i < earlier.len() implies is_name(#[trigger] earlier[i]) by {
            assert(earlier[i] == names[i]);
        }
        lemma_segments_of_rendered(earlier);
        let stem = rendered(earlier) + seq!['/'];
        assert(stem.drop_last() == rendered(earlier));
        assert(stem.last() == '/');
        assert(segments(stem) == segments(rendered(earlier)).push(Seq::empty()));
        lemma_segments_of_appended_name(stem, name);
        assert(Seq::<char>::empty() + name == name);
        assert(segments(stem).drop_last() == segments(rendered(earlier)));
        assert((seq![Seq::<char>::empty()] + earlier).push(name) == seq![Seq::<char>::empty()]
            + names);
    }
}

/// Names that follow other segments remain as they are.
pub proof fn lemma_resolved_keeps_names(pieces: Seq<Seq<char>>, names: Seq<Seq<char>>)
    requires
        forall|i: int| 0 <= i < names.len() ==> is_name(#[trigger] names[i]),
    ensures
        resolved(pieces + names) == resolved(pieces) + names,
    decreases names.len(),
{
    if names.len() == 0 {
        assert(pieces + names == pieces);
        assert(resolved(pieces) + names == resolved(pieces));
    } else {
        let earlier = names.drop_last();
        assert(names.last() == names[names.len() - 1]);
        assert forall|i: int| 0 <= i < earlier.len() implies is_name(#[trigger] earlier[i]) by {
            assert(earlier[i] == names[i]);
        }
        lemma_resolved_keeps_names(pieces, earlier);
        assert((pieces + names).drop_last() == pieces + earlier);
        assert((pieces + names).last() == names.last());
        assert((resolved(pieces) + earlier).push(names.last()) == resolved(pieces) + names);
    }
}

/// A normalized path is absolute.
pub proof fn lemma_normalized_is_absolute(path: Seq<char>)
    ensures
        is_absolute(normalized(path)),
{
    let names = resolved(segments(path));
    if names.len() > 0 {
        lemma_rendered_starts_at_root(names);
    }
}

/// Rendered names begin with a separator.
pub proof fn lemma_rendered_starts_at_root(names: Seq<Seq<char>>)
    requires
        names.len() > 0,
    ensures
        is_absolute(rendered(names)),
    decreases names.len(),
{
    if names.len() > 1 {
        lemma_rendered_starts_at_root(names.drop_last());
    } else {
        assert(names.drop_last().len() == 0);
        assert(rendered(names.drop_last()) =~= Seq::<char>::empty());
    }
}

/// A normalized path is returned unchanged: normalizing it again gives the
/// same path.
pub proof fn lemma_normalized_is_unchanged(path: Seq<char>)
    ensures
        normalized(normalized(path)) == normalized(path),
{
    let names = resolved(segments(path));
    lemma_segments_hold_no_separator(path);
    lemma_resolved_are_names(segments(path));
    if names.len() == 0 {
        let root = seq!['/'];
        assert(root.drop_last() =~= Seq::<char>::empty());
        assert(segments(root.drop_last()) == seq![Seq::<char>::empty()]);
        assert(segments(root) == seq![Seq::<char>::empty(), Seq::<char>::empty()]);
        let pieces = segments(root);
        assert(pieces.drop_last() =~= seq![Seq::<char>::empty()]);
        assert(pieces.drop_last().drop_last() =~= Seq::<Seq<char>>::empty());
        assert(resolved(pieces.drop_last().drop_last()) == Seq::<Seq<char>>::empty());
        assert(resolved(pieces.drop_last()) == Seq::<Seq<char>>::empty());
        assert(resolved(pieces) == Seq::<Seq<char>>::empty());
    } else {
        lemma_segments_of_rendered(names);
        let first = seq![Seq::<char>::empty()];
        assert(first.drop_last() =~= Seq::<Seq<char>>::empty());
        assert(resolved(first.drop_last()) == Seq::<Seq<char>>::empty());
        assert(first.last().len() == 0);
        assert(resolved(first) == Seq::<Seq<char>>::empty());
        lemma_resolved_keeps_names(first, names);
        assert(Seq::<Seq<char>>::empty() + names == names);
    }
}

/// The absolute form of a path is absolute, and an absolute form is
/// already in absolute form: resolving it again, from any working
/// directory, gives it back.
pub proof fn lemma_absolute_is_absolute(path: Seq<char>, cwd: Option<Seq<char>>, other: Option<Seq<char>>)
    requires
        absolute(path, cwd) is Some,
    ensures
        is_absolute(absolute(path, cwd)->0),
        absolute(absolute(path, cwd)->0, other) == absolute(path, cwd),
{
    if is_absolute(path) {
        lemma_normalized_is_absolute(path);
        lemma_normalized_is_unchanged(path);
    } else {
        let whole = cwd->0 + seq!['/'] + path;
        lemma_normalized_is_absolute(whole);
        lemma_normalized_is_unchanged(whole);
    }
}

/// Splits `path` at its separators.
pub fn split_segments(path: &str) -> (pieces: Vec<String>)
    ensures
        pieces.deep_view() == segments(path@),
{
    let length = path.unicode_len();
    let mut done: Vec<String> = Vec::new();
    let mut current = String::new();
    let mut i: usize = 0;
    while i < length
        invariant
            i <= length,
            length == path@.len(),
            done.deep_view().push(current@) == segments(path@.take(i as int)),
        decreases length - i,
    {
        let c = path.get_char(i);
        proof {
            let now = path@.take(i + 1);
            assert(now.drop_last() == path@.take(i as int));
            assert(now.last() == c);
        }
        if c == '/' {
            done.push(current);
            current = String::new();
        } else {
            let ghost before = current@;
            current.append(path.substring_char(i, i + 1));
            assert(current@ == before.push(c));
        }
        i += 1;
    }
    assert(path@.take(length as int) == path@);
    done.push(current);
    done
}

/// Whether `path` starts at the root.
pub fn starts_at_root(path: &str) -> (yes: bool)
    ensures
        yes == is_absolute(path@),
{
    path.unicode_len() > 0 && path.get_char(0) == '/'
}

fn names_current(segment: &str) -> (yes: bool)
    ensures
        yes == is_current(segment@),
{
    let yes = segment.unicode_len() == 1 && segment.get_char(0) == '.';
    assert(yes ==> segment@ =~= seq!['.']);
    yes
}

fn names_parent(segment: &str) -> (yes: bool)
    ensures
        yes == is_parent(segment@),
{
    let yes = segment.unicode_len() == 2 && segment.get_char(0) == '.' && segment.get_char(1)
        == '.';
    assert(yes ==> segment@ =~= seq!['.', '.']);
    yes
}

/// Walks `pieces` from the root and returns the names that remain.
pub fn resolve_segments(pieces: &Vec<String>) -> (names: Vec<String>)
    ensures
        names.deep_view() == resolved(pieces.deep_view()),
{
    let mut names: Vec<String> = Vec::new();
    let mut i: usize = 0;
    while i < pieces.len()
        invariant
            i <= pieces.len(),
            names.deep_view() == resolved(pieces.deep_view().take(i as int)),
        decreases pieces.len() - i,
    {
        let piece = &pieces[i];
        proof {
            let now = pieces.deep_view().take(i + 1);
            assert(now.drop_last() == pieces.deep_view().take(i as int));
            assert(now.last() == piece@);
        }
        if piece.as_str().unicode_len() == 0 || names_current(piece.as_str()) {
        } else if names_parent(piece.as_str()) {
            if names.len() > 0 {
                names.pop();
            }
        } else {
            names.push(piece.clone());
        }
        i += 1;
    }
    assert(pieces.deep_view().take(pieces.len() as int) == pieces.deep_view());
    names
}

/// Writes `names` out, each with a separator in front of it.
pub fn render_names(names: &Vec<String>) -> (text: String)
    ensures
        text@ == rendered(names.deep_view()),
{
    let mut text = String::new();
    let mut i: usize = 0;
    while i < names.len()
        invariant
            i <= names.len(),
            text@ == rendered(names.deep_view().take(i as int)),
        decreases names.len() - i,
    {
        proof {
            reveal_strlit("/");
            let now = names.deep_view().take(i + 1);
            assert(now.drop_last() == names.deep_view().take(i as int));
            assert(now.last() == names[i as int]@);
            assert("/"@ =~= seq!['/']);
        }
        text.append("/");
        text.append(names[i].as_str());
        i += 1;
    }
    assert(names.deep_view().take(names.len() as int) == names.deep_view());
    text
}

/// Reads `path` from the root: `.` and empty segments vanish, `..` steps
/// back, and the result is written with single separators.
pub fn normalize(path: &str) -> (text: String)
    ensures
        text@ == normalized(path@),
{
    let pieces = split_segments(path);
    let names = resolve_segments(&pieces);
    if names.len() == 0 {
        proof {
            reveal_strlit("/");
            assert("/"@ =~= seq!['/']);
        }
        String::from_str("/")
    } else {
        render_names(&names)
    }
}

/// Brings `path` into absolute form without asking whether it exists.
///
/// An absolute path is normalized as it stands; a relative one is read from
/// the working directory `cwd`. Where `path` is relative and `cwd` is missing
/// or not absolute itself, the path cannot be resolved.
pub fn absolute_path(path: &str, cwd: Option<&str>) -> (resolved: Result<String, LinkError>)
    ensures
        text_result(resolved) == match absolute(path@, cwd.deep_view()) {
            Some(text) => Ok::<Seq<char>, LinkErrorView>(text),
            None => Err(LinkErrorView::PathResolution { path: path@ }),
        },
{
    if starts_at_root(path) {
        return Ok(normalize(path));
    }
    match cwd {
        Some(dir) => {
            if starts_at_root(dir) {
                proof {
                    reveal_strlit("/");
                    assert("/"@ =~= seq!['/']);
                }
                let whole = String::from_str(dir).concat("/").concat(path);
                Ok(normalize(whole.as_str()))
            } else {
                Err(LinkError::PathResolution { path: String::from_str(path) })
            }
        },
        None => Err(LinkError::PathResolution { path: String::from_str(path) }),
    }
}

/// `relative` appended to `base`, with one separator between them where
/// `base` does not end in one. Nothing is appended for an empty `relative`.
pub open spec fn joined(base: Seq<char>, relative: Seq<char>) -> Seq<char> {
    if relative.len() == 0 {
        base
    } else if base.len() == 0 || base.last() == '/' {
        base + relative
    } else {
        base + seq!['/'] + relative
    }
}

/// Appends `relative` to `base`.
pub fn join(base: &str, relative: &str) -> (text: String)
    ensures
        text@ == joined(base@, relative@),
{
    let length = base.unicode_len();
    if relative.unicode_len() == 0 {
        String::from_str(base)
    } else if length == 0 || base.get_char(length - 1) == '/' {
        String::from_str(base).concat(relative)
    } else {
        proof {
            reveal_strlit("/");
            assert("/"@ =~= seq!['/']);
        }
        String::from_str(base).concat("/").concat(relative)
    }
}

/// Where the last separator of `path` stands, or -1 where it has none.
pub open spec fn last_separator(path: Seq<char>) -> int
    decreases path.len(),
{
    if path.len() == 0 {
        -1
    } else if path.last() == '/' {
        path.len() - 1
    } else {
        last_separator(path.drop_last())
    }
}

/// The last separator is a separator, and none comes after it; where there
/// is none, the path holds no separator at all.
pub proof fn lemma_last_separator_is_last(path: Seq<char>)
    ensures
        -1 <= last_separator(path) < path.len(),
        last_separator(path) >= 0 ==> path[last_separator(path)] == '/',
        forall|i: int| last_separator(path) < i < path.len() ==> path[i] != '/',
    decreases path.len(),
{
    if path.len() > 0 && path.last() != '/' {
        lemma_last_separator_is_last(path.drop_last());
        assert forall|i: int| last_separator(path) < i < path.len() implies path[i] != '/' by {
            if i < path.len() - 1 {
                assert(path.drop_last()[i] == path[i]);
            }
        }
    }
}

/// The directory that holds `path`: the text before its last separator, or
/// the root where that separator is the first character. A path without a
/// separator, and the root itself, have none.
pub open spec fn parent(path: Seq<char>) -> Option<Seq<char>> {
    let at = last_separator(path);
    if at < 0 || path.len() == 1 {
        None
    } else if at == 0 {
        Some(seq!['/'])
    } else {
        Some(path.take(at))
    }
}

/// The directory that holds `path`, if it has one.
pub fn parent_of(path: &str) -> (dir: Option<String>)
    ensures
        dir.deep_view() == parent(path@),
{
    let length = path.unicode_len();
    let mut i: usize = length;
    assert(path@.take(length as int) == path@);
    while i > 0 && path.get_char(i - 1) != '/'
        invariant
            i <= length,
            length == path@.len(),
            last_separator(path@) == last_separator(path@.take(i as int)),
        decreases i,
    {
        proof {
            let now = path@.take(i as int);
            assert(now.drop_last() == path@.take(i - 1));
        }
        i -= 1;
    }
    proof {
        assert(path@.take(length as int) == path@);
        let now = path@.take(i as int);
        if i > 0 {
            assert(now.last() == '/');
        }
    }
    if i == 0 || length == 1 {
        None
    } else if i == 1 {
        proof {
            reveal_strlit("/");
            assert("/"@ =~= seq!['/']);
        }
        Some(String::from_str("/"))
    } else {
        Some(String::from_str(path.substring_char(0, i - 1)))
    }
}

/// A relative path that never steps upwards: it does not start at the root
/// and none of its segments is `..`.
pub open spec fn descends(relative: Seq<char>) -> bool {
    &&& !is_absolute(relative)
    &&& forall|i: int|
        0 <= i < segments(relative).len() ==> !is_parent(#[trigger] segments(relative)[i])
}

/// Whether `relative` stays below the directory it is read from.
pub fn is_descending(relative: &str) -> (yes: bool)
    ensures
        yes == descends(relative@),
{
    if starts_at_root(relative) {
        return false;
    }
    let pieces = split_segments(relative);
    let mut i: usize = 0;
    while i < pieces.len()
        invariant
            i <= pieces.len(),
            pieces.deep_view() == segments(relative@),
            forall|k: int| 0 <= k < i ==> !is_parent(#[trigger] segments(relative@)[k]),
        decreases pieces.len() - i,
    {
        if names_parent(pieces[i].as_str()) {
            assert(is_parent(segments(relative@)[i as int]));
            return false;
        }
        i += 1;
    }
    true
}

} // verus!
