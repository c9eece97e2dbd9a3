//! Paths.

use vstd::prelude::*;

use crate::path;
use crate::text;

verus! {

/// A name put into a folder is the last component of the path, after those of the
/// folder.
pub proof fn a_name_is_put_into_its_folder(base: Seq<char>, name: Seq<char>)
    requires
        name.len() > 0,
        !name.contains('/'),
        name != seq!['.'],
        name != seq!['.', '.'],
    ensures
        path::components(path::joined(base, name)) == path::components(base).push(name),
        path::file_name(path::joined(base, name)) == Some(name),
        path::is_rooted(path::joined(base, name)) == path::is_rooted(base),
        path::lies_within(path::joined(base, name), base),
{
    path::a_joined_name_stays_inside_its_folder(base, name);
    let whole = path::joined(base, name);
    let parts = path::components(whole);
    assert(parts == path::components(base).push(name));
    assert(!path::is_rooted(name)) by {
        if path::is_rooted(name) {
            assert(name.contains(name[0]));
        }
    }
    assert(path::spans(whole).len() == parts.len());
    assert(path::span_text(whole, path::spans(whole).last()) == parts.last());
    if base.len() > 0 {
        assert(whole[0] == base[0]);
    } else {
        assert(whole =~= name);
    }
    assert(path::components(base).is_prefix_of(parts));
}

/// Where a path starts at the root, so does what is joined to it; a rooted path stands
/// for itself.
pub proof fn a_rooted_name_stands_for_itself(base: Seq<char>, name: Seq<char>)
    ensures
        name.len() > 0 && name[0] == '/' ==> path::joined(base, name) == name,
        (name.len() == 0 || name[0] != '/') && base.len() > 0 && base.last() != '/'
            ==> path::joined(base, name) == base + seq!['/'] + name,
        (name.len() == 0 || name[0] != '/') && (base.len() == 0 || base.last() == '/')
            ==> path::joined(base, name) == base + name,
{
    assert(base.push('/') + name =~= base + seq!['/'] + name);
}

/// A file name is a stem and, after its last dot, an extension; a name without a dot,
/// or with one only at its start, is all stem.
pub proof fn a_name_is_stem_and_extension(stem: Seq<char>, extension: Seq<char>)
    requires
        stem.len() > 0,
        !extension.contains('.'),
    ensures
        path::name_stem(stem + seq!['.'] + extension) == stem,
        path::name_extension(stem + seq!['.'] + extension) == Some(extension),
        path::name_stem(extension) == extension,
        path::name_extension(extension) is None,
        path::name_stem(seq!['.'] + extension) == seq!['.'] + extension,
        path::name_extension(seq!['.'] + extension) is None,
{
    let whole = stem + seq!['.'] + extension;
    lemma_dot(stem, extension);
    lemma_dot(Seq::empty(), extension);
    assert(whole.take(stem.len() as int) =~= stem);
    assert(whole.skip(stem.len() as int + 1) =~= extension);
    assert(Seq::<char>::empty() + seq!['.'] + extension =~= seq!['.'] + extension);
    path::lemma_last_dot(extension);
    if path::last_dot(extension) >= 0 {
        assert(extension.contains(extension[path::last_dot(extension)]));
    }
}

proof fn lemma_dot(stem: Seq<char>, extension: Seq<char>)
    requires
        !extension.contains('.'),
    ensures
        path::last_dot(stem + seq!['.'] + extension) == stem.len(),
{
    let whole = stem + seq!['.'] + extension;
    path::lemma_last_dot(whole);
    assert(whole[stem.len() as int] == '.');
    let last = path::last_dot(whole);
    if last > stem.len() {
        assert(whole[last] == extension[last - stem.len() - 1]);
        assert(extension.contains(extension[last - stem.len() - 1]));
    }
}

/// Two paths that name the same place have the same components and both start at the
/// root, or neither.
pub proof fn the_same_place_has_the_same_components(left: Seq<char>, right: Seq<char>)
    ensures
        path::same_place(left, right) <==> path::components(left) == path::components(right) && (
        path::is_rooted(left) <==> path::is_rooted(right)),
        path::same_place(left, right) ==> path::same_place(right, left),
        path::same_place(left, left),
        path::same_place(left, right) && left.len() > 0 && right.len() > 0 ==> path::lies_within(
            left,
            right,
        ) && path::lies_within(right, left),
{
}

/// What lies within a place lies within all that this place lies within, and each
/// place lies within itself.
pub proof fn lying_within_is_transitive(inner: Seq<char>, middle: Seq<char>, outer: Seq<char>)
    requires
        path::lies_within(inner, middle),
        path::lies_within(middle, outer),
        middle.len() > 0,
    ensures
        path::lies_within(inner, outer),
        path::lies_within(inner, inner),
{
    if outer.len() > 0 {
        let a = path::components(inner);
        let b = path::components(middle);
        let c = path::components(outer);
        assert(c =~= a.subrange(0, c.len() as int)) by {
            assert forall|i: int| 0 <= i < c.len() implies c[i] == a[i] by {
                assert(c[i] == b.subrange(0, c.len() as int)[i]);
                assert(b[i] == a.subrange(0, b.len() as int)[i]);
            }
        }
    }
    assert(path::components(inner) =~= path::components(inner).subrange(
        0,
        path::components(inner).len() as int,
    ));
}

/// What lies within a place has its components in front, and starts where it starts.
pub proof fn what_lies_within_starts_alike(inner: Seq<char>, outer: Seq<char>)
    requires
        outer.len() > 0,
    ensures
        path::lies_within(inner, outer) <==> (path::is_rooted(inner) == path::is_rooted(outer)
            && path::components(outer).len() <= path::components(inner).len() && forall|i: int|
            0 <= i < path::components(outer).len() ==> path::components(outer)[i]
                == #[trigger] path::components(inner)[i]),
{
    let a = path::components(inner);
    let b = path::components(outer);
    if b.len() <= a.len() && (forall|i: int| 0 <= i < b.len() ==> b[i] == #[trigger] a[i]) {
        assert(b =~= a.subrange(0, b.len() as int));
    }
    if b.is_prefix_of(a) {
        assert forall|i: int| 0 <= i < b.len() implies b[i] == #[trigger] a[i] by {
            assert(b[i] == a.subrange(0, b.len() as int)[i]);
        }
    }
}

/// Components stand between slashes: those of a path are those of what stands before
/// a slash and then those of what stands after it, where that does not start with a
/// single dot.
pub proof fn slashes_part_components(name: Seq<char>, rest: Seq<char>)
    requires
        !name.contains('/'),
        name.len() > 0,
    ensures
        path::spans(name + seq!['/'] + rest).len() == 1 + path::spans_from(
            name + seq!['/'] + rest,
            name.len() as int + 1,
        ).len(),
        path::components(name + seq!['/'] + rest).len() > 0,
        path::components(name + seq!['/'] + rest)[0] == name,
{
    let whole = name + seq!['/'] + rest;
    text::lemma_position_from(whole, '/', 0);
    let end = text::position_from(whole, '/', 0);
    assert(whole[name.len() as int] == '/');
    assert(end == name.len()) by {
        if end < name.len() {
            assert(whole[end] == name[end]);
            assert(name.contains(name[end]));
        }
    }
    assert(whole.subrange(0, end) =~= name);
    assert(path::is_component(whole, 0, end));
    assert(path::spans(whole)[0] == (0int, end));
}

/// Empty pieces name nothing: a path is not changed by a slash at its front or a second
/// slash, but for its start.
pub proof fn empty_pieces_name_nothing(path: Seq<char>, from: int)
    requires
        0 <= from < path.len(),
        path[from] == '/',
    ensures
        path::spans_from(path, from) == path::spans_from(path, from + 1),
{
}

/// A dot between slashes names nothing; at the start of a path it is a component.
pub proof fn a_dot_inside_names_nothing(path: Seq<char>, from: int)
    requires
        0 <= from < path.len(),
        path[from] == '.',
        from + 1 == path.len() || path[from + 1] == '/',
    ensures
        from > 0 ==> path::spans_from(path, from) == path::spans_from(path, from + 2),
        from == 0 ==> path::spans_from(path, from) == seq![(0int, 1int)] + path::spans_from(
            path,
            2,
        ),
{
    text::lemma_position_from(path, '/', from);
    let end = text::position_from(path, '/', from);
    assert(end == from + 1) by {
        if from + 1 < path.len() {
            assert(path[from + 1] == '/');
        }
    }
    assert(path.subrange(from, end) =~= seq!['.']);
}

/// A path whose file has a stem keeps its folder and its stem with another extension.
pub proof fn another_extension_keeps_the_stem(
    base: Seq<char>,
    stem: Seq<char>,
    extension: Seq<char>,
    wanted: Seq<char>,
)
    requires
        stem.len() > 0,
        !stem.contains('/'),
        stem != seq!['.'],
        !extension.contains('.'),
        !extension.contains('/'),
        wanted.len() > 0,
        !wanted.contains('.'),
        !wanted.contains('/'),
    ensures
        path::with_extension(path::joined(base, stem + seq!['.'] + extension), wanted)
            == path::joined(base, stem + seq!['.'] + wanted),
{
    let name = stem + seq!['.'] + extension;
    let other = stem + seq!['.'] + wanted;
    assert(name[stem.len() as int] == '.');
    assert(!name.contains('/')) by {
        if name.contains('/') {
            let i = choose|i: int| 0 <= i < name.len() && name[i] == '/';
            if i < stem.len() {
                assert(stem[i] == '/');
            } else if i > stem.len() {
                assert(extension[i - stem.len() - 1] == '/');
            }
        }
    }
    assert(name != seq!['.']) by {
        assert(name.len() >= 2);
    }
    assert(name != seq!['.', '.']) by {
        if name =~= seq!['.', '.'] {
            assert(stem.len() == 1);
            assert(stem[0] == name[0]);
            assert(stem =~= seq!['.']);
        }
    }
    a_name_is_put_into_its_folder(base, name);
    a_name_is_stem_and_extension(stem, extension);
    let whole = path::joined(base, name);
    assert(!path::is_rooted(name)) by {
        if path::is_rooted(name) {
            assert(name.contains(name[0]));
        }
    }
    assert(!path::is_rooted(other)) by {
        assert(other[0] == stem[0]);
        if path::is_rooted(other) {
            assert(stem.contains(stem[0]));
        }
    }
    let start = whole.len() - name.len();
    path::lemma_spans_from(whole, 0);
    let span = path::spans(whole)[path::spans(whole).len() - 1];
    assert(path::span_text(whole, span) == name);
    assert(span.1 - span.0 == name.len());
    assert(span.0 == start && span.1 == whole.len()) by {
        path::a_joined_name_stays_inside_its_folder(base, name);
    }
    let front = whole.take(start);
    assert(whole =~= front + name);
    assert(path::joined(base, other) =~= front + other);
    assert(whole.take(span.0 + stem.len()).push('.') + wanted =~= front + other);
}

/// A path that ends with a step up, or with a single dot where that is all of it, has no
/// file name; so has the root, and the empty path.
pub proof fn dots_are_no_file_names()
    ensures
        !path::is_name(seq!['.']),
        !path::is_name(seq!['.', '.']),
        path::file_name(seq!['.']) is None,
        path::file_name(seq!['.', '.']) is None,
        path::file_name(seq!['/']) is None,
        path::file_name(Seq::empty()) is None,
{
    let up = seq!['.', '.'];
    text::lemma_position_from(up, '/', 0);
    assert(text::position_from(up, '/', 0) == 2);
    assert(up.subrange(0, 2) =~= up);
    assert(up != path::dot()) by {
        assert(up.len() == 2);
    }
    assert(path::spans_from(up, 3) =~= Seq::empty());
    assert(path::spans(up) =~= seq![(0int, 2int)]);
    a_dot_inside_names_nothing(seq!['.'], 0);
    assert(path::spans_from(seq!['.'], 2) =~= Seq::empty());
    assert(path::spans(seq!['.']) =~= seq![(0int, 1int)]);
    assert(seq!['.'].subrange(0, 1) =~= seq!['.']);
    empty_pieces_name_nothing(seq!['/'], 0);
    assert(path::spans_from(seq!['/'], 1) =~= Seq::empty());
    assert(path::spans(Seq::empty()) =~= Seq::empty());
}

/// The folder of a path with one name is the root where the path starts there, and the
/// empty path else; the root and the empty path have none.
pub proof fn a_single_name_stands_at_the_start(name: Seq<char>)
    requires
        name.len() > 0,
        !name.contains('/'),
        name != seq!['.'],
        name != seq!['.', '.'],
    ensures
        path::parent(name) == Some(Seq::<char>::empty()),
        path::parent(seq!['/'] + name) == Some(seq!['/']),
        path::parent(Seq::empty()) is None,
        path::parent(seq!['/']) is None,
{
    path::lemma_plain_name(name);
    assert(!path::is_rooted(name));
    let root = seq!['/'];
    empty_pieces_name_nothing(root, 0);
    assert(path::spans_from(root, 1) =~= Seq::empty());
    assert(path::spans(root) =~= Seq::empty());
    path::a_joined_name_stays_inside_its_folder(root, name);
    assert(path::joined(root, name) =~= root + name);
    assert(path::spans(root + name).len() == 1);
    assert(path::spans(Seq::empty()) =~= Seq::empty());
}

/// Another name for a file leaves it in its folder; a path without a file name is a
/// folder to put the name into.
pub proof fn another_name_stays_in_the_folder(path: Seq<char>, base: Seq<char>, name: Seq<char>)
    requires
        name.len() > 0,
        !name.contains('/'),
        name != seq!['.'],
        name != seq!['.', '.'],
    ensures
        path::file_name(path::with_name(path, name)) == Some(name),
        path::file_name(path) is Some ==> path::components(path::with_name(path, name))
            == path::components(path).drop_last().push(name),
        path::file_name(path) is None ==> path::components(path::with_name(path, name))
            == path::components(path).push(name),
        path::file_name(path) is Some && path::parent(path) == Some(base) ==> path::with_name(
            path,
            name,
        ) == path::joined(base, name),
{
    if path::file_name(path) is Some {
        path::a_file_stands_in_its_folder(path);
        let folder = path::parent(path)->0;
        a_name_is_put_into_its_folder(folder, name);
        assert(path::components(path).drop_last() =~= path::components(folder));
    } else {
        a_name_is_put_into_its_folder(path, name);
    }
}

} // verus!
