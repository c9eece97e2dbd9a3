//! Paths as text, in the grammar of Unix, on which the program is installed: names
//! separated by slashes.

use vstd::prelude::*;

use crate::text::{self, find_char, from_char_range, same_text, to_chars};

verus! {

/// A path that starts at the root.
pub open spec fn is_rooted(path: Seq<char>) -> bool {
    path.len() > 0 && path[0] == '/'
}

pub open spec fn dot() -> Seq<char> {
    seq!['.']
}

pub open spec fn dot_dot() -> Seq<char> {
    seq!['.', '.']
}

/// Whether the piece between two slashes names something. Empty pieces do not,
/// nor does a single dot, except at the very start of the path.
pub open spec fn is_component(path: Seq<char>, from: int, end: int) -> bool {
    from < end && (path.subrange(from, end) != dot() || from == 0)
}

/// What is left of a path at a position, one past its end included.
pub open spec fn rest_len(path: Seq<char>, from: int) -> int {
    if from <= path.len() {
        path.len() + 1 - from
    } else {
        0
    }
}

/// The start and end of each component of `path[from..]`.
pub open spec fn spans_from(path: Seq<char>, from: int) -> Seq<(int, int)>
    decreases rest_len(path, from),
{
    let end = text::position_from(path, '/', from);
    if from < 0 || from >= path.len() || end < from {
        Seq::empty()
    } else if is_component(path, from, end) {
        seq![(from, end)] + spans_from(path, end + 1)
    } else {
        spans_from(path, end + 1)
    }
}

/// The start and end of each component of a path; the root is none of them.
pub open spec fn spans(path: Seq<char>) -> Seq<(int, int)> {
    spans_from(path, 0)
}

/// The text of a component.
pub open spec fn span_text(path: Seq<char>, span: (int, int)) -> Seq<char> {
    path.subrange(span.0, span.1)
}

/// The components of a path, as text.
pub open spec fn components(path: Seq<char>) -> Seq<Seq<char>> {
    spans(path).map_values(|span: (int, int)| span_text(path, span))
}

/// A component that names an entry of the folder it stands in.
pub open spec fn is_name(component: Seq<char>) -> bool {
    component != dot() && component != dot_dot()
}

/// The last component, where it is a name.
pub open spec fn file_name(path: Seq<char>) -> Option<Seq<char>> {
    let all = spans(path);
    if all.len() > 0 && is_name(span_text(path, all.last())) {
        Some(span_text(path, all.last()))
    } else {
        None
    }
}

/// The path without its last component; nothing for the root and the empty path.
pub open spec fn parent(path: Seq<char>) -> Option<Seq<char>> {
    let all = spans(path);
    if all.len() == 0 {
        None
    } else if all.len() == 1 {
        Some(
            if is_rooted(path) {
                seq!['/']
            } else {
                Seq::empty()
            },
        )
    } else {
        Some(path.take(all[all.len() - 2].1))
    }
}

/// `name` inside the folder `base`; a rooted `name` stands for itself.
pub open spec fn joined(base: Seq<char>, name: Seq<char>) -> Seq<char> {
    if is_rooted(name) {
        name
    } else if base.len() > 0 && base.last() != '/' {
        base.push('/') + name
    } else {
        base + name
    }
}

/// The same path with another file name.
pub open spec fn with_name(path: Seq<char>, name: Seq<char>) -> Seq<char> {
    if file_name(path) is Some {
        joined(parent(path)->0, name)
    } else {
        joined(path, name)
    }
}

/// The last position of a dot, or -1.
pub open spec fn last_dot(name: Seq<char>) -> int
    decreases name.len(),
{
    if name.len() == 0 {
        -1
    } else if name.last() == '.' {
        name.len() - 1
    } else {
        last_dot(name.drop_last())
    }
}

/// A file name without its extension.
pub open spec fn name_stem(name: Seq<char>) -> Seq<char> {
    if last_dot(name) > 0 {
        name.take(last_dot(name))
    } else {
        name
    }
}

/// What follows the last dot of a file name that does not start with that dot.
pub open spec fn name_extension(name: Seq<char>) -> Option<Seq<char>> {
    if last_dot(name) > 0 {
        Some(name.skip(last_dot(name) + 1))
    } else {
        None
    }
}

pub open spec fn file_stem(path: Seq<char>) -> Option<Seq<char>> {
    match file_name(path) {
        Some(name) => Some(name_stem(name)),
        None => None,
    }
}

pub open spec fn extension(path: Seq<char>) -> Option<Seq<char>> {
    match file_name(path) {
        Some(name) => name_extension(name),
        None => None,
    }
}

/// The path with `wanted` for an extension; one without a file name is left as
/// it is, and of one whose file name is an extension after two dots the dots are
/// left.
pub open spec fn with_extension(path: Seq<char>, wanted: Seq<char>) -> Seq<char> {
    match file_stem(path) {
        Some(stem) => {
            let span = spans(path).last();
            let start = path.take(span.0 + stem.len());
            if stem == dot() && span.1 == path.len() {
                start.push('.')
            } else if wanted.len() == 0 {
                start
            } else {
                start.push('.') + wanted
            }
        },
        None => path,
    }
}

/// Two paths name the same place: both or neither start at the root, and their
/// components are the same.
pub open spec fn same_place(left: Seq<char>, right: Seq<char>) -> bool {
    is_rooted(left) == is_rooted(right) && components(left) == components(right)
}

/// `path` is `base` or lies below it; every path lies below the empty one.
pub open spec fn lies_within(path: Seq<char>, base: Seq<char>) -> bool {
    base.len() == 0 || (is_rooted(path) == is_rooted(base) && components(base).is_prefix_of(
        components(path),
    ))
}

// ---------------------------------------------------------------------------
// Facts about components
// ---------------------------------------------------------------------------

/// Components lie inside the path, are not empty, hold no slash and stand in
/// order.
pub proof fn lemma_spans_from(path: Seq<char>, from: int)
    requires
        0 <= from,
    ensures
        forall|i: int|
            0 <= i < spans_from(path, from).len() ==> {
                let span = #[trigger] spans_from(path, from)[i];
                &&& from <= span.0 < span.1 <= path.len()
                &&& forall|j: int| span.0 <= j < span.1 ==> path[j] != '/'
            },
        forall|i: int, j: int|
            0 <= i < j < spans_from(path, from).len() ==> (#[trigger] spans_from(path, from)[i]).1
                <= (#[trigger] spans_from(path, from)[j]).0,
    decreases rest_len(path, from),
{
    if from < path.len() {
        text::lemma_position_from(path, '/', from);
        let end = text::position_from(path, '/', from);
        lemma_spans_from(path, end + 1);
        let rest = spans_from(path, end + 1);
        if is_component(path, from, end) {
            let all = spans_from(path, from);
            assert(all =~= seq![(from, end)] + rest);
            assert forall|i: int| 0 <= i < all.len() implies {
                let span = #[trigger] all[i];
                &&& from <= span.0 < span.1 <= path.len()
                &&& forall|j: int| span.0 <= j < span.1 ==> path[j] != '/'
            } by {
                if i > 0 {
                    assert(all[i] == rest[i - 1]);
                }
            }
            assert forall|i: int, j: int| 0 <= i < j < all.len() implies (#[trigger] all[i]).1
                <= (#[trigger] all[j]).0 by {
                assert(all[j] == rest[j - 1]);
                if i > 0 {
                    assert(all[i] == rest[i - 1]);
                }
            }
        }
    }
}

/// A name without a slash, other than a single or double dot, is a path of one
/// component: itself.
pub proof fn lemma_plain_name(name: Seq<char>)
    requires
        name.len() > 0,
        !name.contains('/'),
        is_name(name),
    ensures
        spans(name) == seq![(0int, name.len() as int)],
        components(name) == seq![name],
        !is_rooted(name),
        file_name(name) == Some(name),
{
    text::lemma_position_from(name, '/', 0);
    let end = text::position_from(name, '/', 0);
    if end < name.len() {
        assert(name.contains(name[end]));
    }
    assert(!is_rooted(name)) by {
        if is_rooted(name) {
            assert(name.contains(name[0]));
        }
    }
    assert(spans_from(name, end + 1) =~= Seq::empty());
    assert(spans(name) =~= seq![(0, end)]);
    assert(name.subrange(0, end) =~= name);
    assert(components(name) =~= seq![name]);
}

/// The components of a path that is continued after a slash: those before the
/// slash, then those after it.
proof fn lemma_spans_split(path: Seq<char>, tail: Seq<char>, from: int)
    requires
        0 <= from <= path.len(),
        !tail.contains('/'),
        tail.len() > 0,
        tail != dot(),
    ensures
        spans_from(path.push('/') + tail, from) == spans_from(path, from).push(
            (path.len() + 1int, path.len() + 1int + tail.len()),
        ),
    decreases path.len() - from,
{
    let whole = path.push('/') + tail;
    let slash = path.len() as int;
    text::lemma_position_from(whole, '/', from);
    text::lemma_position_from(path, '/', from);
    let end = text::position_from(whole, '/', from);
    let short_end = text::position_from(path, '/', from);
    assert(whole[slash] == '/');
    assert(forall|i: int| 0 <= i < path.len() ==> whole[i] == path[i]);
    assert(end <= slash);
    if short_end < path.len() {
        assert(whole[short_end] == '/');
        assert(end == short_end) by {
            if end < short_end {
                assert(path[end] == whole[end]);
            }
        }
    } else {
        assert(end == slash) by {
            if end < slash {
                assert(path[end] == whole[end]);
            }
        }
    }
    assert(from < path.len() ==> end == short_end);
    assert(path.subrange(from, end) =~= whole.subrange(from, end));
    if end < slash {
        lemma_spans_split(path, tail, end + 1);
    } else {
        // The piece before the slash is the last one of `path`.
        let start = slash + 1;
        text::lemma_position_from(whole, '/', start);
        let last_end = text::position_from(whole, '/', start);
        assert(last_end == whole.len()) by {
            if last_end < whole.len() {
                assert(whole[last_end] == tail[last_end - start]);
                assert(tail.contains(tail[last_end - start]));
            }
        }
        assert(whole.subrange(start, last_end) =~= tail);
        assert(spans_from(whole, last_end + 1) =~= Seq::empty());
        assert(spans_from(whole, start) =~= seq![(start, last_end)]);
        assert(spans_from(path, end + 1) =~= Seq::empty());
    }
    assert(spans_from(whole, from) =~= spans_from(path, from).push(
        (path.len() + 1int, path.len() + 1int + tail.len()),
    ));
}

/// A plain name put into a folder is the file name of the result, and the
/// components before it are those of the folder.
pub proof fn a_joined_name_stays_inside_its_folder(base: Seq<char>, name: Seq<char>)
    requires
        name.len() > 0,
        !name.contains('/'),
        is_name(name),
    ensures
        file_name(joined(base, name)) == Some(name),
        components(joined(base, name)) == components(base).push(name),
        base.len() > 0 ==> is_rooted(joined(base, name)) == is_rooted(base),
        lies_within(joined(base, name), base),
        spans(joined(base, name)) == spans(base).push(
            (joined(base, name).len() - name.len(), joined(base, name).len() as int),
        ),
{
    assert(!is_rooted(name)) by {
        if is_rooted(name) {
            assert(name.contains(name[0]));
        }
    }
    let whole = joined(base, name);
    if base.len() == 0 {
        assert(whole =~= name);
        lemma_plain_name(name);
        assert(spans(base) =~= Seq::empty());
        assert(spans(whole) =~= spans(base).push((0int, name.len() as int)));
        assert(components(base) =~= Seq::empty());
        assert(components(whole) =~= components(base).push(name));
    } else {
        let shorter = if base.last() == '/' {
            base.drop_last()
        } else {
            base
        };
        assert(whole =~= shorter.push('/') + name);
        lemma_spans_split(shorter, name, 0);
        if base.last() == '/' {
            lemma_trailing_slash(shorter, 0);
            assert(base =~= shorter.push('/'));
        }
        assert(spans(base) == spans(shorter));
        lemma_spans_from(base, 0);
        let last = (shorter.len() + 1int, shorter.len() + 1int + name.len());
        assert(spans(whole) == spans(base).push(last));
        assert(whole.subrange(last.0, last.1) =~= name);
        assert forall|i: int| 0 <= i < spans(base).len() implies span_text(
            whole,
            #[trigger] spans(base)[i],
        ) == span_text(base, spans(base)[i]) by {
            lemma_spans_from(shorter, 0);
            let span = spans(base)[i];
            assert(span.1 <= shorter.len());
            assert(whole.subrange(span.0, span.1) =~= base.subrange(span.0, span.1));
        }
        assert(components(whole) =~= components(base).push(name));
    }
}

/// A slash at the end of a path adds no component.
proof fn lemma_trailing_slash(path: Seq<char>, from: int)
    requires
        0 <= from <= path.len(),
    ensures
        spans_from(path.push('/'), from) == spans_from(path, from),
    decreases path.len() - from,
{
    let whole = path.push('/');
    let slash = path.len() as int;
    text::lemma_position_from(whole, '/', from);
    text::lemma_position_from(path, '/', from);
    let end = text::position_from(whole, '/', from);
    let short_end = text::position_from(path, '/', from);
    assert(whole[slash] == '/');
    assert(forall|i: int| 0 <= i < path.len() ==> whole[i] == path[i]);
    assert(end <= slash);
    if short_end < path.len() {
        assert(whole[short_end] == '/');
        assert(end == short_end) by {
            if end < short_end {
                assert(path[end] == whole[end]);
            }
        }
    } else {
        assert(end == slash) by {
            if end < slash {
                assert(path[end] == whole[end]);
            }
        }
    }
    assert(path.subrange(from, end) =~= whole.subrange(from, end));
    if end < slash {
        lemma_trailing_slash(path, end + 1);
    } else {
        assert(spans_from(whole, end + 1) =~= Seq::empty());
        assert(spans_from(path, end + 1) =~= Seq::empty());
    }
    assert(spans_from(whole, from) =~= spans_from(path, from));
}

// ---------------------------------------------------------------------------
// Reading and building paths
// ---------------------------------------------------------------------------

/// The spans of a path as machine integers.
spec fn holds_spans(found: Seq<(usize, usize)>, wanted: Seq<(int, int)>) -> bool {
    found.len() == wanted.len() && forall|i: int|
        0 <= i < found.len() ==> (#[trigger] found[i]).0 as int == wanted[i].0 && found[i].1 as int
            == wanted[i].1
}

fn is_single_dot(chars: &Vec<char>, from: usize, end: usize) -> (single: bool)
    requires
        from <= end <= chars@.len(),
    ensures
        single == (chars@.subrange(from as int, end as int) == dot()),
{
    let single = end - from == 1 && chars[from] == '.';
    let ghost piece = chars@.subrange(from as int, end as int);
    assert(single ==> piece =~= dot());
    assert(piece == dot() ==> piece.len() == 1 && piece[0] == '.');
    single
}

fn is_double_dot(chars: &Vec<char>, from: usize, end: usize) -> (double: bool)
    requires
        from <= end <= chars@.len(),
    ensures
        double == (chars@.subrange(from as int, end as int) == dot_dot()),
{
    let double = end - from == 2 && chars[from] == '.' && chars[from + 1] == '.';
    let ghost piece = chars@.subrange(from as int, end as int);
    assert(double ==> piece =~= dot_dot());
    assert(piece == dot_dot() ==> piece.len() == 2 && piece[0] == '.' && piece[1] == '.');
    double
}

fn find_spans(chars: &Vec<char>) -> (found: Vec<(usize, usize)>)
    ensures
        holds_spans(found@, spans(chars@)),
        forall|i: int|
            0 <= i < found@.len() ==> (#[trigger] found@[i]).0 < found@[i].1 <= chars@.len(),
{
    let mut found: Vec<(usize, usize)> = Vec::new();
    let mut from: usize = 0;
    let ghost mut done: Seq<(int, int)> = Seq::empty();
    assert(done + spans(chars@) =~= spans(chars@));
    while from < chars.len()
        invariant
            from <= chars@.len(),
            holds_spans(found@, done),
            done + spans_from(chars@, from as int) == spans(chars@),
        decreases chars@.len() - from,
    {
        let end: usize = find_char(chars, '/', from);
        let ghost rest = spans_from(chars@, end as int + 1);
        if from < end && (from == 0 || !is_single_dot(chars, from, end)) {
            found.push((from, end));
            proof {
                let old_done = done;
                done = done.push((from as int, end as int));
                assert(done + rest =~= old_done + (seq![(from as int, end as int)] + rest));
            }
        }
        if end == chars.len() {
            assert(rest =~= Seq::empty());
            from = end;
            assert(spans_from(chars@, from as int) =~= Seq::empty());
        } else {
            from = end + 1;
        }
    }
    assert(spans_from(chars@, from as int) =~= Seq::empty());
    assert(done =~= spans(chars@));
    proof {
        lemma_spans_from(chars@, 0);
    }
    found
}

/// The last component of `path`, where it is a name.
pub fn find_file_name(path: &str) -> (name: Option<String>)
    ensures
        text::shown(name) == file_name(path@),
{
    let chars = to_chars(path);
    let found = find_spans(&chars);
    if found.len() == 0 {
        return None;
    }
    let last = found[found.len() - 1];
    assert(span_text(path@, spans(path@).last()) == chars@.subrange(
        last.0 as int,
        last.1 as int,
    ));
    if is_single_dot(&chars, last.0, last.1) || is_double_dot(&chars, last.0, last.1) {
        None
    } else {
        Some(from_char_range(&chars, last.0, last.1))
    }
}

/// `path` without its last component.
pub fn find_parent(path: &str) -> (folder: Option<String>)
    ensures
        text::shown(folder) == parent(path@),
{
    let chars = to_chars(path);
    let found = find_spans(&chars);
    if found.len() == 0 {
        None
    } else if found.len() == 1 {
        if chars.len() > 0 && chars[0] == '/' {
            let mut root = String::new();
            root.push('/');
            assert(root@ =~= seq!['/']);
            Some(root)
        } else {
            Some(String::new())
        }
    } else {
        let before = found[found.len() - 2];
        assert(before.1 as int == spans(path@)[spans(path@).len() - 2].1);
        assert(chars@.subrange(0, before.1 as int) =~= path@.take(before.1 as int));
        Some(from_char_range(&chars, 0, before.1))
    }
}

/// `name` inside the folder `base`.
pub fn join_path(base: &str, name: &str) -> (path: String)
    ensures
        path@ == joined(base@, name@),
{
    let name_chars = to_chars(name);
    if name_chars.len() > 0 && name_chars[0] == '/' {
        return name.to_owned();
    }
    let base_chars = to_chars(base);
    let mut path = base.to_owned();
    if base_chars.len() > 0 && base_chars[base_chars.len() - 1] != '/' {
        path.push('/');
    }
    path.append(name);
    path
}

/// `path` with another file name.
pub fn replace_name(path: &str, name: &str) -> (renamed: String)
    ensures
        renamed@ == with_name(path@, name@),
{
    match find_file_name(path) {
        Some(_) => match find_parent(path) {
            Some(folder) => join_path(folder.as_str(), name),
            None => join_path(path, name),
        },
        None => join_path(path, name),
    }
}

/// The position of the last dot, counted from one; zero when there is none.
fn find_last_dot(chars: &Vec<char>) -> (after: usize)
    ensures
        after as int == last_dot(chars@) + 1,
        after <= chars@.len(),
{
    let mut i: usize = chars.len();
    assert(chars@.take(i as int) =~= chars@);
    while i > 0 && chars[i - 1] != '.'
        invariant
            i <= chars@.len(),
            last_dot(chars@) == last_dot(chars@.take(i as int)),
        decreases i,
    {
        assert(chars@.take(i as int).drop_last() =~= chars@.take(i as int - 1));
        i = i - 1;
    }
    i
}

/// The file name of `path` without its extension.
pub fn find_stem(path: &str) -> (stem: Option<String>)
    ensures
        text::shown(stem) == file_stem(path@),
{
    match find_file_name(path) {
        Some(name) => {
            let chars = to_chars(name.as_str());
            let after: usize = find_last_dot(&chars);
            if after > 1 {
                assert(chars@.subrange(0, after as int - 1) =~= name@.take(after as int - 1));
                Some(from_char_range(&chars, 0, after - 1))
            } else {
                Some(name)
            }
        },
        None => None,
    }
}

/// The extension of the file name of `path`.
pub fn find_extension(path: &str) -> (wanted: Option<String>)
    ensures
        text::shown(wanted) == extension(path@),
{
    match find_file_name(path) {
        Some(name) => {
            let chars = to_chars(name.as_str());
            let after: usize = find_last_dot(&chars);
            if after > 1 {
                assert(chars@.subrange(after as int, chars@.len() as int) =~= name@.skip(
                    after as int,
                ));
                Some(from_char_range(&chars, after, chars.len()))
            } else {
                None
            }
        },
        None => None,
    }
}

/// `path` with `wanted` for an extension.
pub fn replace_extension(path: &str, wanted: &str) -> (renamed: String)
    ensures
        renamed@ == with_extension(path@, wanted@),
{
    match find_stem(path) {
        Some(stem) => {
            let chars = to_chars(path);
            let found = find_spans(&chars);
            let stem_chars = to_chars(stem.as_str());
            proof {
                lemma_stem_is_shorter(file_name(path@)->0);
            }
            let last = found[found.len() - 1];
            let mut renamed = from_char_range(&chars, 0, last.0 + stem_chars.len());
            assert(renamed@ =~= path@.take(spans(path@).last().0 + stem@.len()));
            assert(stem_chars@.subrange(0, stem_chars@.len() as int) =~= stem@);
            if is_single_dot(&stem_chars, 0, stem_chars.len()) && last.1 == chars.len() {
                renamed.push('.');
            } else if !wanted.is_empty() {
                renamed.push('.');
                renamed.append(wanted);
            }
            renamed
        },
        None => path.to_owned(),
    }
}

proof fn lemma_stem_is_shorter(name: Seq<char>)
    ensures
        name_stem(name).len() <= name.len(),
{
    lemma_last_dot(name);
}

pub proof fn lemma_last_dot(name: Seq<char>)
    ensures
        -1 <= last_dot(name) < name.len(),
        last_dot(name) >= 0 ==> name[last_dot(name)] == '.',
        forall|i: int| last_dot(name) < i < name.len() ==> #[trigger] name[i] != '.',
    decreases name.len(),
{
    if name.len() > 0 && name.last() != '.' {
        lemma_last_dot(name.drop_last());
        assert forall|i: int| last_dot(name) < i < name.len() implies #[trigger] name[i]
            != '.' by {
            if i < name.len() - 1 {
                assert(name.drop_last()[i] == name[i]);
            }
        }
    }
}

/// The components of `path`.
pub fn component_texts(path: &str) -> (parts: Vec<String>)
    ensures
        text::texts(parts@) == components(path@),
{
    let chars = to_chars(path);
    let found = find_spans(&chars);
    let mut parts: Vec<String> = Vec::new();
    let mut i: usize = 0;
    while i < found.len()
        invariant
            chars@ == path@,
            i <= found@.len(),
            holds_spans(found@, spans(path@)),
            forall|j: int|
                0 <= j < found@.len() ==> (#[trigger] found@[j]).0 < found@[j].1 <= chars@.len(),
            parts@.len() == i,
            forall|j: int| 0 <= j < i ==> (#[trigger] parts@[j])@ == components(path@)[j],
        decreases found@.len() - i,
    {
        let span = found[i];
        parts.push(from_char_range(&chars, span.0, span.1));
        i = i + 1;
    }
    assert(text::texts(parts@) =~= components(path@));
    parts
}

fn starts_at_root(path: &str) -> (rooted: bool)
    ensures
        rooted == is_rooted(path@),
{
    let chars = to_chars(path);
    chars.len() > 0 && chars[0] == '/'
}

/// Whether two paths name the same place.
pub fn is_same_place(left: &str, right: &str) -> (same: bool)
    ensures
        same == same_place(left@, right@),
{
    let within = starts_with_parts(left, right);
    let outer = component_texts(left);
    let inner = component_texts(right);
    proof {
        if within && outer.len() == inner.len() {
            assert(components(left@) =~= components(right@));
        }
    }
    within && outer.len() == inner.len()
}

/// Whether `path` is `base` or lies below it.
pub fn is_within(path: &str, base: &str) -> (within: bool)
    ensures
        within == lies_within(path@, base@),
{
    base.is_empty() || starts_with_parts(path, base)
}

fn starts_with_parts(path: &str, base: &str) -> (within: bool)
    ensures
        within == (is_rooted(path@) == is_rooted(base@) && components(base@).is_prefix_of(
            components(path@),
        )),
{
    if starts_at_root(path) != starts_at_root(base) {
        return false;
    }
    let parts = component_texts(path);
    let wanted = component_texts(base);
    if wanted.len() > parts.len() {
        return false;
    }
    let mut i: usize = 0;
    while i < wanted.len()
        invariant
            text::texts(parts@) == components(path@),
            text::texts(wanted@) == components(base@),
            wanted@.len() <= parts@.len(),
            i <= wanted@.len(),
            forall|j: int|
                0 <= j < i ==> #[trigger] components(base@)[j] == components(path@)[j],
        decreases wanted@.len() - i,
    {
        if !same_text(wanted[i].as_str(), parts[i].as_str()) {
            assert(components(base@)[i as int] == wanted@[i as int]@);
            assert(components(path@)[i as int] == parts@[i as int]@);
            return false;
        }
        assert(components(base@)[i as int] == wanted@[i as int]@);
        assert(components(path@)[i as int] == parts@[i as int]@);
        i = i + 1;
    }
    assert(components(base@) =~= components(path@).take(components(base@).len() as int));
    true
}

/// The stem of a file name is not empty.
pub proof fn lemma_stem_is_not_empty(path: Seq<char>)
    requires
        file_name(path) is Some,
    ensures
        file_stem(path) is Some,
        file_stem(path)->0.len() > 0,
{
    lemma_spans_from(path, 0);
    let all = spans(path);
    let name = span_text(path, all.last());
    assert(all.last() == all[all.len() - 1]);
    assert(name.len() > 0);
    lemma_last_dot(name);
}

/// The stem of a file name holds no slash.
pub proof fn lemma_stem_has_no_slash(path: Seq<char>)
    requires
        file_stem(path) is Some,
    ensures
        !file_stem(path)->0.contains('/'),
{
    lemma_spans_from(path, 0);
    let span = spans(path)[spans(path).len() - 1];
    let name = span_text(path, span);
    let stem = file_stem(path)->0;
    lemma_last_dot(name);
    assert forall|i: int| 0 <= i < stem.len() implies #[trigger] stem[i] != '/' by {
        assert(stem[i] == name[i]);
        assert(name[i] == path[span.0 + i]);
    }
}

/// Different names in one folder give different paths.
pub proof fn lemma_joined_names(base: Seq<char>, left: Seq<char>, right: Seq<char>)
    requires
        !is_rooted(left),
        !is_rooted(right),
        joined(base, left) == joined(base, right),
    ensures
        left == right,
{
    let start = if base.len() > 0 && base.last() != '/' {
        base.len() as int + 1
    } else {
        base.len() as int
    };
    assert(left =~= joined(base, left).skip(start));
    assert(right =~= joined(base, right).skip(start));
}

/// A path that ends with its last component but one has the components but the
/// last.
proof fn lemma_spans_but_the_last(path: Seq<char>, from: int)
    requires
        0 <= from,
        spans_from(path, from).len() >= 2,
    ensures
        ({
            let all = spans_from(path, from);
            spans_from(path.take(all[all.len() - 2].1), from) == all.drop_last()
        }),
    decreases rest_len(path, from),
{
    let all = spans_from(path, from);
    let cut = all[all.len() - 2].1;
    let short = path.take(cut);
    lemma_spans_from(path, from);
    text::lemma_position_from(path, '/', from);
    let end = text::position_from(path, '/', from);
    let rest = spans_from(path, end + 1);
    lemma_spans_from(path, end + 1);
    if is_component(path, from, end) {
        assert(all =~= seq![(from, end)] + rest);
        if all.len() > 2 {
            assert(all[all.len() - 2] == rest[rest.len() - 2]);
        }
        assert(end <= cut);
    }
    text::lemma_position_from(short, '/', from);
    let short_end = text::position_from(short, '/', from);
    assert(short_end == end) by {
        if short_end < end {
            assert(short[short_end] == path[short_end]);
        } else if end < short_end {
            assert(short[end] == path[end]);
        }
    }
    assert(short.subrange(from, end) =~= path.subrange(from, end));
    if rest.len() >= 2 {
        lemma_spans_but_the_last(path, end + 1);
    } else {
        assert(spans_from(short, end + 1) =~= Seq::empty());
    }
    assert(spans_from(short, from) =~= all.drop_last());
}

/// A path with a file name is that name inside the folder that the path leads to.
pub proof fn a_file_stands_in_its_folder(path: Seq<char>)
    requires
        file_name(path) is Some,
    ensures
        parent(path) is Some,
        components(path) == components(parent(path)->0).push(file_name(path)->0),
{
    let all = spans(path);
    let folder = parent(path)->0;
    if all.len() == 1 {
        if is_rooted(path) {
            lemma_trailing_slash(Seq::empty(), 0);
            assert(folder =~= Seq::<char>::empty().push('/'));
        }
        assert(spans(folder) =~= Seq::empty());
    } else {
        lemma_spans_from(path, 0);
        lemma_spans_but_the_last(path, 0);
        let cut = all[all.len() - 2].1;
        assert forall|i: int| 0 <= i < all.len() - 1 implies span_text(folder, #[trigger] all[i])
            == span_text(path, all[i]) by {
            assert(all[i].1 <= cut);
            assert(folder.subrange(all[i].0, all[i].1) =~= path.subrange(all[i].0, all[i].1));
        }
        assert forall|i: int| 0 <= i < spans(folder).len() implies #[trigger] spans(folder)[i]
            == all[i] by {}
    }
    assert(components(path) =~= components(folder).push(file_name(path)->0));
}

/// A file name is not empty, holds no slash and names an entry.
pub proof fn lemma_file_name(path: Seq<char>)
    requires
        file_name(path) is Some,
    ensures
        file_name(path)->0.len() > 0,
        !file_name(path)->0.contains('/'),
        is_name(file_name(path)->0),
{
    lemma_spans_from(path, 0);
    let span = spans(path)[spans(path).len() - 1];
    let name = span_text(path, span);
    assert forall|i: int| 0 <= i < name.len() implies #[trigger] name[i] != '/' by {
        assert(name[i] == path[span.0 + i]);
    }
}

/// The folder that a plain name was put into is the folder of the result: the same
/// place, and the same text where no slash or dot follows its last name.
pub proof fn the_folder_of_a_joined_name(base: Seq<char>, name: Seq<char>)
    requires
        name.len() > 0,
        !name.contains('/'),
        is_name(name),
    ensures
        parent(joined(base, name)) is Some,
        same_place(parent(joined(base, name))->0, base),
        spans(base).len() > 0 && spans(base).last().1 == base.len() ==> parent(
            joined(base, name),
        )->0 == base,
{
    let whole = joined(base, name);
    a_joined_name_stays_inside_its_folder(base, name);
    a_file_stands_in_its_folder(whole);
    let folder = parent(whole)->0;
    assert(components(folder) =~= components(whole).drop_last());
    assert(components(base) =~= components(whole).drop_last());
    let all = spans(whole);
    lemma_spans_from(base, 0);
    assert(!is_rooted(name)) by {
        if is_rooted(name) {
            assert(name.contains(name[0]));
        }
    }
    if all.len() >= 2 {
        let last = spans(base)[spans(base).len() - 1];
        assert(all[all.len() - 2] == last);
        assert(0 < last.1 <= base.len());
        assert(folder =~= base.take(last.1)) by {
            assert(forall|i: int| 0 <= i < base.len() ==> whole[i] == base[i]);
        }
        assert(folder[0] == base[0]);
    }
}

} // verus!
