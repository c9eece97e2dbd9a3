//! Files of an archive and their names.

use vstd::prelude::*;

use crate::laws::path::a_name_is_put_into_its_folder;
use crate::media;
use crate::path;
use crate::text;
use crate::words;

verus! {

/// A byte is written as two small hexadecimal digits, the greater first.
pub proof fn a_byte_is_two_digits(bytes: Seq<u8>, byte: u8)
    ensures
        ({
            let before = media::hex_text(bytes);
            let after = media::hex_text(bytes.push(byte));
            let high = byte as int / 16;
            let low = byte as int % 16;
            &&& after.len() == before.len() + 2
            &&& after.take(before.len() as int) == before
            &&& high < 10 ==> after[before.len() as int] as u32 == '0' as u32 + high
            &&& high >= 10 ==> after[before.len() as int] as u32 == 'a' as u32 + high - 10
            &&& low < 10 ==> after[before.len() as int + 1] as u32 == '0' as u32 + low
            &&& low >= 10 ==> after[before.len() as int + 1] as u32 == 'a' as u32 + low - 10
        }),
        media::hex_text(Seq::empty()).len() == 0,
{
    assert(bytes.push(byte).drop_last() =~= bytes);
    let after = media::hex_text(bytes.push(byte));
    assert(after.take(media::hex_text(bytes).len() as int) =~= media::hex_text(bytes));
}

/// Hexadecimal digits are read in both cases, two characters for a byte; a plus may
/// stand in the place of the first.
pub proof fn two_digits_are_a_byte(text: Seq<char>, first: char, second: char)
    ensures
        '0' <= first && first <= '9' ==> media::hex_digit(first) == Some(
            (first as u32 - '0' as u32) as u8,
        ),
        'a' <= first && first <= 'f' ==> media::hex_digit(first) == Some(
            (first as u32 - 'a' as u32 + 10) as u8,
        ),
        'A' <= first && first <= 'F' ==> media::hex_digit(first) == Some(
            (first as u32 - 'A' as u32 + 10) as u8,
        ),
        !('0' <= first && first <= '9') && !('a' <= first && first <= 'f') && !('A' <= first
            && first <= 'F') ==> media::hex_digit(first) is None,
        media::hex_pair('+', second) == media::hex_digit(second),
        first != '+' && media::hex_digit(first) is Some && media::hex_digit(second) is Some
            ==> media::hex_pair(first, second) == Some(
            (media::hex_digit(first)->0 * 16 + media::hex_digit(second)->0) as u8,
        ),
        first != '+' && (media::hex_digit(first) is None || media::hex_digit(second) is None)
            ==> media::hex_pair(first, second) is None,
        media::hex_read(text) is Some && media::hex_pair(first, second) is Some
            ==> media::hex_read(text.push(first).push(second)) == Some(
            media::hex_read(text)->0.push(media::hex_pair(first, second)->0),
        ),
        media::hex_read(text) is None || media::hex_pair(first, second) is None
            ==> media::hex_read(text.push(first).push(second)) is None,
        media::hex_read(Seq::empty()) == Some(Seq::<u8>::empty()),
        media::hex_read(seq![first]) is None,
{
    let all = text.push(first).push(second);
    assert(all.take(all.len() - 2) =~= text);
    assert(all[all.len() - 2] == first);
    assert(all.last() == second);
}

/// Control codes and the nine reserved characters are dropped from a name; all others
/// stay, in order.
pub proof fn reserved_characters_are_dropped(name: Seq<char>, next: char)
    ensures
        ({
            let dropped = text::is_control_code(next) || next == '/' || next == '\\' || next == ':'
                || next == '*' || next == '?' || next == '"' || next == '<' || next == '>' || next
                == '|';
            &&& dropped ==> media::file_chars(name.push(next)) == media::file_chars(name)
            &&& !dropped ==> media::file_chars(name.push(next)) == media::file_chars(name).push(
                next,
            )
        }),
        media::file_chars(Seq::empty()).len() == 0,
{
    assert(name.push(next).drop_last() =~= name);
}

/// Only the last part of a path counts for a safe name.
pub proof fn the_last_part_of_a_path_counts(base: Seq<char>, name: Seq<char>)
    requires
        name.len() > 0,
        !name.contains('/'),
        name != seq!['.'],
        name != seq!['.', '.'],
    ensures
        media::safe_name(path::joined(base, name)) == media::safe_name(name),
{
    a_name_is_put_into_its_folder(base, name);
    path::lemma_plain_name(name);
}

/// A name that may stand as it is.
pub open spec fn is_clean(name: Seq<char>) -> bool {
    &&& name.len() > 0
    &&& forall|i: int|
        0 <= i < name.len() ==> !text::is_control_code(#[trigger] name[i]) && name[i] != '/'
            && name[i] != '\\' && name[i] != ':' && name[i] != '*' && name[i] != '?' && name[i]
            != '"' && name[i] != '<' && name[i] != '>' && name[i] != '|'
    &&& name.first() != ' ' && name.first() != '.'
    &&& name.last() != ' ' && name.last() != '.'
}

proof fn lemma_clean_chars(name: Seq<char>)
    requires
        forall|i: int| 0 <= i < name.len() ==> media::is_file_char(#[trigger] name[i]),
    ensures
        media::file_chars(name) == name,
    decreases name.len(),
{
    if name.len() > 0 {
        let rest = name.drop_last();
        assert forall|i: int| 0 <= i < rest.len() implies media::is_file_char(
            #[trigger] rest[i],
        ) by {
            assert(rest[i] == name[i]);
        }
        lemma_clean_chars(rest);
        assert(media::is_file_char(name[name.len() - 1]));
        assert(media::file_chars(name) =~= name);
    } else {
        assert(media::file_chars(name) =~= name);
    }
}

/// A clean name of at most 120 characters stays as it is, and a longer one is cut off
/// there, without spaces and dots at its new end.
pub proof fn a_clean_name_stays_or_is_cut(name: Seq<char>)
    requires
        is_clean(name),
    ensures
        name.len() <= 120 ==> media::safe_name(name) == name,
        name.len() > 120 && name[119] != ' ' && name[119] != '.' ==> media::safe_name(name)
            == name.take(120),
{
    assert(!name.contains('/')) by {
        if name.contains('/') {
            let i = choose|i: int| 0 <= i < name.len() && name[i] == '/';
            assert(name[i] != '/');
        }
    }
    path::lemma_plain_name(name);
    assert forall|i: int| 0 <= i < name.len() implies media::is_file_char(#[trigger] name[i]) by {}
    lemma_clean_chars(name);
    let kept = media::cut(name);
    assert(kept.first() == name.first());
    assert(!media::loose_chars().contains(kept.first())) by {
        assert(media::loose_chars()[0] == ' ' && media::loose_chars()[1] == '.');
    }
    if name.len() <= 120 || (name[119] != ' ' && name[119] != '.') {
        assert(!media::loose_chars().contains(kept.last())) by {
            assert(media::loose_chars()[0] == ' ' && media::loose_chars()[1] == '.');
        }
        assert(words::trimmed_start(kept, media::loose_chars()) == kept);
        assert(words::trimmed_end(kept, media::loose_chars()) == kept);
    }
}

/// A name of which nothing is left becomes "attachment".
pub proof fn a_name_of_nothing_is_attachment(value: Seq<char>)
    ensures
        path::file_name(value) is None ==> media::safe_name(value) == "attachment"@,
        path::file_name(value) matches Some(name) ==> (media::file_chars(name).len() == 0
            ==> media::safe_name(value) == "attachment"@),
{
    reveal_strlit("attachment");
    let name = "attachment"@;
    assert(is_clean(name)) by {
        assert(name.len() == 10);
        assert forall|i: int| 0 <= i < name.len() implies !text::is_control_code(
            #[trigger] name[i],
        ) && name[i] != '/' && name[i] != '\\' && name[i] != ':' && name[i] != '*' && name[i]
            != '?' && name[i] != '"' && name[i] != '<' && name[i] != '>' && name[i] != '|' by {}
    }
    assert forall|i: int| 0 <= i < name.len() implies media::is_file_char(#[trigger] name[i]) by {}
    lemma_clean_chars(name);
    assert(!media::loose_chars().contains(name.first()) && !media::loose_chars().contains(
        name.last(),
    )) by {
        assert(media::loose_chars()[0] == ' ' && media::loose_chars()[1] == '.');
    }
    assert(words::trimmed_start(name, media::loose_chars()) == name);
    assert(words::trimmed_end(name, media::loose_chars()) == name);
    let none = Seq::<char>::empty();
    assert(words::trimmed_start(none, media::loose_chars()) == none);
    assert(words::trimmed_end(none, media::loose_chars()) == none);
    if path::file_name(value) is Some && media::file_chars(path::file_name(value)->0).len() == 0 {
        assert(media::file_chars(path::file_name(value)->0) =~= none);
    }
}

/// Spaces and dots before and after a name are dropped.
pub proof fn loose_characters_are_trimmed(
    front: Seq<char>,
    name: Seq<char>,
    back: Seq<char>,
)
    requires
        is_clean(name),
        forall|i: int| 0 <= i < front.len() ==> (#[trigger] front[i] == ' ' || front[i] == '.'),
        forall|i: int| 0 <= i < back.len() ==> (#[trigger] back[i] == ' ' || back[i] == '.'),
        front.len() + name.len() + back.len() <= 120,
    ensures
        media::safe_name(front + name + back) == name,
{
    let whole = front + name + back;
    assert forall|i: int| 0 <= i < whole.len() implies media::is_file_char(
        #[trigger] whole[i],
    ) by {
        if i < front.len() {
            assert(whole[i] == front[i]);
        } else if i < front.len() + name.len() {
            assert(whole[i] == name[i - front.len()]);
        } else {
            assert(whole[i] == back[i - front.len() - name.len()]);
        }
    }
    assert(!whole.contains('/')) by {
        if whole.contains('/') {
            let i = choose|i: int| 0 <= i < whole.len() && whole[i] == '/';
            assert(media::is_file_char(whole[i]));
        }
    }
    assert(whole[front.len() as int] == name[0]);
    assert(whole != path::dot() && whole != path::dot_dot()) by {
        if whole == path::dot() || whole == path::dot_dot() {
            assert(whole[front.len() as int] == '.');
        }
    }
    path::lemma_plain_name(whole);
    lemma_clean_chars(whole);
    lemma_trim_front(front, name + back);
    assert(whole =~= front + (name + back));
    assert((name + back).first() == name.first());
    lemma_trim_back(name, back);
}

proof fn lemma_trim_front(front: Seq<char>, rest: Seq<char>)
    requires
        forall|i: int| 0 <= i < front.len() ==> (#[trigger] front[i] == ' ' || front[i] == '.'),
        rest.len() > 0,
        rest.first() != ' ',
        rest.first() != '.',
    ensures
        words::trimmed_start(front + rest, media::loose_chars()) == rest,
    decreases front.len(),
{
    let whole = front + rest;
    assert(media::loose_chars()[0] == ' ' && media::loose_chars()[1] == '.');
    if front.len() == 0 {
        assert(whole =~= rest);
    } else {
        assert(front[0] == ' ' || front[0] == '.');
        assert(whole.first() == front[0]);
        let shorter = front.drop_first();
        assert(whole.drop_first() =~= shorter + rest);
        assert forall|i: int| 0 <= i < shorter.len() implies (#[trigger] shorter[i] == ' '
            || shorter[i] == '.') by {
            assert(shorter[i] == front[i + 1]);
        }
        lemma_trim_front(shorter, rest);
    }
}

proof fn lemma_trim_back(rest: Seq<char>, back: Seq<char>)
    requires
        forall|i: int| 0 <= i < back.len() ==> (#[trigger] back[i] == ' ' || back[i] == '.'),
        rest.len() > 0,
        rest.last() != ' ',
        rest.last() != '.',
    ensures
        words::trimmed_end(rest + back, media::loose_chars()) == rest,
    decreases back.len(),
{
    let whole = rest + back;
    assert(media::loose_chars()[0] == ' ' && media::loose_chars()[1] == '.');
    if back.len() == 0 {
        assert(whole =~= rest);
    } else {
        assert(back[back.len() - 1] == ' ' || back[back.len() - 1] == '.');
        assert(whole.last() == back[back.len() - 1]);
        let shorter = back.drop_last();
        assert(whole.drop_last() =~= rest + shorter);
        lemma_trim_back(rest, shorter);
    }
}

} // verus!
