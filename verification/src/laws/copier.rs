//! Attachments and their copies.

use vstd::prelude::*;

use crate::copier::{self, CopierView};
use crate::json::JsonView;
use crate::media;
use crate::path;
use crate::text;

verus! {

/// What the archive says of an attachment, the export says too; whether its file was
/// found shows in the record.
pub proof fn a_record_says_what_the_archive_says(
    copier: CopierView,
    pointer: JsonView,
    source: Option<Seq<char>>,
)
    ensures
        ({
            let shown = copier.attachment(pointer, source);
            &&& shown.content_type == pointer.text_member("contentType"@)
            &&& shown.caption == pointer.text_member("caption"@)
            &&& shown.source_available == source is Some
            &&& pointer.member("width"@) matches Some(JsonView::Number(number)) ==> shown.width
                == number.unsigned
            &&& pointer.member("height"@) matches Some(JsonView::Number(number)) ==> shown.height
                == number.unsigned
            &&& pointer.member("width"@) is None ==> shown.width is None
            &&& pointer.member("height"@) is None ==> shown.height is None
            &&& pointer.text_member("fileName"@) matches Some(name) ==> shown.file_name
                == media::safe_name(name)
        }),
{
}

/// An attachment without a name is called by its number among the attachments, with
/// the extension of its file.
pub proof fn a_nameless_attachment_has_a_number(
    copier: CopierView,
    pointer: JsonView,
    source: Option<Seq<char>>,
)
    requires
        pointer.text_member("fileName"@) is None,
    ensures
        ({
            let shown = copier.attachment(pointer, source);
            let plain = "attachment-"@ + text::padded((copier.attachment_count + 1) as nat, 4);
            &&& source is Some && path::extension(source->0) is Some ==> shown.file_name == plain
                + "."@ + path::extension(source->0)->0
            &&& source is None || path::extension(source->0) is None ==> shown.file_name == plain
        }),
{
}

/// A file is copied where media are exported and it was found, and nowhere else; the
/// record links to the copy exactly where there is one.
pub proof fn a_file_is_copied_where_it_is_wanted_and_found(
    copier: CopierView,
    pointer: JsonView,
    source: Option<Seq<char>>,
)
    ensures
        ({
            let shown = copier.attachment(pointer, source);
            let after = copier.with_attachment(pointer, source);
            &&& shown.exported_path is Some == (copier.include_media && source is Some)
            &&& !(copier.include_media && source is Some) ==> after.copied == copier.copied
                && copier.attachment_order(pointer, source) is None
            &&& copier.include_media && source is Some ==> copier::path_of_copy(
                after.copied,
                source->0,
            ) == shown.exported_path
            &&& copier.attachment_order(pointer, source) matches Some(order) ==> order.source
                == source->0 && order.root == copier.staging_root && order.folder
                == copier.media_directory_name
        }),
{
}

/// Every attachment is counted, and those whose files were not found are counted as
/// missing, whether media are exported or not.
pub proof fn missing_files_are_counted(
    copier: CopierView,
    pointer: JsonView,
    source: Option<Seq<char>>,
)
    ensures
        ({
            let after = copier.with_attachment(pointer, source);
            &&& after.attachment_count == copier.attachment_count + 1
            &&& source is None ==> after.missing_count == copier.missing_count + 1
            &&& source is Some ==> after.missing_count == copier.missing_count
            &&& after.include_media == copier.include_media
            &&& after.source_root == copier.source_root
            &&& after.staging_root == copier.staging_root
            &&& after.media_directory_name == copier.media_directory_name
        }),
{
}

/// A new copy is called by its number among the copies and by the name of its
/// attachment; the link to it is relative to the document and leads to the copy.
pub proof fn a_new_copy_has_a_number_and_a_name(
    copier: CopierView,
    source: Seq<char>,
    name: Seq<char>,
)
    requires
        copier::path_of_copy(copier.copied, source) is None,
    ensures
        ({
            let number = text::padded(copier.copied.len() + 1, 4);
            let entry = number + seq!['-'] + media::safe_name(name);
            &&& copier.copy_path(source, name) == copier.media_directory_name + seq!['/'] + entry
            &&& copier.copy_order(source, name) matches Some(order) && order.destination
                == path::joined(
                path::joined(copier.staging_root, copier.media_directory_name),
                entry,
            ) && order.source == source
            &&& copier.with_copy(source, name).copied.len() == copier.copied.len() + 1
            &&& copier.with_copy(source, name).copied.drop_last() == copier.copied
        }),
{
    reveal_strlit("-");
    reveal_strlit("/");
    let number = text::padded(copier.copied.len() + 1, 4);
    let entry = number + seq!['-'] + media::safe_name(name);
    assert(copier.copy_path(source, name) =~= copier.media_directory_name + seq!['/'] + entry);
    assert(copier::copied_name(copier.copied.len() + 1, name) =~= entry);
    assert(copier.with_copy(source, name).copied.drop_last() =~= copier.copied);
}

/// The file of an attachment is looked for under `files`, in a folder called by the
/// first two characters of its name; where the archive does not give the name, it is
/// not looked for.
pub proof fn a_file_is_looked_for_by_its_name(
    root: Seq<char>,
    pointer: JsonView,
    place: Option<media::MediaPlace>,
)
    requires
        copier::is_place(root, pointer, place),
    ensures
        place is Some == media::media_name_text(pointer) is Some,
        place matches Some(found) ==> {
            &&& Some(found.name@) == media::media_name_text(pointer)
            &&& found.files_root@ == path::joined(root, "files"@)
            &&& found.folder@ == path::joined(found.files_root@, found.name@.take(2))
        },
{
}

/// The name of an attachment's file is made from its hash and its key, the hash
/// first; the hash stands with the key or in the integrity check.
pub proof fn a_file_is_named_by_hash_and_key(pointer: JsonView)
    ensures
        pointer.object_member("locatorInfo"@) is None ==> media::media_name_text(pointer) is None,
        pointer.object_member("locatorInfo"@) matches Some(locator) ==> {
            let key = media::bytes_member(locator, "localKey"@);
            let near = media::bytes_member(locator, "plaintextHash"@);
            let far = match locator.object_member("integrityCheck"@) {
                Some(check) => media::bytes_member(check, "plaintextHash"@),
                None => None,
            };
            &&& key is None ==> media::media_name_text(pointer) is None
            &&& key is Some && near is Some ==> media::media_name_text(pointer) == Some(
                media::hex_text(media::sha256(near->0 + key->0)),
            )
            &&& key is Some && near is None && far is Some ==> media::media_name_text(pointer)
                == Some(media::hex_text(media::sha256(far->0 + key->0)))
            &&& near is None && far is None ==> media::media_name_text(pointer) is None
        },
{
}

/// Bytes are read from base64 where the text is base64, else from hexadecimal; what
/// is no text stands for no bytes.
pub proof fn bytes_are_base64_or_hexadecimal(object: JsonView, key: Seq<char>, bytes: Seq<u8>)
    ensures
        object.member(key) is None ==> media::bytes_member(object, key) is None,
        object.member(key) matches Some(JsonView::Text(held)) ==> {
            &&& media::base64_read(held) is Some ==> media::bytes_member(object, key)
                == media::base64_read(held)
            &&& media::base64_read(held) is None && held == media::hex_text(bytes)
                ==> media::bytes_member(object, key) == Some(bytes)
        },
        object.member(key) == Some(JsonView::Null) ==> media::bytes_member(object, key) is None,
{
    media::reading_hex_undoes_writing(bytes);
}

/// A file holds an attachment where its name is that of the attachment, with or
/// without an extension. The first such file is taken; folders are not.
pub proof fn the_first_fitting_file_is_taken(
    entries: Seq<media::MediaEntry>,
    name: Seq<char>,
    place: int,
)
    requires
        0 <= place < entries.len(),
        entries[place].is_file,
        entries[place].name@ == name || (entries[place].name@.len() > name.len()
            && entries[place].name@.take(name.len() as int) == name
            && entries[place].name@[name.len() as int] == '.'),
        forall|j: int|
            0 <= j < place ==> !(#[trigger] entries[j]).is_file || (entries[j].name@ != name && !(
            entries[j].name@.len() > name.len() && entries[j].name@.take(name.len() as int) == name
                && entries[j].name@[name.len() as int] == '.')),
    ensures
        media::first_media_file(entries, name) == Some(entries[place].name@),
    decreases entries.len(),
{
    lemma_media_file(entries[0].name@, name);
    if place > 0 {
        let rest = entries.drop_first();
        assert(rest[place - 1] == entries[place]);
        assert(!entries[0].is_file || !media::is_media_file(entries[0].name@, name));
        assert forall|j: int| 0 <= j < place - 1 implies !(#[trigger] rest[j]).is_file || (
        rest[j].name@ != name && !(rest[j].name@.len() > name.len() && rest[j].name@.take(
            name.len() as int,
        ) == name && rest[j].name@[name.len() as int] == '.')) by {
            assert(rest[j] == entries[j + 1]);
        }
        the_first_fitting_file_is_taken(rest, name, place - 1);
    }
}

proof fn lemma_media_file(entry: Seq<char>, name: Seq<char>)
    ensures
        media::is_media_file(entry, name) == (entry == name || (entry.len() > name.len()
            && entry.take(name.len() as int) == name && entry[name.len() as int] == '.')),
{
    let start = name.push('.');
    if start.is_prefix_of(entry) {
        assert(entry.take(name.len() as int) =~= name) by {
            assert forall|i: int| 0 <= i < name.len() implies entry[i] == name[i] by {
                assert(entry.subrange(0, start.len() as int)[i] == start[i]);
            }
        }
        assert(entry.subrange(0, start.len() as int)[name.len() as int] == start[name.len() as int]);
    }
    if entry.len() > name.len() && entry.take(name.len() as int) == name && entry[name.len() as int]
        == '.' {
        assert(entry.subrange(0, start.len() as int) =~= start) by {
            assert forall|i: int| 0 <= i < start.len() implies entry[i] == start[i] by {
                if i < name.len() {
                    assert(entry.take(name.len() as int)[i] == name[i]);
                }
            }
        }
    }
}

/// Where no file fits, none is taken.
pub proof fn no_other_file_is_taken(entries: Seq<media::MediaEntry>, name: Seq<char>)
    ensures
        media::first_media_file(entries, name) matches Some(found) ==> exists|k: int|
            0 <= k < entries.len() && (#[trigger] entries[k]).is_file && entries[k].name@ == found
                && (found == name || (found.len() > name.len() && found.take(name.len() as int)
                == name && found[name.len() as int] == '.')),
    decreases entries.len(),
{
    if entries.len() > 0 {
        lemma_media_file(entries[0].name@, name);
        let rest = entries.drop_first();
        no_other_file_is_taken(rest, name);
        if media::first_media_file(entries, name) is Some && !(entries[0].is_file
            && media::is_media_file(entries[0].name@, name)) {
            let found = media::first_media_file(rest, name)->0;
            let k = choose|k: int|
                0 <= k < rest.len() && (#[trigger] rest[k]).is_file && rest[k].name@ == found && (
                found == name || (found.len() > name.len() && found.take(name.len() as int) == name
                    && found[name.len() as int] == '.'));
            assert(entries[k + 1] == rest[k]);
        }
    }
}

} // verus!
