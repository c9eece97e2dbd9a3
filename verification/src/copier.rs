//! Which attachments are copied, and under which names.

use vstd::prelude::*;

use crate::json::{self, Json, JsonView};
use crate::media::{self, media_name, sanitize_file_name, MediaPlace};
use crate::parser::{self, value_as_u64};
use crate::path::{self, find_extension, join_path};
use crate::text::{self, from_char_range, join2, join3, padded_text, same_text, to_chars};

verus! {

/// What an export says of an attachment.
#[derive(Debug)]
pub struct AttachmentRecord {
    pub file_name: String,
    pub content_type: Option<String>,
    pub caption: Option<String>,
    pub width: Option<u64>,
    pub height: Option<u64>,
    pub source_available: bool,
    pub exported_path: Option<String>,
}

/// What an export says of an attachment, as mathematics sees it.
#[verifier::ext_equal]
pub struct AttachmentView {
    pub file_name: Seq<char>,
    pub content_type: Option<Seq<char>>,
    pub caption: Option<Seq<char>>,
    pub width: Option<u64>,
    pub height: Option<u64>,
    pub source_available: bool,
    pub exported_path: Option<Seq<char>>,
}

/// A file that is to be copied, and the folders that must be there first: those
/// of `folder`, taken below `root`.
#[derive(Debug)]
pub struct CopyOrder {
    pub source: String,
    pub root: String,
    pub folder: String,
    pub destination: String,
}

#[verifier::ext_equal]
pub struct OrderView {
    pub source: Seq<char>,
    pub root: Seq<char>,
    pub folder: Seq<char>,
    pub destination: Seq<char>,
}

/// A file that was copied, and its path relative to the document.
#[derive(Debug)]
pub struct CopiedFile {
    pub source: String,
    pub exported_path: String,
}

#[verifier::ext_equal]
pub struct CopiedView {
    pub source: Seq<char>,
    pub exported_path: Seq<char>,
}

/// The attachments of one document.
#[derive(Debug)]
pub struct MediaCopier {
    pub source_root: String,
    pub staging_root: String,
    pub media_directory_name: String,
    pub include_media: bool,
    pub copied: Vec<CopiedFile>,
    pub copied_count: u64,
    pub missing_count: u64,
    pub attachment_count: u64,
}

#[verifier::ext_equal]
pub struct CopierView {
    pub source_root: Seq<char>,
    pub staging_root: Seq<char>,
    pub media_directory_name: Seq<char>,
    pub include_media: bool,
    pub copied: Seq<CopiedView>,
    pub missing_count: int,
    pub attachment_count: int,
}

impl AttachmentRecord {
    pub open spec fn view(&self) -> AttachmentView {
        AttachmentView {
            file_name: self.file_name@,
            content_type: text::shown(self.content_type),
            caption: text::shown(self.caption),
            width: self.width,
            height: self.height,
            source_available: self.source_available,
            exported_path: text::shown(self.exported_path),
        }
    }
}

impl CopyOrder {
    pub open spec fn view(&self) -> OrderView {
        OrderView {
            source: self.source@,
            root: self.root@,
            folder: self.folder@,
            destination: self.destination@,
        }
    }
}

impl CopiedFile {
    pub open spec fn view(&self) -> CopiedView {
        CopiedView { source: self.source@, exported_path: self.exported_path@ }
    }
}

impl MediaCopier {
    pub open spec fn view(&self) -> CopierView {
        CopierView {
            source_root: self.source_root@,
            staging_root: self.staging_root@,
            media_directory_name: self.media_directory_name@,
            include_media: self.include_media,
            copied: self.copied@.map_values(|file: CopiedFile| file@),
            missing_count: self.missing_count as int,
            attachment_count: self.attachment_count as int,
        }
    }

    /// The counts are those of the files.
    pub open spec fn is_well_formed(&self) -> bool {
        &&& self.copied_count == self.copied@.len()
        &&& self.copied_count <= self.attachment_count
        &&& self.missing_count <= self.attachment_count
        &&& self@.is_orderly()
    }
}

/// The path of a copied file, up to its own name: the media folder and a number.
pub open spec fn numbered_prefix(folder: Seq<char>, number: nat) -> Seq<char> {
    folder + "/"@ + text::padded(number, 4) + "-"@
}

/// The path under which an export refers to the copied file with a number.
pub open spec fn exported_path_text(folder: Seq<char>, number: nat, name: Seq<char>) -> Seq<char> {
    numbered_prefix(folder, number) + media::safe_name(name)
}

/// The name of the copied file with a number.
pub open spec fn copied_name(number: nat, name: Seq<char>) -> Seq<char> {
    text::padded(number, 4) + "-"@ + media::safe_name(name)
}

/// Where the file with a source was copied to.
pub open spec fn path_of_copy(copied: Seq<CopiedView>, source: Seq<char>) -> Option<Seq<char>>
    decreases copied.len(),
{
    if copied.len() == 0 {
        None
    } else if copied.last().source == source {
        Some(copied.last().exported_path)
    } else {
        path_of_copy(copied.drop_last(), source)
    }
}

impl CopierView {
    /// Each source was copied once, and the copies are numbered from one.
    pub open spec fn is_orderly(self) -> bool {
        &&& forall|i: int, j: int|
            0 <= i < j < self.copied.len() ==> (#[trigger] self.copied[i]).source != (
            #[trigger] self.copied[j]).source
        &&& forall|i: int|
            0 <= i < self.copied.len() ==> numbered_prefix(
                self.media_directory_name,
                (i + 1) as nat,
            ).is_prefix_of((#[trigger] self.copied[i]).exported_path)
    }

    /// The name of the next attachment where the archive gives it none.
    pub open spec fn fallback_name(self, source: Option<Seq<char>>) -> Seq<char> {
        let plain = "attachment-"@ + text::padded((self.attachment_count + 1) as nat, 4);
        match source {
            Some(file) => match path::extension(file) {
                Some(extension) => plain + "."@ + extension,
                None => plain,
            },
            None => plain,
        }
    }

    /// The name of the next attachment.
    pub open spec fn attachment_name(self, pointer: JsonView, source: Option<Seq<char>>) -> Seq<
        char,
    > {
        match pointer.text_member("fileName"@) {
            Some(name) => media::safe_name(name),
            None => self.fallback_name(source),
        }
    }

    /// The path of the copy of a file, made now or before.
    pub open spec fn copy_path(self, source: Seq<char>, name: Seq<char>) -> Seq<char> {
        match path_of_copy(self.copied, source) {
            Some(known) => known,
            None => exported_path_text(self.media_directory_name, self.copied.len() + 1, name),
        }
    }

    /// What there is to do for the copy of a file.
    pub open spec fn copy_order(self, source: Seq<char>, name: Seq<char>) -> Option<OrderView> {
        if path_of_copy(self.copied, source) is Some {
            None
        } else {
            Some(
                OrderView {
                    source,
                    root: self.staging_root,
                    folder: self.media_directory_name,
                    destination: path::joined(
                        path::joined(self.staging_root, self.media_directory_name),
                        copied_name(self.copied.len() + 1, name),
                    ),
                },
            )
        }
    }

    /// The copier after the copy of a file.
    pub open spec fn with_copy(self, source: Seq<char>, name: Seq<char>) -> CopierView {
        if path_of_copy(self.copied, source) is Some {
            self
        } else {
            CopierView {
                copied: self.copied.push(
                    CopiedView { source, exported_path: self.copy_path(source, name) },
                ),
                ..self
            }
        }
    }

    /// What the export says of the next attachment.
    pub open spec fn attachment(self, pointer: JsonView, source: Option<Seq<char>>) -> AttachmentView {
        let name = self.attachment_name(pointer, source);
        AttachmentView {
            file_name: name,
            content_type: pointer.text_member("contentType"@),
            caption: pointer.text_member("caption"@),
            width: number_member(pointer, "width"@),
            height: number_member(pointer, "height"@),
            source_available: source is Some,
            exported_path: if self.include_media && source is Some {
                Some(self.copy_path(source->0, name))
            } else {
                None
            },
        }
    }

    /// What there is to do for the next attachment.
    pub open spec fn attachment_order(self, pointer: JsonView, source: Option<Seq<char>>) -> Option<
        OrderView,
    > {
        if self.include_media && source is Some {
            self.copy_order(source->0, self.attachment_name(pointer, source))
        } else {
            None
        }
    }

    /// The copier after the next attachment.
    pub open spec fn with_attachment(self, pointer: JsonView, source: Option<Seq<char>>) -> CopierView {
        let copied = if self.include_media && source is Some {
            self.with_copy(source->0, self.attachment_name(pointer, source)).copied
        } else {
            self.copied
        };
        CopierView {
            copied,
            missing_count: if source is Some {
                self.missing_count
            } else {
                self.missing_count + 1
            },
            attachment_count: self.attachment_count + 1,
            ..self
        }
    }
}

/// The place where the file of an attachment is looked for: in a folder named by
/// the start of its name; nowhere, where the archive does not say enough.
pub open spec fn is_place(root: Seq<char>, pointer: JsonView, place: Option<MediaPlace>) -> bool {
    match (place, media::media_name_text(pointer)) {
        (Some(found), Some(name)) => {
            &&& found.name@ == name
            &&& found.files_root@ == path::joined(root, "files"@)
            &&& found.folder@ == path::joined(found.files_root@, name.take(2))
        },
        (None, None) => true,
        _ => false,
    }
}

/// The natural number in a member of an object.
pub open spec fn number_member(object: JsonView, key: Seq<char>) -> Option<u64> {
    match object.member(key) {
        Some(value) => match parser::unsigned_of(value) {
            Some(number) => Some(number as u64),
            None => None,
        },
        None => None,
    }
}

fn member_number(object: &Json, key: &str) -> (number: Option<u64>)
    ensures
        number == number_member(object@, key@),
{
    match object.member(key) {
        Some(value) => value_as_u64(value),
        None => None,
    }
}

/// The text in a member of an object, as a text of its own.
pub fn member_text(object: &Json, key: &str) -> (held: Option<String>)
    ensures
        text::shown(held) == object@.text_member(key@),
{
    match object.text_member(key) {
        Some(found) => Some(found.to_owned()),
        None => None,
    }
}

/// The characters that an optional text shows.
pub open spec fn shown_ref(held: Option<&String>) -> Option<Seq<char>> {
    match held {
        Some(found) => Some(found@),
        None => None,
    }
}

pub open spec fn shown_order(order: Option<CopyOrder>) -> Option<OrderView> {
    match order {
        Some(wanted) => Some(wanted@),
        None => None,
    }
}

impl MediaCopier {
    /// A copier that has copied nothing.
    pub fn new_with_directory(
        source_root: String,
        staging_root: String,
        include_media: bool,
        media_directory_name: &str,
    ) -> (copier: MediaCopier)
        ensures
            copier.is_well_formed(),
            copier@ == (CopierView {
                source_root: source_root@,
                staging_root: staging_root@,
                media_directory_name: media_directory_name@,
                include_media,
                copied: Seq::empty(),
                missing_count: 0,
                attachment_count: 0,
            }),
    {
        let copier = MediaCopier {
            source_root,
            staging_root,
            media_directory_name: media_directory_name.to_owned(),
            include_media,
            copied: Vec::new(),
            copied_count: 0,
            missing_count: 0,
            attachment_count: 0,
        };
        assert(copier@.copied =~= Seq::empty());
        copier
    }

    /// Where the file of an attachment is looked for; nowhere, where the archive
    /// does not say enough.
    pub fn resolve(&self, pointer: &Json) -> (place: Option<MediaPlace>)
        ensures
            is_place(self@.source_root, pointer@, place),
    {
        match media_name(pointer) {
            Some(name) => {
                let files_root = join_path(self.source_root.as_str(), "files");
                let chars = to_chars(name.as_str());
                let start = from_char_range(&chars, 0, 2);
                assert(start@ =~= name@.take(2));
                let folder = join_path(files_root.as_str(), start.as_str());
                Some(MediaPlace { files_root, folder, name })
            },
            None => None,
        }
    }

    fn find_copy(&self, source: &str) -> (known: Option<&String>)
        ensures
            shown_ref(known) == path_of_copy(self@.copied, source@),
    {
        let ghost copied = self@.copied;
        let mut i: usize = self.copied.len();
        assert(copied.take(i as int) =~= copied);
        while i > 0
            invariant
                i <= self.copied@.len(),
                copied == self@.copied,
                path_of_copy(copied, source@) == path_of_copy(copied.take(i as int), source@),
            decreases i,
        {
            assert(copied[i as int - 1] == self.copied@[i as int - 1]@);
            assert(copied.take(i as int).last() == copied[i as int - 1]);
            if same_text(self.copied[i - 1].source.as_str(), source) {
                return Some(&self.copied[i - 1].exported_path);
            }
            assert(copied.take(i as int).drop_last() =~= copied.take(i as int - 1));
            i = i - 1;
        }
        None
    }

    /// The path of the copy of a file, and what there is to do for it: nothing
    /// where it was copied before. A file that was not is copied for an attachment
    /// that was counted.
    pub fn copy_once(&mut self, source: &str, requested_name: &str) -> (done: (
        String,
        Option<CopyOrder>,
    ))
        requires
            old(self).is_well_formed(),
            path_of_copy(old(self)@.copied, source@) is Some || old(self).copied_count < old(
                self,
            ).attachment_count,
        ensures
            final(self).is_well_formed(),
            final(self)@ == old(self)@.with_copy(source@, requested_name@),
            done.0@ == old(self)@.copy_path(source@, requested_name@),
            shown_order(done.1) == old(self)@.copy_order(source@, requested_name@),
    {
        if let Some(known) = self.find_copy(source) {
            return (known.clone(), None);
        }
        let ghost before = self@;
        let number = padded_text(self.copied_count + 1, 4);
        let safe_name = sanitize_file_name(requested_name);
        let output_name = join3(number.as_str(), "-", safe_name.as_str());
        let folder = join_path(self.staging_root.as_str(), self.media_directory_name.as_str());
        let destination = join_path(folder.as_str(), output_name.as_str());
        let exported_path = join3(self.media_directory_name.as_str(), "/", output_name.as_str());
        proof {
            assert(exported_path@ =~= exported_path_text(
                before.media_directory_name,
                before.copied.len() + 1,
                requested_name@,
            ));
            lemma_copies_stay_orderly(before, source@, requested_name@);
        }
        self.copied.push(
            CopiedFile { source: source.to_owned(), exported_path: exported_path.clone() },
        );
        self.copied_count = self.copied_count + 1;
        assert(self@.copied =~= before.with_copy(source@, requested_name@).copied);
        let order = CopyOrder {
            source: source.to_owned(),
            root: self.staging_root.clone(),
            folder: self.media_directory_name.clone(),
            destination,
        };
        (exported_path, Some(order))
    }

    /// What the export says of the next attachment, whose file in the archive was
    /// found at `source` or not at all, and what there is to do for it.
    pub fn attachment_record(&mut self, pointer: &Json, source: Option<&str>) -> (done: (
        AttachmentRecord,
        Option<CopyOrder>,
    ))
        requires
            old(self).is_well_formed(),
            old(self).attachment_count < u64::MAX,
        ensures
            final(self).is_well_formed(),
            final(self)@ == old(self)@.with_attachment(pointer@, json::seen_text(source)),
            done.0@ == old(self)@.attachment(pointer@, json::seen_text(source)),
            shown_order(done.1) == old(self)@.attachment_order(pointer@, json::seen_text(source)),
    {
        let ghost before = self@;
        let number = padded_text(self.attachment_count + 1, 4);
        self.attachment_count = self.attachment_count + 1;
        if source.is_none() {
            self.missing_count = self.missing_count + 1;
        }
        let file_name = match pointer.text_member("fileName") {
            Some(name) => sanitize_file_name(name),
            None => {
                let plain = join2("attachment-", number.as_str());
                match source {
                    Some(file) => match find_extension(file) {
                        Some(extension) => join3(plain.as_str(), ".", extension.as_str()),
                        None => plain,
                    },
                    None => plain,
                }
            },
        };
        assert(file_name@ == before.attachment_name(pointer@, json::seen_text(source)));
        let ghost counted = self@;
        assert(counted.copied =~= before.copied);
        let (exported_path, order) = match source {
            Some(file) => if self.include_media {
                let (exported_path, order) = self.copy_once(file, file_name.as_str());
                (Some(exported_path), order)
            } else {
                (None, None)
            },
            None => (None, None),
        };
        assert(self@ =~= before.with_attachment(pointer@, json::seen_text(source)));
        let record = AttachmentRecord {
            file_name,
            content_type: member_text(pointer, "contentType"),
            caption: member_text(pointer, "caption"),
            width: member_number(pointer, "width"),
            height: member_number(pointer, "height"),
            source_available: source.is_some(),
            exported_path,
        };
        (record, order)
    }
}

proof fn lemma_path_of_copy(copied: Seq<CopiedView>, source: Seq<char>)
    ensures
        path_of_copy(copied, source) is None ==> forall|i: int|
            0 <= i < copied.len() ==> (#[trigger] copied[i]).source != source,
    decreases copied.len(),
{
    if copied.len() > 0 && copied.last().source != source {
        lemma_path_of_copy(copied.drop_last(), source);
        if path_of_copy(copied, source) is None {
            assert forall|i: int| 0 <= i < copied.len() implies (#[trigger] copied[i]).source
                != source by {
                if i < copied.len() - 1 {
                    assert(copied.drop_last()[i] == copied[i]);
                }
            }
        }
    }
}

/// Copying a file keeps the copies in order: each source once, numbered from one.
pub proof fn lemma_copies_stay_orderly(copier: CopierView, source: Seq<char>, name: Seq<char>)
    requires
        copier.is_orderly(),
    ensures
        copier.with_copy(source, name).is_orderly(),
{
    if path_of_copy(copier.copied, source) is None {
        lemma_path_of_copy(copier.copied, source);
        let after = copier.with_copy(source, name);
        let count = copier.copied.len();
        assert forall|i: int| 0 <= i < after.copied.len() implies numbered_prefix(
            copier.media_directory_name,
            (i + 1) as nat,
        ).is_prefix_of((#[trigger] after.copied[i]).exported_path) by {
            if i < count {
                assert(after.copied[i] == copier.copied[i]);
            } else {
                let prefix = numbered_prefix(copier.media_directory_name, (i + 1) as nat);
                let whole = prefix + media::safe_name(name);
                assert(whole.subrange(0, prefix.len() as int) =~= prefix);
            }
        }
        assert forall|i: int, j: int| 0 <= i < j < after.copied.len() implies (
        #[trigger] after.copied[i]).source != (#[trigger] after.copied[j]).source by {
            assert(after.copied[i] == copier.copied[i]);
            if j < count {
                assert(after.copied[j] == copier.copied[j]);
            }
        }
    }
}

proof fn lemma_numbered_prefix(folder: Seq<char>, first: nat, second: nat, path: Seq<char>)
    requires
        numbered_prefix(folder, first).is_prefix_of(path),
        numbered_prefix(folder, second).is_prefix_of(path),
    ensures
        first == second,
{
    reveal_strlit("/");
    reveal_strlit("-");
    text::reading_undoes_padding(first, 4);
    text::reading_undoes_padding(second, 4);
    let a = text::padded(first, 4);
    let b = text::padded(second, 4);
    text::a_value_is_made_of_digits(a);
    text::a_value_is_made_of_digits(b);
    let start = folder.len() as int + 1;
    let p = numbered_prefix(folder, first);
    let q = numbered_prefix(folder, second);
    assert forall|i: int| 0 <= i < a.len() implies path[start + i] == #[trigger] a[i] by {
        assert(p[start + i] == a[i]);
        assert(path.subrange(0, p.len() as int)[start + i] == path[start + i]);
    }
    assert forall|i: int| 0 <= i < b.len() implies path[start + i] == #[trigger] b[i] by {
        assert(q[start + i] == b[i]);
        assert(path.subrange(0, q.len() as int)[start + i] == path[start + i]);
    }
    assert(path[start + a.len()] == '-') by {
        assert(p[start + a.len()] == '-');
        assert(path.subrange(0, p.len() as int)[start + a.len()] == path[start + a.len()]);
    }
    assert(path[start + b.len()] == '-') by {
        assert(q[start + b.len()] == '-');
        assert(path.subrange(0, q.len() as int)[start + b.len()] == path[start + b.len()]);
    }
    if a.len() < b.len() {
        assert(text::is_digit(b[a.len() as int]));
    }
    if b.len() < a.len() {
        assert(text::is_digit(a[b.len() as int]));
    }
    assert(a =~= b);
}

/// Two copied files never have the same path.
pub proof fn copied_files_do_not_collide(copier: CopierView, first: int, second: int)
    requires
        copier.is_orderly(),
        0 <= first < second < copier.copied.len(),
    ensures
        copier.copied[first].exported_path != copier.copied[second].exported_path,
{
    if copier.copied[first].exported_path == copier.copied[second].exported_path {
        lemma_numbered_prefix(
            copier.media_directory_name,
            (first + 1) as nat,
            (second + 1) as nat,
            copier.copied[first].exported_path,
        );
    }
}

/// A file is copied once: where it was copied, no more is to be done for it, and
/// its path stays what it was.
pub proof fn a_file_is_copied_once(
    copier: CopierView,
    source: Seq<char>,
    first_name: Seq<char>,
    second_name: Seq<char>,
)
    ensures
        ({
            let after = copier.with_copy(source, first_name);
            &&& after.copy_order(source, second_name) is None
            &&& after.with_copy(source, second_name) == after
            &&& after.copy_path(source, second_name) == copier.copy_path(source, first_name)
        }),
{
}

/// A file that was copied stays where it is, whatever else is attached.
pub proof fn a_copy_stays_where_it_is(
    copier: CopierView,
    source: Seq<char>,
    pointer: JsonView,
    attached: Option<Seq<char>>,
)
    requires
        path_of_copy(copier.copied, source) is Some,
    ensures
        path_of_copy(copier.with_attachment(pointer, attached).copied, source) == path_of_copy(
            copier.copied,
            source,
        ),
{
    let after = copier.with_attachment(pointer, attached);
    if after.copied.len() > copier.copied.len() {
        assert(after.copied.drop_last() =~= copier.copied);
    }
}

/// A file that was copied is not copied again for another attachment: the export
/// refers to the copy there is, and only the attachment is counted.
pub proof fn a_known_file_is_not_copied_again(
    copier: CopierView,
    source: Seq<char>,
    pointer: JsonView,
)
    requires
        copier.include_media,
        path_of_copy(copier.copied, source) is Some,
    ensures
        copier.attachment_order(pointer, Some(source)) is None,
        copier.attachment(pointer, Some(source)).exported_path == path_of_copy(
            copier.copied,
            source,
        ),
        copier.with_attachment(pointer, Some(source)) == (CopierView {
            attachment_count: copier.attachment_count + 1,
            ..copier
        }),
{
}

/// A file that was not copied yet is copied to a path of its own, whatever it is
/// called, and is one more copy.
pub proof fn another_file_gets_a_path_of_its_own(
    copier: CopierView,
    source: Seq<char>,
    other: Seq<char>,
    first_name: Seq<char>,
    second_name: Seq<char>,
)
    requires
        copier.is_orderly(),
        other != source,
        path_of_copy(copier.copied, other) is None,
    ensures
        ({
            let after = copier.with_copy(source, first_name);
            &&& after.copy_order(other, second_name) is Some
            &&& after.copy_path(other, second_name) != copier.copy_path(source, first_name)
            &&& after.with_copy(other, second_name).copied.len() == after.copied.len() + 1
        }),
{
    let after = copier.with_copy(source, first_name);
    let last = after.with_copy(other, second_name);
    lemma_copies_stay_orderly(copier, source, first_name);
    assert(path_of_copy(after.copied, other) is None) by {
        if path_of_copy(copier.copied, source) is None {
            assert(after.copied.drop_last() =~= copier.copied);
        }
    }
    lemma_copies_stay_orderly(after, other, second_name);
    lemma_where_a_copy_is(after.copied, source);
    let k = choose|k: int|
        0 <= k < after.copied.len() && after.copied[k].source == source
            && after.copied[k].exported_path == path_of_copy(after.copied, source)->0;
    assert(last.copied[k] == after.copied[k]);
    copied_files_do_not_collide(last, k, after.copied.len() as int);
}

proof fn lemma_where_a_copy_is(copied: Seq<CopiedView>, source: Seq<char>)
    ensures
        path_of_copy(copied, source) matches Some(held) ==> exists|k: int|
            0 <= k < copied.len() && (#[trigger] copied[k]).source == source
                && copied[k].exported_path == held,
    decreases copied.len(),
{
    if copied.len() > 0 {
        if copied.last().source == source {
            assert(copied[copied.len() - 1].source == source);
        } else {
            lemma_where_a_copy_is(copied.drop_last(), source);
            if path_of_copy(copied, source) is Some {
                let rest = copied.drop_last();
                let k = choose|k: int|
                    0 <= k < rest.len() && (#[trigger] rest[k]).source == source
                        && rest[k].exported_path == path_of_copy(rest, source)->0;
                assert(copied[k] == rest[k]);
            }
        }
    }
}

/// A copied file lies in the media folder, whatever the attachment is called.
pub proof fn a_copy_stays_in_the_media_folder(
    copier: CopierView,
    source: Seq<char>,
    name: Seq<char>,
)
    requires
        path_of_copy(copier.copied, source) is None,
    ensures
        ({
            let destination = copier.copy_order(source, name)->0.destination;
            let folder = path::joined(copier.staging_root, copier.media_directory_name);
            let entry = copied_name(copier.copied.len() + 1, name);
            &&& path::file_name(destination) == Some(entry)
            &&& path::components(destination) == path::components(folder).push(entry)
        }),
{
    let folder = path::joined(copier.staging_root, copier.media_directory_name);
    let number = text::padded(copier.copied.len() + 1, 4);
    let entry = copied_name(copier.copied.len() + 1, name);
    reveal_strlit("-");
    text::reading_undoes_padding(copier.copied.len() + 1, 4);
    text::a_value_is_made_of_digits(number);
    media::a_safe_name_is_plain(name);
    media::a_plain_name_names_an_entry(media::safe_name(name));
    assert forall|i: int| 0 <= i < entry.len() implies #[trigger] entry[i] != '/' by {
        if i < number.len() {
            assert(entry[i] == number[i]);
            assert(text::is_digit(number[i]));
        } else if i > number.len() {
            let k = i - number.len() - 1;
            assert(entry[i] == media::safe_name(name)[k]);
            assert(media::is_file_char(media::safe_name(name)[k]));
        }
    }
    assert(text::is_digit(number[0]));
    assert(entry[0] == number[0]);
    assert(path::dot_dot()[0] == '.');
    assert(path::dot()[0] == '.');
    path::a_joined_name_stays_inside_its_folder(folder, entry);
}

} // verus!
