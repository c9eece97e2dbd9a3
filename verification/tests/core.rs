//! Whole exports, run against files held in memory.

use std::collections::BTreeMap;

use base64::engine::general_purpose::STANDARD;
use base64::Engine as _;
use chrono::{Local, TimeZone};
use serde_json::Value;
use sha2::{Digest, Sha256};

use signal_filter::assembly::message_piece;
use signal_filter::calendar::{timestamp_to_local, CalendarDate};
use signal_filter::copier::CopyOrder;
use signal_filter::documents::{combined_before, combined_end, combined_start};
use signal_filter::install::{
    check_subfolder, install_artifacts_for, removal_for, subfolders, Found, FoundPair, Removal,
};
use signal_filter::json::{parse_json, Json};
use signal_filter::media::{pick_media_file, MediaEntry, MediaPlace};
use signal_filter::message::{FoundMedia, MessageRecord};
use signal_filter::names::staged_path_for;
use signal_filter::parser::{locate_main_jsonl, SourceKind};
use signal_filter::plan::{
    check_request, is_last_attempt, plan_export, unique_export_name, ExportPlan, Places,
};
use signal_filter::run::{multi_result, single_result, ExportRun, RunReply, RunStep};
use signal_filter::staging::{Route, StagedExport, Staging};
use signal_filter::transaction::{Installation, InstallStep, Reply};
use signal_filter::{
    build_archive_index, AppError, ArchiveIndex, Conversation, ConversationExportMode,
    ExportFormat, ExportRequest, ExportResult, MultiExportRequest, MultiExportResult,
};

// ---------------------------------------------------------------------------
// Files in memory
// ---------------------------------------------------------------------------

#[derive(Clone, Debug, PartialEq)]
enum Node {
    File(Vec<u8>),
    Folder,
    Link,
}

#[derive(Clone, Debug)]
struct Disk {
    nodes: BTreeMap<String, Node>,
    /// Moves to these paths fail.
    blocked: Vec<String>,
}

fn joined(base: &str, name: &str) -> String {
    format!("{base}/{name}")
}

fn name_of(path: &str) -> String {
    path.rsplit('/').next().unwrap_or("").to_owned()
}

fn parent_of(path: &str) -> String {
    match path.rfind('/') {
        Some(position) => path[..position].to_owned(),
        None => String::new(),
    }
}

impl Disk {
    fn new() -> Disk {
        Disk { nodes: BTreeMap::new(), blocked: Vec::new() }
    }

    fn make_folder(&mut self, path: &str) {
        self.nodes.insert(path.to_owned(), Node::Folder);
    }

    fn write(&mut self, path: &str, bytes: &[u8]) {
        self.nodes.insert(path.to_owned(), Node::File(bytes.to_vec()));
    }

    fn append(&mut self, path: &str, text: &str) {
        match self.nodes.get_mut(path) {
            Some(Node::File(bytes)) => bytes.extend_from_slice(text.as_bytes()),
            _ => panic!("{path} should be a file"),
        }
    }

    fn read(&self, path: &str) -> Vec<u8> {
        match self.nodes.get(path) {
            Some(Node::File(bytes)) => bytes.clone(),
            _ => panic!("{path} should be a file"),
        }
    }

    fn read_text(&self, path: &str) -> String {
        String::from_utf8(self.read(path)).expect("the file should be UTF-8")
    }

    fn is_file(&self, path: &str) -> bool {
        matches!(self.nodes.get(path), Some(Node::File(_)))
    }

    fn is_folder(&self, path: &str) -> bool {
        matches!(self.nodes.get(path), Some(Node::Folder))
    }

    fn holds(&self, path: &str) -> bool {
        self.nodes.contains_key(path)
    }

    fn look(&self, path: &str) -> Found {
        match self.nodes.get(path) {
            None => Found::Missing,
            Some(Node::File(_)) => Found::File,
            Some(Node::Folder) => Found::Folder,
            Some(Node::Link) => Found::Link,
        }
    }

    fn entries(&self, folder: &str) -> Vec<String> {
        self.nodes
            .keys()
            .filter(|path| parent_of(path) == folder)
            .map(|path| name_of(path))
            .collect()
    }

    fn remove(&mut self, path: &str) {
        let inside = format!("{path}/");
        self.nodes.retain(|key, _| key != path && !key.starts_with(&inside));
    }

    fn rename(&mut self, from: &str, to: &str) -> Result<(), std::io::Error> {
        if self.blocked.iter().any(|path| path == to) || !self.holds(from) {
            return Err(std::io::Error::other("the file could not be moved"));
        }
        let inside = format!("{from}/");
        let moved = self
            .nodes
            .iter()
            .filter(|(key, _)| *key == from || key.starts_with(&inside))
            .map(|(key, node)| (format!("{to}{}", &key[from.len()..]), node.clone()))
            .collect::<Vec<_>>();
        self.remove(from);
        self.nodes.extend(moved);
        Ok(())
    }
}

// ---------------------------------------------------------------------------
// The work that the library asks for
// ---------------------------------------------------------------------------

fn source_kind(disk: &Disk, source: &str) -> SourceKind {
    if disk.is_folder(source) {
        SourceKind::Folder { has_main_jsonl: disk.is_file(&joined(source, "main.jsonl")) }
    } else if disk.is_file(source) {
        SourceKind::File
    } else {
        SourceKind::Missing
    }
}

fn read_lines(disk: &Disk, file: &str) -> Vec<String> {
    disk.read_text(file).lines().map(str::to_owned).collect()
}

fn load(disk: &Disk, source: &str) -> Result<ArchiveIndex, AppError> {
    let kind = source_kind(disk, source);
    let lines = match locate_main_jsonl(source, kind) {
        Ok((file, _)) => read_lines(disk, &file),
        Err(_) => Vec::new(),
    };
    build_archive_index(source, kind, &lines)
}

fn find_media(disk: &Disk, place: &Option<MediaPlace>) -> Option<String> {
    let place = place.as_ref()?;
    let behind_link = matches!(disk.look(&place.files_root), Found::Link)
        || matches!(disk.look(&place.folder), Found::Link);
    let entries = disk
        .entries(&place.folder)
        .into_iter()
        .map(|name| MediaEntry { is_file: disk.is_file(&joined(&place.folder, &name)), name })
        .collect();
    pick_media_file(place, behind_link, &entries)
}

fn number(value: Option<u64>) -> Value {
    match value {
        Some(held) => Value::from(held),
        None => Value::Null,
    }
}

fn words(value: Option<&String>) -> Value {
    match value {
        Some(held) => Value::from(held.as_str()),
        None => Value::Null,
    }
}

fn plain(value: &Json) -> Value {
    match value {
        Json::Null => Value::Null,
        Json::Bool(flag) => Value::Bool(*flag),
        Json::Number(held) => serde_json::from_str(&held.text).expect("a number stays one"),
        Json::Text(held) => Value::from(held.as_str()),
        Json::Array(items) => Value::Array(items.iter().map(plain).collect()),
        Json::Object(members) => Value::Object(
            members.iter().map(|member| (member.key.clone(), plain(&member.value))).collect(),
        ),
    }
}

fn object(members: Vec<(&str, Value)>) -> Value {
    let mut map = serde_json::Map::new();
    for (key, value) in members {
        map.insert(key.to_owned(), value);
    }
    Value::Object(map)
}

fn record_value(record: &MessageRecord) -> Value {
    object(vec![
        ("conversation_id", Value::from(record.conversation_id.as_str())),
        ("conversation_name", Value::from(record.conversation_name.as_str())),
        ("timestamp", Value::from(record.timestamp.as_str())),
        ("timestamp_ms", Value::from(record.timestamp_ms)),
        (
            "author",
            object(vec![
                ("id", Value::from(record.author.id.as_str())),
                ("name", Value::from(record.author.name.as_str())),
            ]),
        ),
        ("direction", Value::from(record.direction.as_str())),
        ("message_type", Value::from(record.message_type.as_str())),
        ("text", words(record.text.as_ref())),
        (
            "quote",
            match &record.quote {
                Some(quote) => object(vec![
                    ("author", Value::from(quote.author.as_str())),
                    ("text", Value::from(quote.text.as_str())),
                ]),
                None => Value::Null,
            },
        ),
        (
            "reactions",
            Value::Array(
                record
                    .reactions
                    .iter()
                    .map(|reaction| {
                        object(vec![
                            ("emoji", Value::from(reaction.emoji.as_str())),
                            ("author", Value::from(reaction.author.as_str())),
                        ])
                    })
                    .collect(),
            ),
        ),
        (
            "attachments",
            Value::Array(
                record
                    .attachments
                    .iter()
                    .map(|attachment| {
                        object(vec![
                            ("file_name", Value::from(attachment.file_name.as_str())),
                            ("content_type", words(attachment.content_type.as_ref())),
                            ("caption", words(attachment.caption.as_ref())),
                            ("width", number(attachment.width)),
                            ("height", number(attachment.height)),
                            ("source_available", Value::Bool(attachment.source_available)),
                            ("exported_path", words(attachment.exported_path.as_ref())),
                        ])
                    })
                    .collect(),
            ),
        ),
        ("signal_data", plain(&record.signal_data)),
    ])
}

fn copy_media(disk: &mut Disk, order: &CopyOrder) -> Result<(), AppError> {
    for folder in subfolders(&order.root, &order.folder)? {
        match disk.look(&folder) {
            Found::Missing => disk.make_folder(&folder),
            found => check_subfolder(found, std::io::Error::other("taken"))?,
        }
    }
    let bytes = disk.read(&order.source);
    disk.write(&order.destination, &bytes);
    Ok(())
}

fn write_documents(
    disk: &mut Disk,
    index: &ArchiveIndex,
    staging: &mut Staging,
) -> Result<(), AppError> {
    let now = timestamp_to_local(chrono::Utc::now().timestamp_millis())?;
    let exported_at = now.to_text();
    let zone = now.zone_to_text();
    for position in 0..staging.stages.len() {
        let header = staging.header(index, position, &exported_at, &zone)?;
        let path = staging.stages[position].document_path.clone();
        disk.write(&path, header.as_bytes());
    }
    for line in read_lines(disk, &index.source_file) {
        let item = parse_json(&line).expect("the archive was read before");
        let position = match staging.route(&item)? {
            Route::Take { position } => position,
            Route::Skip => continue,
        };
        let message = item.object_member("chatItem").expect("the message was routed");
        let needs = staging.needs(position, message);
        assert!(staging.has_room(needs.attachments.len()));
        let found = FoundMedia {
            long_text: find_media(disk, &needs.long_text).map(|path| disk.read(&path)),
            sources: needs.attachments.iter().map(|place| find_media(disk, place)).collect(),
        };
        let staged = staging.add_message(index, position, message, found)?;
        for order in &staged.orders {
            copy_media(disk, order)?;
        }
        let text = serde_json::to_string_pretty(&record_value(&staged.record))
            .map_err(AppError::SerializeExport)?;
        let piece = message_piece(staging.format, staged.is_first, &staged.record, &text);
        let path = staging.stages[position].document_path.clone();
        disk.append(&path, &piece);
    }
    for position in 0..staging.stages.len() {
        let footer = staging.footer(position)?;
        let path = staging.stages[position].document_path.clone();
        disk.append(&path, &footer);
    }
    Ok(())
}

fn write_export(
    disk: &mut Disk,
    index: &ArchiveIndex,
    request: &MultiExportRequest,
    plan: &ExportPlan,
    folder: &str,
) -> Result<StagedExport, AppError> {
    disk.make_folder(&joined(folder, "documents"));
    let mut staging =
        Staging::start(index, request, &plan.conversation_ids, &plan.output_files, folder)?;
    write_documents(disk, index, &mut staging)?;
    match request.mode {
        ConversationExportMode::Combined => {
            let mut text = combined_start(request.format, "2024-01-01T00:00:00+00:00")?;
            for (position, stage) in staging.stages.iter().enumerate() {
                text.push_str(combined_before(request.format, position));
                text.push_str(&disk.read_text(&stage.document_path));
            }
            text.push_str(combined_end(request.format));
            let staged = staged_path_for(folder, &plan.output_files[0])?;
            disk.write(&staged, text.as_bytes());
        }
        ConversationExportMode::Separate => {
            for (stage, output) in staging.stages.iter().zip(&plan.output_files) {
                let staged = staged_path_for(folder, output)?;
                disk.rename(&stage.document_path, &staged).map_err(AppError::FinishExport)?;
            }
        }
    }
    Ok(staging.totals())
}

fn install(
    disk: &mut Disk,
    plan: &ExportPlan,
    run: &ExportRun,
    folder: &str,
) -> Result<(), AppError> {
    let mut media_staged = Vec::new();
    for media in &plan.media_folders {
        let staged = staged_path_for(folder, media)?;
        media_staged.push(disk.is_folder(&staged));
    }
    let artifacts = install_artifacts_for(
        folder,
        &plan.output_files,
        &plan.media_folders,
        &run.existing,
        &media_staged,
        run.include_media,
        run.overwrite_existing,
    )?;
    let mut installation = Installation::start(folder, artifacts);
    loop {
        let reply = match installation.step() {
            InstallStep::Inspect { path } => Reply::Entry(disk.look(&path)),
            InstallStep::MakeFolder { path } => {
                disk.make_folder(&path);
                Reply::Done
            }
            InstallStep::Move { from, to } => match disk.rename(&from, &to) {
                Ok(()) => Reply::Done,
                Err(error) => Reply::Failed(error),
            },
            InstallStep::Remove { path } => match removal_for(disk.look(&path)) {
                Removal::Impossible(error) => Reply::Failed(error),
                _ => {
                    disk.remove(&path);
                    Reply::Done
                }
            },
            InstallStep::Finish => break,
        };
        installation.advance(reply);
    }
    installation.outcome()
}

fn run_export(
    disk: &mut Disk,
    index: &ArchiveIndex,
    request: &MultiExportRequest,
    overwrite_existing: bool,
) -> Result<MultiExportResult, AppError> {
    let parent = parent_of(&request.output_file);
    let places = Places {
        folder_exists: disk.is_folder(&parent),
        folder: Some(parent.clone()),
        source_file: Ok(index.source_file.clone()),
        export_root: Ok(index.export_root.clone()),
    };
    let plan = plan_export(index, request, places)?;
    let mut run = ExportRun::start(
        parent,
        7,
        String::from("42"),
        request.include_media,
        overwrite_existing,
    );
    loop {
        let reply = match run.step() {
            RunStep::Look => RunReply::Found(
                plan.output_files
                    .iter()
                    .zip(&plan.media_folders)
                    .map(|(output, media)| FoundPair {
                        output: disk.look(output),
                        media: disk.look(media),
                    })
                    .collect(),
            ),
            RunStep::MakeFolder { path } => {
                if disk.holds(&path) {
                    RunReply::Taken
                } else {
                    disk.make_folder(&path);
                    RunReply::Made
                }
            }
            RunStep::Write { folder } => match write_export(disk, index, request, &plan, &folder) {
                Ok(totals) => RunReply::Written(totals),
                Err(error) => RunReply::Refused(error),
            },
            RunStep::Install { folder } => match install(disk, &plan, &run, &folder) {
                Ok(()) => RunReply::Placed,
                Err(error) => RunReply::Refused(error),
            },
            RunStep::Rename { from, to } => match disk.rename(&from, &to) {
                Ok(()) => RunReply::Placed,
                Err(error) => RunReply::Failed(error),
            },
            RunStep::Clean { folder } => {
                disk.remove(&folder);
                RunReply::Cleaned
            }
            RunStep::Finish => break,
        };
        run.advance(reply);
    }
    Ok(multi_result(&plan, run.outcome()?))
}

fn export_conversations(
    disk: &mut Disk,
    index: &ArchiveIndex,
    request: &MultiExportRequest,
) -> Result<MultiExportResult, AppError> {
    run_export(disk, index, request, false)
}

fn export_conversations_overwriting(
    disk: &mut Disk,
    index: &ArchiveIndex,
    request: &MultiExportRequest,
) -> Result<MultiExportResult, AppError> {
    run_export(disk, index, request, true)
}

fn export_conversation(
    disk: &mut Disk,
    index: &ArchiveIndex,
    request: &ExportRequest,
) -> Result<ExportResult, AppError> {
    let conversation = check_request(index, request, disk.is_folder(&request.destination))?;
    let now = timestamp_to_local(chrono::Utc::now().timestamp_millis())?;
    let mut attempt = 0;
    let mut name = unique_export_name(&conversation.name, &now, attempt, 7);
    while !is_last_attempt(attempt) && disk.holds(&joined(&request.destination, &name)) {
        attempt += 1;
        name = unique_export_name(&conversation.name, &now, attempt, 7);
    }
    let final_folder = joined(&request.destination, &name);
    let mut run = ExportRun::start_single(
        request.destination.clone(),
        7,
        String::from("42"),
        request.include_media,
        &name,
    );
    loop {
        let reply = match run.step() {
            RunStep::Look | RunStep::Install { .. } => panic!("a new folder replaces nothing"),
            RunStep::MakeFolder { path } => {
                disk.make_folder(&path);
                RunReply::Made
            }
            RunStep::Write { folder } => {
                let mut staging = Staging::start_single(index, request, &folder);
                match write_documents(disk, index, &mut staging) {
                    Ok(()) => RunReply::Written(staging.totals()),
                    Err(error) => RunReply::Refused(error),
                }
            }
            RunStep::Rename { from, to } => match disk.rename(&from, &to) {
                Ok(()) => RunReply::Placed,
                Err(error) => RunReply::Failed(error),
            },
            RunStep::Clean { folder } => {
                disk.remove(&folder);
                RunReply::Cleaned
            }
            RunStep::Finish => break,
        };
        run.advance(reply);
    }
    Ok(single_result(final_folder, request.format, run.outcome()?))
}

// ---------------------------------------------------------------------------
// An archive to work on
// ---------------------------------------------------------------------------

struct Fixture {
    disk: Disk,
    source: String,
    media_bytes: Vec<u8>,
    group_media_bytes: Vec<u8>,
}

fn timestamp(year: i32, month: u32, day: u32, hour: u32) -> i64 {
    Local
        .with_ymd_and_hms(year, month, day, hour, 0, 0)
        .single()
        .expect("test date should be unambiguous")
        .timestamp_millis()
}

fn hex(bytes: &[u8]) -> String {
    bytes.iter().map(|byte| format!("{byte:02x}")).collect()
}

fn store_media(
    disk: &mut Disk,
    source: &str,
    hash: &[u8],
    key: &[u8],
    extension: &str,
    bytes: &[u8],
) {
    let mut both = hash.to_vec();
    both.extend_from_slice(key);
    let name = hex(&Sha256::digest(&both));
    let files = joined(source, "files");
    disk.make_folder(&files);
    let folder = joined(&files, &name[..2]);
    disk.make_folder(&folder);
    disk.write(&joined(&folder, &format!("{name}.{extension}")), bytes);
}

fn create_fixture() -> Fixture {
    let mut disk = Disk::new();
    disk.make_folder("/work");
    let source = String::from("/work/signal-export");
    disk.make_folder(&source);

    let media_bytes = b"not-a-real-jpeg-but-deterministic".to_vec();
    store_media(&mut disk, &source, &[0x11; 32], &[0x22; 32], "jpeg", &media_bytes);
    let group_media_bytes = b"deterministic-project-image".to_vec();
    store_media(&mut disk, &source, &[0x33; 32], &[0x44; 32], "png", &group_media_bytes);

    let pointer = format!(
        "{{\"contentType\":\"image/jpeg\",\"fileName\":\"../../holiday (1).jpg\",\
         \"caption\":\"A <photo>\",\"width\":640,\"height\":480,\"locatorInfo\":{{\
         \"localKey\":\"{}\",\"integrityCheck\":{{\"plaintextHash\":\"{}\"}}}}}}",
        STANDARD.encode([0x22; 32]),
        STANDARD.encode([0x11; 32]),
    );
    let group_pointer = format!(
        "{{\"contentType\":\"image/png\",\"fileName\":\"holiday (1).jpg\",\
         \"caption\":\"Project plan\",\"width\":800,\"height\":600,\"locatorInfo\":{{\
         \"localKey\":\"{}\",\"plaintextHash\":\"{}\"}}}}",
        STANDARD.encode([0x44; 32]),
        STANDARD.encode([0x33; 32]),
    );
    let lines = vec![
        format!(
            "{{\"version\":\"1\",\"backupTimeMs\":{},\"mediaRootBackupKey\":\"fixture\"}}",
            timestamp(2024, 1, 4, 12)
        ),
        String::from(r#"{"account":{"givenName":"Test","familyName":"Owner"}}"#),
        String::from(r#"{"recipient":{"id":"10","self":{}}}"#),
        String::from(
            r#"{"recipient":{"id":"20","contact":{"profileGivenName":"Alex","profileFamilyName":"Example"}}}"#,
        ),
        String::from(
            r#"{"recipient":{"id":"30","group":{"snapshot":{"title":{"title":"Project Group"}}}}}"#,
        ),
        String::from(r#"{"chat":{"id":"999","recipientId":"20"}}"#),
        String::from(r#"{"chat":{"id":"888","recipientId":"30"}}"#),
        format!(
            "{{\"chatItem\":{{\"chatId\":\"999\",\"authorId\":\"20\",\"dateSent\":{0},\
             \"incoming\":{{\"dateReceived\":{0}}},\"standardMessage\":{{\"text\":{{\
             \"body\":\"Hello <script>alert(1)</script> *world*\"}}}}}}}}",
            timestamp(2024, 1, 1, 12)
        ),
        format!(
            "{{\"chatItem\":{{\"chatId\":\"888\",\"authorId\":\"30\",\"dateSent\":{0},\
             \"incoming\":{{\"dateReceived\":{0}}},\"standardMessage\":{{\"text\":{{\
             \"body\":\"Other conversation\"}},\"attachments\":[{{\"pointer\":{1}}}]}}}}}}",
            timestamp(2024, 1, 2, 12),
            group_pointer
        ),
        format!(
            "{{\"chatItem\":{{\"chatId\":\"999\",\"authorId\":\"10\",\"dateSent\":{0},\
             \"outgoing\":{{\"sendStatus\":[]}},\"standardMessage\":{{\"text\":{{\
             \"body\":\"Photo attached\"}},\"attachments\":[{{\"pointer\":{1}}}],\
             \"reactions\":[{{\"emoji\":\"👍\",\"authorId\":\"20\",\
             \"sentTimestamp\":{2}}}]}}}}}}",
            timestamp(2024, 1, 3, 12),
            pointer,
            timestamp(2024, 1, 3, 13)
        ),
    ];
    let mut text = lines.join("\n");
    text.push('\n');
    disk.write(&joined(&source, "main.jsonl"), text.as_bytes());
    Fixture { disk, source, media_bytes, group_media_bytes }
}

fn find<'a>(index: &'a ArchiveIndex, id: &str) -> &'a Conversation {
    index.find_conversation(id).expect("the chat should be indexed")
}

fn all_ids(index: &ArchiveIndex) -> Vec<String> {
    let mut ids = index
        .conversations
        .iter()
        .map(|conversation| conversation.id.clone())
        .collect::<Vec<_>>();
    ids.sort();
    ids
}

fn add_folder(disk: &mut Disk, name: &str) -> String {
    let folder = format!("/work/{name}");
    disk.make_folder(&folder);
    folder
}

fn stem_of(path: &str) -> String {
    let name = name_of(path);
    name[..name.rfind('.').expect("the file should have an extension")].to_owned()
}

fn expected_conversation(id: &str) -> (&'static str, &'static [&'static str], &'static str) {
    match id {
        "999" => (
            "Alex Example",
            &["Hello <script>alert(1)</script> *world*", "Photo attached"],
            "0001-holiday (1).jpg",
        ),
        "888" => ("Project Group", &["Other conversation"], "0001-holiday (1).jpg"),
        _ => panic!("unexpected fixture conversation: {id}"),
    }
}

fn expected_media_path(document: &str, expected_ids: &[&str], id: &str) -> String {
    let stem = stem_of(document);
    let file_name = expected_conversation(id).2;
    if expected_ids.len() > 1 {
        let position = expected_ids
            .iter()
            .position(|candidate| *candidate == id)
            .expect("expected conversation should have a position");
        format!("{stem}-media/conversation-{:04}/{file_name}", position + 1)
    } else {
        format!("{stem}-media/{file_name}")
    }
}

fn assert_json_export(disk: &Disk, path: &str, expected_ids: &[&str], include_media: bool) {
    let root: Value =
        serde_json::from_str(&disk.read_text(path)).expect("JSON export should be valid");
    let documents = root["conversation_exports"]
        .as_array()
        .map_or_else(|| vec![&root], |exports| exports.iter().collect::<Vec<_>>());
    assert_eq!(documents.len(), expected_ids.len());

    for expected_id in expected_ids {
        let (expected_name, expected_messages, _) = expected_conversation(expected_id);
        let expected_media_path = expected_media_path(path, expected_ids, expected_id);
        let document = documents
            .iter()
            .find(|document| document["conversation"]["id"] == *expected_id)
            .unwrap_or_else(|| panic!("conversation {expected_id} should be exported"));

        assert_eq!(document["schema_version"], 1);
        assert_eq!(document["conversation"]["name"], expected_name);
        assert_eq!(document["include_media"], include_media);
        let messages = document["messages"].as_array().expect("messages should be an array");
        assert_eq!(messages.len(), expected_messages.len());
        assert!(messages.iter().all(|message| message["conversation_id"] == *expected_id));
        assert_eq!(
            messages
                .iter()
                .map(|message| message["text"]
                    .as_str()
                    .expect("fixture messages should contain text"))
                .collect::<Vec<_>>(),
            expected_messages
        );

        let attachments = messages
            .iter()
            .flat_map(|message| {
                message["attachments"].as_array().expect("attachments should be an array")
            })
            .collect::<Vec<_>>();
        assert_eq!(attachments.len(), 1);
        assert_eq!(attachments[0]["source_available"], true);
        if include_media {
            assert_eq!(attachments[0]["exported_path"], expected_media_path);
        } else {
            assert!(attachments[0]["exported_path"].is_null());
        }

        assert_eq!(document["summary"]["messages_exported"], expected_messages.len());
        assert_eq!(document["summary"]["media_files_copied"], usize::from(include_media));
        assert_eq!(document["summary"]["media_files_missing"], 0);
    }
}

fn assert_markdown_export(disk: &Disk, path: &str, expected_ids: &[&str], include_media: bool) {
    let markdown = disk.read_text(path);
    if expected_ids.len() > 1 {
        assert!(markdown.starts_with("# Signal chat export\n"));
    }

    for expected_id in expected_ids {
        let (expected_name, _, _) = expected_conversation(expected_id);
        let expected_media_path = expected_media_path(path, expected_ids, expected_id);
        assert!(markdown.contains(&format!("# {expected_name}\n")));
        match *expected_id {
            "999" => {
                assert!(markdown.contains("Photo attached"));
                assert!(markdown.contains("&lt;script&gt;alert(1)&lt;/script&gt;"));
                assert!(markdown.contains("\\*world\\*"));
            }
            "888" => assert!(markdown.contains("Other conversation")),
            _ => unreachable!("fixture IDs are checked by expected_conversation"),
        }

        if include_media {
            let encoded_path = expected_media_path
                .replace(' ', "%20")
                .replace('(', "%28")
                .replace(')', "%29");
            assert!(markdown.contains(&format!("]({encoded_path})")));
        }
    }

    if include_media {
        assert!(!markdown.contains("available in source; not copied"));
    } else {
        assert_eq!(
            markdown.matches("available in source; not copied").count(),
            expected_ids.len()
        );
    }
}

fn assert_export_document(
    disk: &Disk,
    path: &str,
    format: ExportFormat,
    expected_ids: &[&str],
    include_media: bool,
) {
    assert!(disk.is_file(path), "expected export file should exist");
    match format {
        ExportFormat::Json => assert_json_export(disk, path, expected_ids, include_media),
        ExportFormat::Markdown => assert_markdown_export(disk, path, expected_ids, include_media),
    }
}

fn assert_media_outputs(
    fixture: &Fixture,
    disk: &Disk,
    document: &str,
    expected_ids: &[&str],
    include_media: bool,
) {
    let folder = parent_of(document);
    let media_directory = joined(&folder, &format!("{}-media", stem_of(document)));
    if !include_media {
        assert!(!disk.holds(&media_directory));
        return;
    }
    assert!(disk.is_folder(&media_directory));

    for expected_id in expected_ids {
        let relative_path = expected_media_path(document, expected_ids, expected_id);
        let expected_bytes = match *expected_id {
            "999" => &fixture.media_bytes,
            "888" => &fixture.group_media_bytes,
            _ => unreachable!("fixture IDs are checked by expected_conversation"),
        };
        assert_eq!(disk.read(&joined(&folder, &relative_path)), *expected_bytes);
    }
}

fn assert_destination_entries(
    disk: &Disk,
    destination: &str,
    expected_file_names: &[String],
    include_media: bool,
) {
    let mut actual = disk.entries(destination);
    actual.sort();
    let mut expected = expected_file_names.to_vec();
    if include_media {
        expected.extend(
            expected_file_names.iter().map(|file_name| format!("{}-media", stem_of(file_name))),
        );
    }
    expected.sort();
    assert_eq!(actual, expected);
}

fn day(year: i32, month: u32, day: u32) -> CalendarDate {
    CalendarDate { year, month, day }
}

// ---------------------------------------------------------------------------
// Tests
// ---------------------------------------------------------------------------

#[test]
fn actual_single_conversation_export_has_valid_content_exact_name_and_optional_media() {
    let fixture = create_fixture();
    let index = load(&fixture.disk, &fixture.source).expect("fixture should parse");

    for format in [ExportFormat::Json, ExportFormat::Markdown] {
        for include_media in [false, true] {
            let mut disk = fixture.disk.clone();
            let destination = add_folder(&mut disk, "destination");
            let file_name = format!("alex-example-2024-01-03.{}", format.extension());
            let output_file = joined(&destination, &file_name);
            let request = MultiExportRequest {
                conversation_ids: vec![String::from("999")],
                start_date: None,
                end_date: None,
                include_media,
                format,
                output_file: output_file.clone(),
                mode: ConversationExportMode::Separate,
            };

            let result = export_conversations(&mut disk, &index, &request)
                .expect("single-conversation export should succeed");
            assert_eq!(result.output_files, vec![output_file.clone()]);
            assert_eq!(result.messages_exported, 2);
            assert_eq!(result.media_copied, u64::from(include_media));
            assert_eq!(result.media_missing, 0);
            assert_export_document(&disk, &output_file, format, &["999"], include_media);
            assert_media_outputs(&fixture, &disk, &output_file, &["999"], include_media);
            assert_destination_entries(&disk, &destination, &[file_name], include_media);
        }
    }
}

#[test]
fn actual_combined_export_has_valid_conversations_exact_name_and_optional_media() {
    let fixture = create_fixture();
    let index = load(&fixture.disk, &fixture.source).expect("fixture should parse");

    for format in [ExportFormat::Json, ExportFormat::Markdown] {
        for include_media in [false, true] {
            let mut disk = fixture.disk.clone();
            let destination = add_folder(&mut disk, "destination");
            let file_name = format!("2-conversations-2024-01-03.{}", format.extension());
            let output_file = joined(&destination, &file_name);
            let request = MultiExportRequest {
                conversation_ids: vec![String::from("999"), String::from("888")],
                start_date: None,
                end_date: None,
                include_media,
                format,
                output_file: output_file.clone(),
                mode: ConversationExportMode::Combined,
            };

            let result = export_conversations(&mut disk, &index, &request)
                .expect("combined export should succeed");
            assert_eq!(result.output_files, vec![output_file.clone()]);
            assert_eq!(result.messages_exported, 3);
            assert_eq!(result.media_copied, 2 * u64::from(include_media));
            assert_eq!(result.media_missing, 0);
            assert_export_document(&disk, &output_file, format, &["999", "888"], include_media);
            assert_media_outputs(&fixture, &disk, &output_file, &["999", "888"], include_media);
            assert_destination_entries(&disk, &destination, &[file_name], include_media);
        }
    }
}

#[test]
fn actual_separate_export_has_valid_files_exact_names_and_optional_media() {
    let fixture = create_fixture();
    let index = load(&fixture.disk, &fixture.source).expect("fixture should parse");

    for format in [ExportFormat::Json, ExportFormat::Markdown] {
        for include_media in [false, true] {
            let mut disk = fixture.disk.clone();
            let destination = add_folder(&mut disk, "destination");
            let extension = format.extension();
            let alex_name = format!("alex-example-2024-01-03.{extension}");
            let project_name = format!("project-group-2024-01-02.{extension}");
            let alex_file = joined(&destination, &alex_name);
            let project_file = joined(&destination, &project_name);
            let request = MultiExportRequest {
                conversation_ids: vec![String::from("999"), String::from("888")],
                start_date: None,
                end_date: None,
                include_media,
                format,
                output_file: joined(&destination, &format!("2024-01-03.{extension}")),
                mode: ConversationExportMode::Separate,
            };

            let result = export_conversations(&mut disk, &index, &request)
                .expect("separate export should succeed");
            assert_eq!(result.output_files, vec![alex_file.clone(), project_file.clone()]);
            assert_eq!(result.messages_exported, 3);
            assert_eq!(result.media_copied, 2 * u64::from(include_media));
            assert_eq!(result.media_missing, 0);
            assert_export_document(&disk, &alex_file, format, &["999"], include_media);
            assert_export_document(&disk, &project_file, format, &["888"], include_media);
            assert_media_outputs(&fixture, &disk, &alex_file, &["999"], include_media);
            assert_media_outputs(&fixture, &disk, &project_file, &["888"], include_media);
            assert_destination_entries(
                &disk,
                &destination,
                &[alex_name, project_name],
                include_media,
            );
        }
    }
}

#[test]
fn indexes_chat_ids_separately_from_recipient_ids() {
    let fixture = create_fixture();
    let index = load(&fixture.disk, &fixture.source).expect("fixture should parse");

    let direct = find(&index, "999");
    assert_eq!(direct.recipient_id, "20");
    assert_eq!(direct.name, "Alex Example");
    assert_eq!(direct.message_count, 2);
    assert!(index.find_conversation("20").is_none());
    assert_eq!(index.account_name, "Test Owner");
}

#[test]
fn exports_inclusive_date_range_as_json_and_copies_media() {
    let fixture = create_fixture();
    let mut disk = fixture.disk.clone();
    let destination = add_folder(&mut disk, "destination");
    let index = load(&disk, &fixture.source).expect("fixture should parse");
    let request = ExportRequest {
        conversation_id: String::from("999"),
        start_date: Some(day(2024, 1, 3)),
        end_date: Some(day(2024, 1, 3)),
        include_media: true,
        format: ExportFormat::Json,
        destination,
    };

    let result = export_conversation(&mut disk, &index, &request).expect("export should succeed");
    assert_eq!(result.messages_exported, 1);
    assert_eq!(result.media_copied, 1);
    assert_eq!(result.media_missing, 0);

    let document: Value = serde_json::from_str(&disk.read_text(&result.output_file))
        .expect("JSON output should parse");
    let messages = document["messages"].as_array().expect("messages should be an array");
    assert_eq!(messages.len(), 1);
    assert_eq!(messages[0]["author"]["name"], "Test Owner");
    assert_eq!(messages[0]["text"], "Photo attached");
    assert!(!messages[0]["signal_data"].to_string().contains("locatorInfo"));

    let exported_path = messages[0]["attachments"][0]["exported_path"]
        .as_str()
        .expect("attachment should have an exported path");
    assert!(!exported_path.contains(".."));
    assert_eq!(
        disk.read(&joined(&result.output_directory, exported_path)),
        fixture.media_bytes
    );
}

#[test]
fn markdown_escapes_message_html_and_does_not_copy_unrequested_media() {
    let fixture = create_fixture();
    let mut disk = fixture.disk.clone();
    let destination = add_folder(&mut disk, "destination");
    let index = load(&disk, &fixture.source).expect("fixture should parse");
    let request = ExportRequest {
        conversation_id: String::from("999"),
        start_date: None,
        end_date: None,
        include_media: false,
        format: ExportFormat::Markdown,
        destination,
    };

    let result = export_conversation(&mut disk, &index, &request).expect("export should succeed");
    let markdown = disk.read_text(&result.output_file);
    assert_eq!(result.messages_exported, 2);
    assert_eq!(result.media_copied, 0);
    assert!(markdown.contains("&lt;script&gt;alert(1)&lt;/script&gt;"));
    assert!(markdown.contains("\\*world\\*"));
    assert!(markdown.contains("available in source; not copied"));
    assert!(!disk.holds(&joined(&result.output_directory, "media")));
}

#[test]
fn rejects_a_malformed_jsonl_line_without_silently_skipping_it() {
    let mut disk = Disk::new();
    disk.make_folder("/work");
    disk.write(
        "/work/main.jsonl",
        b"{\"version\":\"1\",\"backupTimeMs\":\"1\"}\n{not valid json}\n",
    );

    let error = load(&disk, "/work/main.jsonl").expect_err("malformed JSON must fail");
    assert!(error.message().contains("line 2"));
}

#[test]
fn identifies_single_technical_updates_for_ui_filtering() {
    let fixture = create_fixture();
    let mut disk = fixture.disk.clone();
    let main_file = joined(&fixture.source, "main.jsonl");
    for record in [
        r#"{"recipient":{"id":"99001","contact":{"name":{"given":"Empty contact"}}}}"#,
        r#"{"chat":{"id":"99001","recipientId":"99001"}}"#,
        r#"{"recipient":{"id":"99002","contact":{"name":{"given":"Safety notice only"}}}}"#,
        r#"{"chat":{"id":"99002","recipientId":"99002"}}"#,
        r#"{"chatItem":{"chatId":"99002","dateSent":"1704067200000","directionless":{},"updateMessage":{"simpleUpdate":{"type":"IDENTITY_UPDATE"}}}}"#,
        r#"{"chat":{"id":"99003","recipientId":"99002"}}"#,
        r#"{"chatItem":{"chatId":"99003","dateSent":"1704067200000","directionless":{},"updateMessage":{"simpleUpdate":{"type":"BLOCKED"}}}}"#,
        r#"{"chat":{"id":"99004","recipientId":"99002"}}"#,
        r#"{"chatItem":{"chatId":"99004","dateSent":"1704067200000","directionless":{},"updateMessage":{"profileChange":{"previousName":"Old","newName":"New"}}}}"#,
        r#"{"chat":{"id":"99005","recipientId":"99002"}}"#,
        r#"{"chatItem":{"chatId":"99005","dateSent":"1704067200000","authorId":"99002","incoming":{},"standardMessage":{"text":{"body":"A real message"}}}}"#,
    ] {
        disk.append(&main_file, record);
        disk.append(&main_file, "\n");
    }

    let index = load(&disk, &fixture.source).expect("fixture must index");
    let empty = find(&index, "99001");
    assert_eq!(empty.message_count, 0);
    assert!(!empty.is_technical_update_only);
    let identity_only = find(&index, "99002");
    assert_eq!(identity_only.message_count, 1);
    assert!(identity_only.is_technical_update_only);
    assert!(find(&index, "99003").is_technical_update_only);
    assert!(find(&index, "99004").is_technical_update_only);
    assert!(!find(&index, "99005").is_technical_update_only);
}

#[test]
fn explicit_combined_export_creates_the_requested_file() {
    let fixture = create_fixture();
    let mut disk = fixture.disk.clone();
    let index = load(&disk, &fixture.source).expect("fixture must index");
    let destination = add_folder(&mut disk, "destination");
    let output_file = joined(&destination, "chosen-name.json");
    let request = MultiExportRequest {
        conversation_ids: all_ids(&index),
        start_date: None,
        end_date: None,
        include_media: false,
        format: ExportFormat::Json,
        output_file: output_file.clone(),
        mode: ConversationExportMode::Combined,
    };

    let result =
        export_conversations(&mut disk, &index, &request).expect("combined export must succeed");
    assert_eq!(result.output_files, vec![output_file.clone()]);
    assert!(disk.is_file(&output_file));
    let document: Value = serde_json::from_str(&disk.read_text(&output_file))
        .expect("combined output must be valid JSON");
    assert_eq!(
        document["conversation_exports"]
            .as_array()
            .expect("combined exports must be an array")
            .len(),
        request.conversation_ids.len()
    );
}

#[test]
fn separate_export_creates_sibling_files_from_the_chosen_name() {
    let fixture = create_fixture();
    let mut disk = fixture.disk.clone();
    let index = load(&disk, &fixture.source).expect("fixture must index");
    let destination = add_folder(&mut disk, "destination");
    let request = MultiExportRequest {
        conversation_ids: all_ids(&index),
        start_date: None,
        end_date: None,
        include_media: false,
        format: ExportFormat::Markdown,
        output_file: joined(&destination, "chosen-name.md"),
        mode: ConversationExportMode::Separate,
    };

    let result =
        export_conversations(&mut disk, &index, &request).expect("separate export must succeed");
    assert_eq!(result.output_files.len(), request.conversation_ids.len());
    for output_file in result.output_files {
        assert_eq!(parent_of(&output_file), destination);
        assert!(output_file.ends_with(".md"));
        assert!(stem_of(&output_file).starts_with("chosen-name-"));
        assert!(disk.is_file(&output_file));
    }
}

#[test]
fn separate_default_names_use_each_conversations_last_message_date() {
    let fixture = create_fixture();
    let mut disk = fixture.disk.clone();
    let index = load(&disk, &fixture.source).expect("fixture must index");
    let destination = add_folder(&mut disk, "destination");
    let request = MultiExportRequest {
        conversation_ids: all_ids(&index),
        start_date: None,
        end_date: None,
        include_media: false,
        format: ExportFormat::Markdown,
        output_file: joined(&destination, "2024-01-03.md"),
        mode: ConversationExportMode::Separate,
    };

    let result =
        export_conversations(&mut disk, &index, &request).expect("separate export must succeed");
    let stems = result.output_files.iter().map(|path| stem_of(path)).collect::<Vec<_>>();
    assert!(stems.iter().any(|stem| stem.ends_with("-2024-01-02")));
    assert!(stems.iter().any(|stem| stem.ends_with("-2024-01-03")));
}

#[test]
fn confirmed_overwrite_replaces_an_existing_export_file() {
    let fixture = create_fixture();
    let mut disk = fixture.disk.clone();
    let index = load(&disk, &fixture.source).expect("fixture must index");
    let destination = add_folder(&mut disk, "destination");
    let output_file = joined(&destination, "existing.json");
    disk.write(&output_file, b"old export");
    let request = MultiExportRequest {
        conversation_ids: all_ids(&index),
        start_date: None,
        end_date: None,
        include_media: false,
        format: ExportFormat::Json,
        output_file: output_file.clone(),
        mode: ConversationExportMode::Combined,
    };

    let error = export_conversations(&mut disk, &index, &request)
        .expect_err("unconfirmed overwrite must be rejected");
    assert!(matches!(error, AppError::OutputExists));

    export_conversations_overwriting(&mut disk, &index, &request)
        .expect("confirmed overwrite must replace the file");
    let document: Value = serde_json::from_str(&disk.read_text(&output_file))
        .expect("replacement must be valid JSON");
    assert!(document["conversation_exports"].is_array());
}

#[test]
fn accepts_an_omitted_default_date_sent_value() {
    let mut disk = Disk::new();
    disk.make_folder("/work");
    let source = add_folder(&mut disk, "source");
    disk.write(
        &joined(&source, "main.jsonl"),
        concat_lines(&[
            r#"{"version":"1","backupTimeMs":"1"}"#,
            r#"{"recipient":{"id":"10","self":{}}}"#,
            r#"{"chat":{"id":"20","recipientId":"10"}}"#,
            r#"{"chatItem":{"chatId":"20","authorId":"10","directionless":{},"updateMessage":{}}}"#,
        ])
        .as_bytes(),
    );

    let index = load(&disk, &source).expect("default timestamp should parse");
    let conversation = find(&index, "20");
    assert_eq!(conversation.message_count, 1);
    assert_eq!(conversation.first_timestamp_ms, None);
    assert_eq!(conversation.last_timestamp_ms, None);

    let destination = add_folder(&mut disk, "destination");
    let result = export_conversation(
        &mut disk,
        &index,
        &ExportRequest {
            conversation_id: String::from("20"),
            start_date: Some(day(2024, 1, 1)),
            end_date: Some(day(2024, 1, 2)),
            include_media: false,
            format: ExportFormat::Json,
            destination,
        },
    )
    .expect("default timestamp should export");
    assert_eq!(result.messages_exported, 1);

    let multi_destination = add_folder(&mut disk, "multi-destination");
    let multi_result = export_conversations(
        &mut disk,
        &index,
        &MultiExportRequest {
            conversation_ids: vec![String::from("20")],
            start_date: Some(day(2024, 1, 1)),
            end_date: Some(day(2024, 1, 2)),
            include_media: false,
            format: ExportFormat::Json,
            output_file: joined(&multi_destination, "missing-date.json"),
            mode: ConversationExportMode::Separate,
        },
    )
    .expect("default timestamp should survive the GUI export date range");
    assert_eq!(multi_result.messages_exported, 1);
}

fn concat_lines(lines: &[&str]) -> String {
    lines.iter().map(|line| format!("{line}\n")).collect()
}

#[test]
fn identical_attachment_names_are_isolated_and_later_exports_do_not_change_earlier_media() {
    let fixture = create_fixture();
    let mut disk = fixture.disk.clone();
    let index = load(&disk, &fixture.source).expect("fixture should parse");
    let destination = add_folder(&mut disk, "destination");

    let combined = joined(&destination, "combined.json");
    export_conversations(
        &mut disk,
        &index,
        &MultiExportRequest {
            conversation_ids: vec![String::from("999"), String::from("888")],
            start_date: None,
            end_date: None,
            include_media: true,
            format: ExportFormat::Json,
            output_file: combined.clone(),
            mode: ConversationExportMode::Combined,
        },
    )
    .expect("combined export should succeed");
    assert_media_outputs(&fixture, &disk, &combined, &["999", "888"], true);

    let first = joined(&destination, "first.json");
    export_conversations(
        &mut disk,
        &index,
        &MultiExportRequest {
            conversation_ids: vec![String::from("999")],
            start_date: None,
            end_date: None,
            include_media: true,
            format: ExportFormat::Json,
            output_file: first.clone(),
            mode: ConversationExportMode::Separate,
        },
    )
    .expect("first single export should succeed");
    let first_media = joined(&destination, &expected_media_path(&first, &["999"], "999"));
    let before = disk.read(&first_media);

    let second = joined(&destination, "second.json");
    export_conversations(
        &mut disk,
        &index,
        &MultiExportRequest {
            conversation_ids: vec![String::from("888")],
            start_date: None,
            end_date: None,
            include_media: true,
            format: ExportFormat::Json,
            output_file: second.clone(),
            mode: ConversationExportMode::Separate,
        },
    )
    .expect("second single export should not require replacing the first");
    assert_eq!(disk.read(&first_media), before);
    assert_media_outputs(&fixture, &disk, &second, &["888"], true);
}

#[test]
fn rejects_wrong_extensions_and_destinations_inside_the_loaded_source() {
    let fixture = create_fixture();
    let mut disk = fixture.disk.clone();
    let index = load(&disk, &fixture.source).expect("fixture should parse");
    let destination = add_folder(&mut disk, "destination");
    let base = MultiExportRequest {
        conversation_ids: vec![String::from("999")],
        start_date: None,
        end_date: None,
        include_media: false,
        format: ExportFormat::Json,
        output_file: joined(&destination, "wrong.md"),
        mode: ConversationExportMode::Separate,
    };
    assert!(matches!(
        export_conversations(&mut disk, &index, &base),
        Err(AppError::OutputExtensionMismatch)
    ));

    let source_bytes = disk.read(&index.source_file);
    let mut source_request = base.clone();
    source_request.output_file = index.source_file.clone();
    assert!(matches!(
        export_conversations_overwriting(&mut disk, &index, &source_request),
        Err(AppError::ProtectedSourceDestination)
    ));
    assert_eq!(disk.read(&index.source_file), source_bytes);

    source_request.output_file = joined(&joined(&index.export_root, "files"), "export.json");
    assert!(matches!(
        export_conversations(&mut disk, &index, &source_request),
        Err(AppError::ProtectedSourceDestination)
    ));
}

#[test]
fn incompatible_separate_destination_is_rejected_before_any_existing_file_is_changed() {
    let fixture = create_fixture();
    let mut disk = fixture.disk.clone();
    let index = load(&disk, &fixture.source).expect("fixture should parse");
    let destination = add_folder(&mut disk, "destination");
    let first = joined(&destination, "chosen-alex-example.json");
    let second = joined(&destination, "chosen-project-group.json");
    disk.write(&first, b"previous export");
    disk.make_folder(&second);
    let request = MultiExportRequest {
        conversation_ids: vec![String::from("999"), String::from("888")],
        start_date: None,
        end_date: None,
        include_media: false,
        format: ExportFormat::Json,
        output_file: joined(&destination, "chosen.json"),
        mode: ConversationExportMode::Separate,
    };

    assert!(matches!(
        export_conversations_overwriting(&mut disk, &index, &request),
        Err(AppError::UnsafeDestination)
    ));
    assert_eq!(disk.read(&first), b"previous export");
    assert!(disk.is_folder(&second));
    assert!(disk.entries(&destination).iter().all(|entry| !entry.starts_with(".signal-filter-")));
}

#[test]
fn confirmed_overwrite_rejects_a_media_symlink_without_touching_its_target() {
    let fixture = create_fixture();
    let mut disk = fixture.disk.clone();
    let index = load(&disk, &fixture.source).expect("fixture should parse");
    let destination = add_folder(&mut disk, "destination");
    let output = joined(&destination, "existing.json");
    disk.write(&output, b"old export");
    let outside = add_folder(&mut disk, "outside");
    let sentinel = joined(&outside, "sentinel");
    disk.write(&sentinel, b"do not alter");
    disk.nodes.insert(joined(&destination, "existing-media"), Node::Link);
    let request = MultiExportRequest {
        conversation_ids: vec![String::from("999")],
        start_date: None,
        end_date: None,
        include_media: true,
        format: ExportFormat::Json,
        output_file: output.clone(),
        mode: ConversationExportMode::Separate,
    };

    assert!(matches!(
        export_conversations_overwriting(&mut disk, &index, &request),
        Err(AppError::UnsafeDestination)
    ));
    assert_eq!(disk.read(&output), b"old export");
    assert_eq!(disk.read(&sentinel), b"do not alter");
}

#[test]
fn generated_separate_names_are_globally_unique() {
    let fixture = create_fixture();
    let mut disk = fixture.disk.clone();
    let mut index = load(&disk, &fixture.source).expect("fixture should parse");
    for conversation in &mut index.conversations {
        conversation.name = String::from("A");
    }
    let mut third = find(&index, "888").clone();
    third.id = String::from("777");
    third.name = String::from("A-2");
    index.conversations.push(third);
    let destination = add_folder(&mut disk, "destination");
    let request = MultiExportRequest {
        conversation_ids: vec![String::from("999"), String::from("888"), String::from("777")],
        start_date: None,
        end_date: None,
        include_media: false,
        format: ExportFormat::Markdown,
        output_file: joined(&destination, "chosen.md"),
        mode: ConversationExportMode::Separate,
    };

    let result =
        export_conversations(&mut disk, &index, &request).expect("unique names should export");
    let names = result
        .output_files
        .iter()
        .map(|path| name_of(path))
        .collect::<std::collections::HashSet<_>>();
    assert_eq!(names.len(), 3);
    assert!(result.output_files.iter().all(|path| disk.is_file(path)));
}

// ---------------------------------------------------------------------------
// Exports that fail on the way
// ---------------------------------------------------------------------------

#[test]
fn a_failed_replacement_restores_every_file_and_leaves_nothing_behind() {
    let fixture = create_fixture();
    let mut disk = fixture.disk.clone();
    let index = load(&disk, &fixture.source).expect("fixture should parse");
    let destination = add_folder(&mut disk, "destination");
    let first = joined(&destination, "chosen-alex-example.json");
    let media = joined(&destination, "chosen-alex-example-media");
    disk.write(&first, b"previous export");
    disk.make_folder(&media);
    disk.write(&joined(&media, "0001-old.jpg"), b"previous media");
    let before = disk.nodes.clone();
    disk.blocked.push(joined(&destination, "chosen-project-group.json"));
    let request = MultiExportRequest {
        conversation_ids: vec![String::from("999"), String::from("888")],
        start_date: None,
        end_date: None,
        include_media: true,
        format: ExportFormat::Json,
        output_file: joined(&destination, "chosen.json"),
        mode: ConversationExportMode::Separate,
    };

    let error = export_conversations_overwriting(&mut disk, &index, &request)
        .expect_err("the second file cannot be put in place");
    assert!(matches!(error, AppError::FinishExport(_)));
    assert_eq!(disk.nodes, before);

    disk.blocked.clear();
    export_conversations_overwriting(&mut disk, &index, &request)
        .expect("nothing stands in the way any more");
    assert!(disk.read_text(&first).starts_with("{\n  \"schema_version\": 1,"));
    assert!(!disk.holds(&joined(&media, "0001-old.jpg")));
    assert!(disk.is_file(&joined(&media, "0001-holiday (1).jpg")));
}

#[test]
fn replacing_without_media_removes_the_media_of_the_earlier_export() {
    let fixture = create_fixture();
    let mut disk = fixture.disk.clone();
    let index = load(&disk, &fixture.source).expect("fixture should parse");
    let destination = add_folder(&mut disk, "destination");
    let output = joined(&destination, "chat.md");
    let mut request = MultiExportRequest {
        conversation_ids: vec![String::from("999"), String::from("999")],
        start_date: None,
        end_date: None,
        include_media: true,
        format: ExportFormat::Markdown,
        output_file: output.clone(),
        mode: ConversationExportMode::Separate,
    };
    let first = export_conversations(&mut disk, &index, &request).expect("export should succeed");
    assert_eq!(first.output_files, vec![output.clone()]);
    assert!(disk.is_folder(&joined(&destination, "chat-media")));

    request.include_media = false;
    export_conversations_overwriting(&mut disk, &index, &request).expect("export should succeed");
    assert!(!disk.holds(&joined(&destination, "chat-media")));
    assert_eq!(disk.entries(&destination), vec![String::from("chat.md")]);
}

#[test]
fn a_name_that_is_taken_for_the_working_folder_is_passed_over() {
    let fixture = create_fixture();
    let mut disk = fixture.disk.clone();
    let index = load(&disk, &fixture.source).expect("fixture should parse");
    let destination = add_folder(&mut disk, "destination");
    disk.make_folder(&joined(&destination, ".signal-filter-7-42-0"));
    let request = MultiExportRequest {
        conversation_ids: vec![String::from("888")],
        start_date: None,
        end_date: None,
        include_media: false,
        format: ExportFormat::Json,
        output_file: joined(&destination, "chat.json"),
        mode: ConversationExportMode::Separate,
    };
    export_conversations(&mut disk, &index, &request).expect("export should succeed");
    assert_eq!(
        disk.entries(&destination),
        vec![String::from(".signal-filter-7-42-0"), String::from("chat.json")]
    );

    for attempt in 0..100 {
        disk.make_folder(&joined(&destination, &format!(".signal-filter-7-42-{attempt}")));
    }
    let error = export_conversations_overwriting(&mut disk, &index, &request)
        .expect_err("no name is left for the working folder");
    assert!(matches!(error, AppError::CreateExport(_)));
}

#[test]
fn unknown_chats_and_missing_folders_are_refused() {
    let fixture = create_fixture();
    let mut disk = fixture.disk.clone();
    let index = load(&disk, &fixture.source).expect("fixture should parse");
    let destination = add_folder(&mut disk, "destination");
    let mut request = MultiExportRequest {
        conversation_ids: vec![String::from("999"), String::from("nobody")],
        start_date: None,
        end_date: None,
        include_media: false,
        format: ExportFormat::Json,
        output_file: joined(&destination, "chat.json"),
        mode: ConversationExportMode::Combined,
    };
    let error = export_conversations(&mut disk, &index, &request).expect_err("unknown chat");
    assert!(matches!(error, AppError::UnknownConversation));
    assert!(disk.entries(&destination).is_empty());

    request.mode = ConversationExportMode::Separate;
    let error = export_conversations(&mut disk, &index, &request).expect_err("unknown chat");
    assert!(matches!(error, AppError::UnknownConversation));

    request.conversation_ids.clear();
    let error = export_conversations(&mut disk, &index, &request).expect_err("nothing selected");
    assert!(matches!(error, AppError::NoConversationsSelected));

    request.conversation_ids.push(String::from("999"));
    request.start_date = Some(day(2024, 1, 2));
    request.end_date = Some(day(2024, 1, 1));
    let error = export_conversations(&mut disk, &index, &request).expect_err("reversed dates");
    assert!(matches!(error, AppError::ReversedDateRange));

    request.start_date = None;
    request.output_file = String::from("/work/nowhere/chat.json");
    let error = export_conversations(&mut disk, &index, &request).expect_err("no such folder");
    assert!(matches!(error, AppError::InvalidDestination));

    request.output_file = String::from("/work/destination/..");
    let error = export_conversations(&mut disk, &index, &request).expect_err("no file name");
    assert!(matches!(error, AppError::InvalidOutputFile));
}

#[test]
fn both_modes_take_the_same_messages_in_the_range() {
    let fixture = create_fixture();
    let index = load(&fixture.disk, &fixture.source).expect("fixture should parse");
    for include_media in [false, true] {
        for (first, last, messages, copied) in [(1, 3, 3, 2), (2, 3, 2, 2), (1, 1, 1, 0)] {
            for mode in [ConversationExportMode::Combined, ConversationExportMode::Separate] {
                let mut disk = fixture.disk.clone();
                let destination = add_folder(&mut disk, "destination");
                let request = MultiExportRequest {
                    conversation_ids: vec![String::from("999"), String::from("888")],
                    start_date: Some(day(2024, 1, first)),
                    end_date: Some(day(2024, 1, last)),
                    include_media,
                    format: ExportFormat::Json,
                    output_file: joined(&destination, "chats.json"),
                    mode,
                };
                let result = export_conversations(&mut disk, &index, &request)
                    .expect("the export should succeed");
                assert_eq!(result.messages_exported, messages);
                assert_eq!(result.media_copied, copied * u64::from(include_media));
                assert_eq!(result.media_missing, 0);
            }
        }
    }
}

#[test]
fn documents_hold_their_messages_in_order() {
    let fixture = create_fixture();
    let mut disk = fixture.disk.clone();
    let destination = add_folder(&mut disk, "destination");
    let index = load(&disk, &fixture.source).expect("fixture should parse");
    let output_file = joined(&destination, "chats.json");
    let request = MultiExportRequest {
        conversation_ids: vec![String::from("888"), String::from("999")],
        start_date: None,
        end_date: None,
        include_media: false,
        format: ExportFormat::Json,
        output_file: output_file.clone(),
        mode: ConversationExportMode::Combined,
    };
    export_conversations(&mut disk, &index, &request).expect("the export should succeed");
    let value: Value =
        serde_json::from_str(&disk.read_text(&output_file)).expect("the file should be JSON");
    let texts = |position: usize| {
        value["conversation_exports"][position]["messages"]
            .as_array()
            .expect("the messages")
            .iter()
            .map(|message| message["text"].as_str().expect("a text").to_owned())
            .collect::<Vec<_>>()
    };
    assert_eq!(texts(0), vec!["Other conversation"]);
    assert_eq!(texts(1), vec!["Hello <script>alert(1)</script> *world*", "Photo attached"]);
}

#[test]
fn repeated_ids_change_nothing() {
    let fixture = create_fixture();
    let index = load(&fixture.disk, &fixture.source).expect("fixture should parse");
    let export = |ids: &[&str], start: CalendarDate| {
        let mut disk = fixture.disk.clone();
        let destination = add_folder(&mut disk, "destination");
        let request = MultiExportRequest {
            conversation_ids: ids.iter().map(|id| (*id).to_owned()).collect(),
            start_date: Some(start),
            end_date: Some(day(2024, 1, 3)),
            include_media: true,
            format: ExportFormat::Json,
            output_file: joined(&destination, "chats.json"),
            mode: ConversationExportMode::Separate,
        };
        export_conversations(&mut disk, &index, &request)
    };
    let once = export(&["999", "888"], day(2024, 1, 1)).expect("the export should succeed");
    let twice = export(&["999", "888", "999", "888", "888"], day(2024, 1, 1))
        .expect("the export should succeed");
    assert_eq!(once.output_files, twice.output_files);
    assert_eq!(once.messages_exported, twice.messages_exported);
    assert_eq!(once.media_copied, twice.media_copied);
    assert_eq!(once.media_missing, twice.media_missing);

    let reversed = day(2024, 1, 4);
    assert!(matches!(export(&[], reversed), Err(AppError::NoConversationsSelected)));
    assert!(matches!(export(&["999"], reversed), Err(AppError::ReversedDateRange)));
}

#[test]
fn the_order_of_the_lines_changes_nothing() {
    let fixture = create_fixture();
    let index = load(&fixture.disk, &fixture.source).expect("fixture should parse");
    let main_file = joined(&fixture.source, "main.jsonl");
    let mut lines = read_lines(&fixture.disk, &main_file);
    lines.reverse();
    lines.insert(3, String::from("  "));
    let kind = source_kind(&fixture.disk, &fixture.source);
    let other = build_archive_index(&fixture.source, kind, &lines).expect("lines should parse");
    assert_eq!(other.account_name, index.account_name);
    assert_eq!(other.recipients.len(), index.recipients.len());
    for recipient in &index.recipients {
        assert!(other.recipients.contains(recipient));
    }
    assert_eq!(other.conversations.len(), index.conversations.len());
    for id in ["999", "888"] {
        let (left, right) = (find(&index, id), find(&other, id));
        assert_eq!(left.name, right.name);
        assert_eq!(left.message_count, right.message_count);
        assert_eq!(left.first_timestamp_ms, right.first_timestamp_ms);
        assert_eq!(left.last_timestamp_ms, right.last_timestamp_ms);
        let sorted = |conversation: &Conversation| {
            let mut authors = conversation.author_ids.clone();
            authors.sort();
            authors
        };
        assert_eq!(sorted(left), sorted(right));
    }
}
