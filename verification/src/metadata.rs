//! The metadata of an archive: what its header says of its files.

use vstd::prelude::*;
pub use crate::display::display_metadata;
pub use crate::update::update_metadata;
use crate::common::FORMAT_VERSION;
use crate::common::PACKAGE_VERSION;
use crate::error::MetadataError;
use crate::json::JsonNumber;
use crate::json::JsonValue;
use crate::json::JsonView;
use crate::json::NumberView;
use crate::json::find_member;
use crate::json::has_distinct_keys;
use crate::json::has_key;
use crate::json::is_canonical;
use crate::json::is_first_index;
use crate::json::items_view;
use crate::json::lemma_first_index;
use crate::json::lemma_items_view;
use crate::json::lemma_members_view;
use crate::json::lookup;
use crate::json::members_view;
use crate::json::merged;
use crate::json::with_entry;
use crate::text::normalize_separators;
use crate::text::normalized;

verus! {

/// One entry of the file index: a path and the length of the content.
#[derive(Debug, Clone, PartialEq, Eq)]
pub struct FileInfo {
    pub path: String,
    pub size: u64,
}

/// An entry of the file index as a mathematical value.
pub struct FileInfoView {
    pub path: Seq<char>,
    pub size: u64,
}

impl View for FileInfo {
    type V = FileInfoView;

    open spec fn view(&self) -> FileInfoView {
        FileInfoView { path: self.path@, size: self.size }
    }
}

/// The entries of a file index as mathematical values, in their order.
pub open spec fn infos_view(files: Seq<FileInfo>) -> Seq<FileInfoView> {
    Seq::new(files.len(), |i: int| files[i]@)
}

impl FileInfo {
    /// The entry for a file of `size` bytes at `path`, with the path's
    /// backslashes turned into forward slashes.
    pub fn new(path: &str, size: u64) -> (r: FileInfo)
        ensures
            r@.path == normalized(path@),
            r@.size == size,
    {
        FileInfo { path: normalize_separators(path), size }
    }
}

/// What the header of an archive says of it.
#[derive(Debug, PartialEq)]
pub struct XpakMetadata {
    /// The version of the program that wrote the archive.
    pub version: String,
    /// The version of the archive's layout.
    pub format_version: String,
    /// When the archive was written, as RFC 3339 text.
    pub created_at: String,
    /// The number of records, as declared when the archive was written.
    pub files_count: u32,
    /// The sum of the content lengths, as declared when the archive was
    /// written.
    pub total_size: u64,
    pub description: Option<String>,
    /// What the user had to say: keys with JSON values, in the order in
    /// which the keys first came.
    pub common: Vec<(String, JsonValue)>,
    /// The file index.
    pub files: Vec<FileInfo>,
}

/// The metadata of an archive as a mathematical value.
pub struct MetadataView {
    pub version: Seq<char>,
    pub format_version: Seq<char>,
    pub created_at: Seq<char>,
    pub files_count: u32,
    pub total_size: u64,
    pub description: Option<Seq<char>>,
    pub common: Seq<(Seq<char>, JsonView)>,
    pub files: Seq<FileInfoView>,
}

impl View for XpakMetadata {
    type V = MetadataView;

    open spec fn view(&self) -> MetadataView {
        MetadataView {
            version: self.version@,
            format_version: self.format_version@,
            created_at: self.created_at@,
            files_count: self.files_count,
            total_size: self.total_size,
            description: match self.description {
                Some(d) => Some(d@),
                None => None,
            },
            common: members_view(self.common@),
            files: infos_view(self.files@),
        }
    }
}

/// The JSON object that stands for one entry of the file index.
pub open spec fn file_json(f: FileInfoView) -> JsonView {
    JsonView::Object(
        seq![
            ("path"@, JsonView::Text(f.path)),
            ("size"@, JsonView::Number(NumberView::Unsigned(f.size))),
        ],
    )
}

/// The JSON array that stands for a file index.
pub open spec fn files_json(files: Seq<FileInfoView>) -> Seq<JsonView> {
    Seq::new(files.len(), |i: int| file_json(files[i]))
}

/// The JSON value that stands for a description: the text, or null where
/// there is none.
pub open spec fn description_json(d: Option<Seq<char>>) -> JsonView {
    match d {
        Some(text) => JsonView::Text(text),
        None => JsonView::Null,
    }
}

/// The JSON object that stands for the metadata, its members in the order
/// in which they are written.
pub open spec fn json_of_metadata(m: MetadataView) -> JsonView {
    JsonView::Object(
        seq![
            ("version"@, JsonView::Text(m.version)),
            ("format_version"@, JsonView::Text(m.format_version)),
            ("created_at"@, JsonView::Text(m.created_at)),
            ("files_count"@, JsonView::Number(NumberView::Unsigned(m.files_count as u64))),
            ("total_size"@, JsonView::Number(NumberView::Unsigned(m.total_size))),
            ("description"@, description_json(m.description)),
            ("common"@, JsonView::Object(m.common)),
            ("files"@, JsonView::Array(files_json(m.files))),
        ],
    )
}

/// The text under `key`, where the member is there and is a text.
pub open spec fn text_field(members: Seq<(Seq<char>, JsonView)>, key: Seq<char>) -> Option<Seq<char>> {
    match lookup(members, key) {
        Some(JsonView::Text(s)) => Some(s),
        _ => None,
    }
}

/// The number under `key`, where the member is there and is an integer from
/// zero up.
pub open spec fn u64_field(members: Seq<(Seq<char>, JsonView)>, key: Seq<char>) -> Option<u64> {
    match lookup(members, key) {
        Some(JsonView::Number(NumberView::Unsigned(v))) => Some(v),
        _ => None,
    }
}

/// The description that an object declares: none where the member is
/// missing or null, the text where it is a text. Anything else is an error,
/// which the outer `None` says.
pub open spec fn description_field(members: Seq<(Seq<char>, JsonView)>) -> Option<Option<Seq<char>>> {
    match lookup(members, "description"@) {
        None => Some(None),
        Some(JsonView::Null) => Some(None),
        Some(JsonView::Text(s)) => Some(Some(s)),
        _ => None,
    }
}

/// The user's entries that an object declares: none where the member is
/// missing, the members where it is an object.
pub open spec fn common_field(members: Seq<(Seq<char>, JsonView)>) -> Option<Seq<(Seq<char>, JsonView)>> {
    match lookup(members, "common"@) {
        None => Some(Seq::empty()),
        Some(JsonView::Object(entries)) => Some(entries),
        _ => None,
    }
}

/// The entry of the file index that a JSON value stands for, where it is an
/// object with a text `path` and a number `size`.
pub open spec fn file_of_json(item: JsonView) -> Option<FileInfoView> {
    match item {
        JsonView::Object(members) => match (text_field(members, "path"@), u64_field(members, "size"@)) {
            (Some(path), Some(size)) => Some(FileInfoView { path, size }),
            _ => None,
        },
        _ => None,
    }
}

/// The file index that a JSON array stands for, where every item stands for
/// an entry.
pub open spec fn files_of_json(items: Seq<JsonView>) -> Option<Seq<FileInfoView>> {
    if forall|i: int| 0 <= i < items.len() ==> (#[trigger] file_of_json(items[i])) is Some {
        Some(Seq::new(items.len(), |i: int| file_of_json(items[i])->Some_0))
    } else {
        None
    }
}

/// The file index that an object declares under `files`.
pub open spec fn files_field(members: Seq<(Seq<char>, JsonView)>) -> Option<Seq<FileInfoView>> {
    match lookup(members, "files"@) {
        Some(JsonView::Array(items)) => files_of_json(items),
        _ => None,
    }
}

/// The metadata that the members of a JSON object declare, where every
/// field that has to be there is there and has its type.
pub open spec fn metadata_of_members(members: Seq<(Seq<char>, JsonView)>) -> Option<MetadataView> {
    if text_field(members, "version"@) is Some && text_field(members, "format_version"@) is Some
        && text_field(members, "created_at"@) is Some && u64_field(members, "files_count"@) is Some
        && u64_field(members, "files_count"@)->Some_0 <= u32::MAX && u64_field(
        members,
        "total_size"@,
    ) is Some && description_field(members) is Some && common_field(members) is Some && files_field(
        members,
    ) is Some {
        Some(
            MetadataView {
                version: text_field(members, "version"@)->Some_0,
                format_version: text_field(members, "format_version"@)->Some_0,
                created_at: text_field(members, "created_at"@)->Some_0,
                files_count: u64_field(members, "files_count"@)->Some_0 as u32,
                total_size: u64_field(members, "total_size"@)->Some_0,
                description: description_field(members)->Some_0,
                common: common_field(members)->Some_0,
                files: files_field(members)->Some_0,
            },
        )
    } else {
        None
    }
}

/// The metadata that a JSON document declares: an error where the document
/// is no object, and where a field is missing or has the wrong type.
pub open spec fn metadata_of_json(doc: JsonView) -> Result<MetadataView, MetadataError> {
    match doc {
        JsonView::Object(members) => match metadata_of_members(members) {
            Some(m) => Ok(m),
            None => Err(MetadataError::InvalidField),
        },
        _ => Err(MetadataError::NotAnObject),
    }
}

/// `chrono::Utc::now`, written as chrono writes a time into JSON: RFC 3339
/// with `Z` for the offset. It is the time of the call, so nothing is
/// promised of it.
#[verifier::external_body]
pub(crate) fn current_timestamp() -> String {
    chrono::Utc::now().to_rfc3339_opts(chrono::SecondsFormat::AutoSi, true)
}

/// A member of a JSON object that holds a text.
fn text_member(key: &str, value: &String) -> (r: (String, JsonValue))
    ensures
        r.0@ == key@,
        r.1@ == JsonView::Text(value@),
{
    (key.to_owned(), JsonValue::Text(value.clone()))
}

/// A member of a JSON object that holds an integer from zero up.
fn number_member(key: &str, value: u64) -> (r: (String, JsonValue))
    ensures
        r.0@ == key@,
        r.1@ == JsonView::Number(NumberView::Unsigned(value)),
{
    (key.to_owned(), JsonValue::Number(JsonNumber::from_u64(value)))
}

/// The text of the first member under `key`, where it is a text.
pub fn get_text(members: &Vec<(String, JsonValue)>, key: &str) -> (r: Option<String>)
    ensures
        match r {
            Some(s) => text_field(members_view(members@), key@) == Some(s@),
            None => text_field(members_view(members@), key@) is None,
        },
{
    proof {
        lemma_members_view(members@);
    }
    match find_member(members, key) {
        Some(i) => {
            proof {
                lemma_first_index(members_view(members@), key@, i as int);
            }
            match &members[i].1 {
                JsonValue::Text(s) => Some(s.clone()),
                _ => None,
            }
        },
        None => None,
    }
}

/// The number of the first member under `key`, where it is an integer from
/// zero up.
pub fn get_u64(members: &Vec<(String, JsonValue)>, key: &str) -> (r: Option<u64>)
    ensures
        r == u64_field(members_view(members@), key@),
{
    proof {
        lemma_members_view(members@);
    }
    match find_member(members, key) {
        Some(i) => {
            proof {
                lemma_first_index(members_view(members@), key@, i as int);
            }
            match &members[i].1 {
                JsonValue::Number(n) => n.as_u64(),
                _ => None,
            }
        },
        None => None,
    }
}

impl FileInfo {
    /// The JSON object that stands for the entry.
    pub fn to_json(&self) -> (r: JsonValue)
        ensures
            r@ == file_json(self@),
    {
        let members = vec![text_member("path", &self.path), number_member("size", self.size)];
        let r = JsonValue::Object(members);
        proof {
            lemma_members_view(members@);
            assert(members_view(members@) =~= file_json(self@)->Object_0);
        }
        r
    }

    /// The entry that a JSON value stands for, where it is an object with a
    /// text `path` and a number `size`.
    pub fn from_json(item: &JsonValue) -> (r: Option<FileInfo>)
        ensures
            match r {
                Some(f) => file_of_json(item@) == Some(f@),
                None => file_of_json(item@) is None,
            },
    {
        match item {
            JsonValue::Object(members) => {
                let path = get_text(members, "path");
                let size = get_u64(members, "size");
                match (path, size) {
                    (Some(path), Some(size)) => Some(FileInfo { path, size }),
                    _ => None,
                }
            },
            _ => None,
        }
    }
}

impl Default for XpakMetadata {
    /// Fresh metadata for an archive without records, written now.
    fn default() -> (r: XpakMetadata)
        ensures
            r@ == XpakMetadata::fresh_view(0, 0, r@.created_at),
    {
        XpakMetadata::new(0, 0)
    }
}

/// What putting an entry in does: the key has the new value, every other
/// key has what it had, and no key comes to stand twice.
pub proof fn lemma_with_entry(
    entries: Seq<(Seq<char>, JsonView)>,
    key: Seq<char>,
    value: JsonView,
    other: Seq<char>,
)
    ensures
        lookup(with_entry(entries, key, value), key) == Some(value),
        other != key ==> lookup(with_entry(entries, key, value), other) == lookup(entries, other),
        has_distinct_keys(entries) ==> has_distinct_keys(with_entry(entries, key, value)),
{
    let after = with_entry(entries, key, value);
    if has_key(entries, key) {
        crate::json::lemma_has_key(entries, key);
        let i = crate::json::first_index(entries, key);
        assert(is_first_index(after, key, i)) by {
            assert forall|j: int| 0 <= j < i implies (#[trigger] after[j]).0 != key by {
                assert(after[j] == entries[j]);
            }
        }
        lemma_first_index(after, key, i);
    } else {
        assert(is_first_index(after, key, entries.len() as int)) by {
            assert forall|j: int| 0 <= j < entries.len() implies (#[trigger] after[j]).0 != key by {
                assert(after[j] == entries[j]);
            }
        }
        lemma_first_index(after, key, entries.len() as int);
    }
    assert forall|j: int| 0 <= j < entries.len() implies (#[trigger] after[j]).0 == entries[j].0 by {}
    if other != key {
        if has_key(entries, other) {
            crate::json::lemma_has_key(entries, other);
            let j = crate::json::first_index(entries, other);
            assert(is_first_index(after, other, j)) by {
                assert forall|q: int| 0 <= q < j implies (#[trigger] after[q]).0 != other by {
                    assert(after[q].0 == entries[q].0);
                }
            }
            lemma_first_index(after, other, j);
            assert(after[j] == entries[j]);
        } else {
            if has_key(after, other) {
                let j = choose|j: int| 0 <= j < after.len() && (#[trigger] after[j]).0 == other;
                assert(j < entries.len());
                assert(entries[j].0 == other);
            }
        }
    }
    if has_distinct_keys(entries) {
        assert forall|i: int, j: int| 0 <= i < j < after.len() implies (#[trigger] after[i]).0 != (
        #[trigger] after[j]).0 by {
            if j < entries.len() {
                assert(entries[i].0 != entries[j].0);
            } else {
                assert(entries[i].0 != key);
            }
        }
    }
}

/// What a merge keeps: a key that no update names has what it had, and no
/// key comes to stand twice.
pub proof fn lemma_merged_keeps(
    entries: Seq<(Seq<char>, JsonView)>,
    updates: Seq<(Seq<char>, JsonView)>,
    other: Seq<char>,
)
    ensures
        !has_key(updates, other) ==> lookup(merged(entries, updates), other) == lookup(entries, other),
        has_distinct_keys(entries) ==> has_distinct_keys(merged(entries, updates)),
    decreases updates.len(),
{
    if updates.len() > 0 {
        let first = updates.first();
        let rest = updates.drop_first();
        lemma_with_entry(entries, first.0, first.1, other);
        lemma_merged_keeps(with_entry(entries, first.0, first.1), rest, other);
        if !has_key(updates, other) {
            assert(updates[0].0 != other);
            if has_key(rest, other) {
                let j = choose|j: int| 0 <= j < rest.len() && (#[trigger] rest[j]).0 == other;
                assert(updates[j + 1].0 == other);
            }
        }
    }
}

/// What a merge brings: a key that the updates name has the value of the
/// last update that names it.
pub proof fn lemma_merged_brings(
    entries: Seq<(Seq<char>, JsonView)>,
    updates: Seq<(Seq<char>, JsonView)>,
    i: int,
)
    requires
        0 <= i < updates.len(),
        forall|j: int| i < j < updates.len() ==> (#[trigger] updates[j]).0 != updates[i].0,
    ensures
        lookup(merged(entries, updates), updates[i].0) == Some(updates[i].1),
    decreases updates.len(),
{
    let first = updates.first();
    let rest = updates.drop_first();
    let next = with_entry(entries, first.0, first.1);
    if i == 0 {
        lemma_with_entry(entries, first.0, first.1, first.0);
        if has_key(rest, first.0) {
            let j = choose|j: int| 0 <= j < rest.len() && (#[trigger] rest[j]).0 == first.0;
            assert(updates[j + 1].0 == first.0);
        }
        lemma_merged_keeps(next, rest, first.0);
    } else {
        assert forall|j: int| i - 1 < j < rest.len() implies (#[trigger] rest[j]).0 != rest[i - 1].0 by {
            assert(rest[j] == updates[j + 1]);
        }
        lemma_merged_brings(next, rest, i - 1);
    }
}

/// Puts `value` under `key`: over the first entry under that key where
/// there is one, at the end where there is none.
pub fn put_entry(entries: &mut Vec<(String, JsonValue)>, key: String, value: JsonValue)
    ensures
        members_view(final(entries)@) == with_entry(members_view(old(entries)@), key@, value@),
{
    proof {
        lemma_members_view(entries@);
    }
    match find_member(entries, key.as_str()) {
        Some(i) => {
            proof {
                lemma_first_index(members_view(entries@), key@, i as int);
            }
            entries.set(i, (key, value));
        },
        None => {
            entries.push((key, value));
        },
    }
    proof {
        lemma_members_view(entries@);
        assert(members_view(entries@) =~= with_entry(members_view(old(entries)@), key@, value@));
    }
}

/// Puts every entry of `updates` into `entries`, in their order.
pub fn merge_entries(entries: &mut Vec<(String, JsonValue)>, updates: &Vec<(String, JsonValue)>)
    ensures
        members_view(final(entries)@) == merged(
            members_view(old(entries)@),
            members_view(updates@),
        ),
{
    proof {
        lemma_members_view(updates@);
    }
    let ghost all = members_view(updates@);
    proof {
        assert(all.skip(0) =~= all);
    }
    let mut i: usize = 0;
    while i < updates.len()
        invariant
            i <= updates@.len(),
            all == members_view(updates@),
            all.len() == updates@.len(),
            forall|j: int|
                0 <= j < updates@.len() ==> (#[trigger] all[j]) == (updates@[j].0@, updates@[j].1@),
            merged(members_view(entries@), all.skip(i as int)) == merged(
                members_view(old(entries)@),
                all,
            ),
        decreases updates@.len() - i,
    {
        let ghost before = members_view(entries@);
        put_entry(entries, updates[i].0.clone(), updates[i].1.clone());
        proof {
            let rest = all.skip(i as int);
            assert(rest.first() == all[i as int]);
            assert(rest.drop_first() =~= all.skip(i + 1));
        }
        i += 1;
    }
}

impl XpakMetadata {
    /// Fresh metadata for an archive of `files_count` records with
    /// `total_size` bytes of content: written now, by this version, in the
    /// current format, with no description, no entries of the user and an
    /// empty file index.
    pub fn new(files_count: u32, total_size: u64) -> (r: XpakMetadata)
        ensures
            r@ == XpakMetadata::fresh_view(files_count, total_size, r@.created_at),
    {
        XpakMetadata::with_timestamp(files_count, total_size, current_timestamp())
    }

    /// What `new` and `with_timestamp` return for a time of writing.
    pub open spec fn fresh_view(files_count: u32, total_size: u64, created_at: Seq<char>) -> MetadataView {
        MetadataView {
            version: PACKAGE_VERSION@,
            format_version: FORMAT_VERSION@,
            created_at,
            files_count,
            total_size,
            description: None,
            common: Seq::empty(),
            files: Seq::empty(),
        }
    }

    /// Fresh metadata as `new` makes it, but for a given time of writing.
    pub fn with_timestamp(files_count: u32, total_size: u64, created_at: String) -> (r: XpakMetadata)
        ensures
            r@ == XpakMetadata::fresh_view(files_count, total_size, created_at@),
    {
        let r = XpakMetadata {
            version: PACKAGE_VERSION.to_owned(),
            format_version: FORMAT_VERSION.to_owned(),
            created_at,
            files_count,
            total_size,
            description: None,
            common: Vec::new(),
            files: Vec::new(),
        };
        proof {
            assert(members_view(r.common@) =~= Seq::empty());
            assert(infos_view(r.files@) =~= Seq::empty());
        }
        r
    }

    /// The JSON document that stands for the metadata.
    pub fn to_json(&self) -> (r: JsonValue)
        ensures
            r@ == json_of_metadata(self@),
    {
        let mut files: Vec<JsonValue> = Vec::new();
        let mut i: usize = 0;
        while i < self.files.len()
            invariant
                i <= self.files@.len(),
                files@.len() == i,
                forall|j: int| 0 <= j < i ==> (#[trigger] files@[j])@ == file_json(self.files@[j]@),
            decreases self.files@.len() - i,
        {
            files.push(self.files[i].to_json());
            i += 1;
        }
        let description = match &self.description {
            Some(d) => JsonValue::Text(d.clone()),
            None => JsonValue::Null,
        };
        let common = JsonValue::Object(clone_entries(&self.common));
        let files_doc = JsonValue::Array(files);
        proof {
            lemma_items_view(files@);
            assert(items_view(files@) =~= files_json(self@.files));
        }
        let members = vec![
            text_member("version", &self.version),
            text_member("format_version", &self.format_version),
            text_member("created_at", &self.created_at),
            number_member("files_count", self.files_count as u64),
            number_member("total_size", self.total_size),
            ("description".to_owned(), description),
            ("common".to_owned(), common),
            ("files".to_owned(), files_doc),
        ];
        let r = JsonValue::Object(members);
        proof {
            lemma_members_view(members@);
            assert(members_view(members@) =~= json_of_metadata(self@)->Object_0);
        }
        r
    }

    /// The metadata that a JSON document declares.
    pub fn from_json(doc: &JsonValue) -> (r: Result<XpakMetadata, MetadataError>)
        ensures
            match r {
                Ok(m) => metadata_of_json(doc@) == Ok::<MetadataView, MetadataError>(m@),
                Err(e) => metadata_of_json(doc@) == Err::<MetadataView, MetadataError>(e),
            },
    {
        let members = match doc {
            JsonValue::Object(members) => members,
            _ => {
                return Err(MetadataError::NotAnObject);
            },
        };
        let version = get_text(members, "version");
        let format_version = get_text(members, "format_version");
        let created_at = get_text(members, "created_at");
        let files_count = get_u64(members, "files_count");
        let total_size = get_u64(members, "total_size");
        let description = get_description(members);
        let common = get_common(members);
        let files = get_files(members);
        match (version, format_version, created_at, files_count, total_size, description, common, files) {
            (
                Some(version),
                Some(format_version),
                Some(created_at),
                Some(files_count),
                Some(total_size),
                Some(description),
                Some(common),
                Some(files),
            ) => {
                if files_count > u32::MAX as u64 {
                    return Err(MetadataError::InvalidField);
                }
                Ok(
                    XpakMetadata {
                        version,
                        format_version,
                        created_at,
                        files_count: files_count as u32,
                        total_size,
                        description,
                        common,
                        files,
                    },
                )
            },
            _ => Err(MetadataError::InvalidField),
        }
    }

    /// Puts the members of the JSON object that `user_meta` spells into the
    /// user's entries: a key that was there gets the new value, and every
    /// other entry stays. The metadata is left as it was where the text is
    /// not JSON, and where it is not an object.
    pub fn merge_user_metadata(&mut self, user_meta: &str) -> (r: Result<(), MetadataError>)
        ensures
            match r {
                Ok(_) => user_entries(user_meta@) is Ok && final(self)@ == (MetadataView {
                    common: merged(old(self)@.common, user_entries(user_meta@)->Ok_0),
                    ..old(self)@
                }),
                Err(e) => user_entries(user_meta@) == Err::<Seq<(Seq<char>, JsonView)>, MetadataError>(e)
                    && final(self)@ == old(self)@,
            },
    {
        let updates = parse_user_entries(user_meta.as_bytes())?;
        merge_entries(&mut self.common, &updates);
        Ok(())
    }
}

/// The members of the JSON object that a text spells: an error where the
/// text is not JSON, and where it is JSON but no object.
pub open spec fn entries_of_text(text: Seq<u8>) -> Result<Seq<(Seq<char>, JsonView)>, MetadataError> {
    match crate::json::json_parsed(text) {
        None => Err(MetadataError::InvalidJson),
        Some(JsonView::Object(members)) => Ok(members),
        Some(_) => Err(MetadataError::NotAnObject),
    }
}

/// The members of the JSON object that a string spells.
pub open spec fn user_entries(text: Seq<char>) -> Result<Seq<(Seq<char>, JsonView)>, MetadataError> {
    entries_of_text(vstd::utf8::encode_utf8(text))
}

/// Reads a text as a JSON object and hands out its members.
pub fn parse_user_entries(text: &[u8]) -> (r: Result<Vec<(String, JsonValue)>, MetadataError>)
    ensures
        match r {
            Ok(entries) => entries_of_text(text@) == Ok::<Seq<(Seq<char>, JsonView)>, MetadataError>(
                members_view(entries@),
            ),
            Err(e) => entries_of_text(text@) == Err::<Seq<(Seq<char>, JsonView)>, MetadataError>(e),
        },
{
    match crate::json::parse_json(text) {
        None => Err(MetadataError::InvalidJson),
        Some(JsonValue::Object(members)) => Ok(members),
        Some(_) => Err(MetadataError::NotAnObject),
    }
}

/// `base64::DecodeError`, handed through as it comes.
#[verifier::external_type_specification]
#[verifier::external_body]
pub struct ExBase64Error(base64::DecodeError);

/// The bytes that the standard base64 alphabet with padding spells in a
/// text, where the text is base64.
pub uninterp spec fn base64_decoded(text: Seq<u8>) -> Option<Seq<u8>>;

/// `decode` of base64's `STANDARD` engine: the bytes that the text spells,
/// or an error where the text is not base64 in the standard alphabet with
/// padding. What it returns depends on the text alone.
#[verifier::external_body]
fn base64_decode(text: &[u8]) -> (r: Result<Vec<u8>, base64::DecodeError>)
    ensures
        match r {
            Ok(raw) => base64_decoded(text@) == Some(raw@),
            Err(_) => base64_decoded(text@) is None,
        },
{
    base64::Engine::decode(&base64::engine::general_purpose::STANDARD, text)
}

/// Whether a byte is a letter or a digit of ASCII, `+`, `/` or `=`.
pub open spec fn is_base64_char(b: u8) -> bool {
    (0x30 <= b <= 0x39) || (0x41 <= b <= 0x5a) || (0x61 <= b <= 0x7a) || b == 0x2b || b == 0x2f
        || b == 0x3d
}

/// Whether a text looks like base64: its length in bytes is a multiple of
/// four, and every byte is a letter or a digit of ASCII, `+`, `/` or `=`.
pub open spec fn is_base64_shaped(text: Seq<u8>) -> bool {
    text.len() % 4 == 0 && forall|i: int| 0 <= i < text.len() ==> is_base64_char(#[trigger] text[i])
}

/// The entries that metadata handed in by the user declares. A text that
/// looks like base64 has to be base64 of a JSON object; any other text has
/// to be a JSON object itself.
pub open spec fn resolved_entries(text: Seq<u8>) -> Result<Seq<(Seq<char>, JsonView)>, MetadataError> {
    if is_base64_shaped(text) {
        match base64_decoded(text) {
            Some(raw) => match entries_of_text(raw) {
                Ok(entries) => Ok(entries),
                Err(_) => Err(MetadataError::NotAnObject),
            },
            None => Err(MetadataError::NotAnObject),
        }
    } else {
        entries_of_text(text)
    }
}

/// Whether `text` looks like base64.
pub fn looks_like_base64(text: &[u8]) -> (r: bool)
    ensures
        r == is_base64_shaped(text@),
{
    if text.len() % 4 != 0 {
        return false;
    }
    let mut i: usize = 0;
    while i < text.len()
        invariant
            i <= text@.len(),
            text@.len() % 4 == 0,
            forall|j: int| 0 <= j < i ==> is_base64_char(#[trigger] text@[j]),
        decreases text@.len() - i,
    {
        let b = text[i];
        let fine = (0x30 <= b && b <= 0x39) || (0x41 <= b && b <= 0x5a) || (0x61 <= b && b <= 0x7a)
            || b == 0x2b || b == 0x2f || b == 0x3d;
        if !fine {
            assert(!is_base64_char(text@[i as int]));
            return false;
        }
        i += 1;
    }
    true
}

/// Reads metadata handed in by the user: a JSON object, as it is or in
/// base64.
pub fn resolve_user_metadata(meta: &str) -> (r: Result<Vec<(String, JsonValue)>, MetadataError>)
    ensures
        match r {
            Ok(entries) => resolved_entries(vstd::utf8::encode_utf8(meta@)) == Ok::<
                Seq<(Seq<char>, JsonView)>,
                MetadataError,
            >(members_view(entries@)),
            Err(e) => resolved_entries(vstd::utf8::encode_utf8(meta@)) == Err::<
                Seq<(Seq<char>, JsonView)>,
                MetadataError,
            >(e),
        },
{
    let text = meta.as_bytes();
    if looks_like_base64(text) {
        match base64_decode(text) {
            Ok(raw) => match parse_user_entries(raw.as_slice()) {
                Ok(entries) => Ok(entries),
                Err(_) => Err(MetadataError::NotAnObject),
            },
            Err(_) => Err(MetadataError::NotAnObject),
        }
    } else {
        parse_user_entries(text)
    }
}

/// A copy of a list of entries.
pub fn clone_entries(entries: &Vec<(String, JsonValue)>) -> (r: Vec<(String, JsonValue)>)
    ensures
        members_view(r@) == members_view(entries@),
{
    let mut out: Vec<(String, JsonValue)> = Vec::new();
    let mut i: usize = 0;
    while i < entries.len()
        invariant
            i <= entries@.len(),
            out@.len() == i,
            forall|j: int|
                0 <= j < i ==> (#[trigger] out@[j]).0@ == entries@[j].0@ && out@[j].1@
                    == entries@[j].1@,
        decreases entries@.len() - i,
    {
        out.push((entries[i].0.clone(), entries[i].1.clone()));
        i += 1;
    }
    proof {
        lemma_members_view(out@);
        lemma_members_view(entries@);
        assert(members_view(out@) =~= members_view(entries@));
    }
    out
}

/// The description that the members declare.
fn get_description(members: &Vec<(String, JsonValue)>) -> (r: Option<Option<String>>)
    ensures
        match r {
            Some(Some(d)) => description_field(members_view(members@)) == Some(Some(d@)),
            Some(None) => description_field(members_view(members@)) == Some(None::<Seq<char>>),
            None => description_field(members_view(members@)) is None,
        },
{
    proof {
        lemma_members_view(members@);
    }
    match find_member(members, "description") {
        Some(i) => {
            proof {
                lemma_first_index(members_view(members@), "description"@, i as int);
            }
            match &members[i].1 {
                JsonValue::Null => Some(None),
                JsonValue::Text(s) => Some(Some(s.clone())),
                _ => None,
            }
        },
        None => Some(None),
    }
}

/// The user's entries that the members declare.
fn get_common(members: &Vec<(String, JsonValue)>) -> (r: Option<Vec<(String, JsonValue)>>)
    ensures
        match r {
            Some(entries) => common_field(members_view(members@)) == Some(members_view(entries@)),
            None => common_field(members_view(members@)) is None,
        },
{
    proof {
        lemma_members_view(members@);
    }
    match find_member(members, "common") {
        Some(i) => {
            proof {
                lemma_first_index(members_view(members@), "common"@, i as int);
            }
            match &members[i].1 {
                JsonValue::Object(entries) => Some(clone_entries(entries)),
                _ => None,
            }
        },
        None => {
            let entries: Vec<(String, JsonValue)> = Vec::new();
            proof {
                assert(members_view(entries@) =~= Seq::empty());
            }
            Some(entries)
        },
    }
}

/// The file index that the members declare.
fn get_files(members: &Vec<(String, JsonValue)>) -> (r: Option<Vec<FileInfo>>)
    ensures
        match r {
            Some(files) => files_field(members_view(members@)) == Some(infos_view(files@)),
            None => files_field(members_view(members@)) is None,
        },
{
    proof {
        lemma_members_view(members@);
    }
    let items = match find_member(members, "files") {
        Some(i) => {
            proof {
                lemma_first_index(members_view(members@), "files"@, i as int);
            }
            match &members[i].1 {
                JsonValue::Array(items) => items,
                _ => {
                    return None;
                },
            }
        },
        None => {
            return None;
        },
    };
    proof {
        lemma_items_view(items@);
    }
    let ghost views = items_view(items@);
    let ghost declared = files_field(members_view(members@));
    assert(declared == files_of_json(views));
    let mut files: Vec<FileInfo> = Vec::new();
    let mut i: usize = 0;
    while i < items.len()
        invariant
            i <= items@.len(),
            files@.len() == i,
            views == items_view(items@),
            views.len() == items@.len(),
            forall|j: int| 0 <= j < items@.len() ==> (#[trigger] views[j]) == items@[j]@,
            forall|j: int| 0 <= j < i ==> file_of_json(views[j]) == Some((#[trigger] files@[j])@),
            declared == files_of_json(views),
            declared == files_field(members_view(members@)),
        decreases items@.len() - i,
    {
        match FileInfo::from_json(&items[i]) {
            Some(f) => {
                files.push(f);
            },
            None => {
                assert(file_of_json(views[i as int]) is None);
                return None;
            },
        }
        i += 1;
    }
    proof {
        assert forall|j: int| 0 <= j < views.len() implies (#[trigger] file_of_json(views[j])) is Some by {
            assert(file_of_json(views[j]) == Some(files@[j]@));
        }
        assert(infos_view(files@) =~= files_of_json(views)->Some_0);
    }
    Some(files)
}

/// An entry of the file index that was written as JSON is read again as it
/// was.
pub proof fn lemma_file_json_roundtrip(f: FileInfoView)
    ensures
        file_of_json(file_json(f)) == Some(f),
{
    reveal_strlit("path");
    reveal_strlit("size");
    let members = file_json(f)->Object_0;
    assert("path"@ != "size"@) by {
        assert("path"@[0] != "size"@[0]);
    }
    lemma_first_index(members, "path"@, 0);
    lemma_first_index(members, "size"@, 1);
}

/// The JSON document of metadata has no key twice in any object, where the
/// user's entries have none: `serde_json` then holds and writes the
/// document as it is.
pub proof fn lemma_metadata_json_is_canonical(m: MetadataView)
    requires
        is_canonical(JsonView::Object(m.common)),
    ensures
        is_canonical(json_of_metadata(m)),
{
    reveal_strlit("version");
    reveal_strlit("format_version");
    reveal_strlit("created_at");
    reveal_strlit("files_count");
    reveal_strlit("total_size");
    reveal_strlit("description");
    reveal_strlit("common");
    reveal_strlit("files");
    reveal_strlit("path");
    reveal_strlit("size");
    let members = json_of_metadata(m)->Object_0;
    assert("created_at"@[0] != "total_size"@[0]);
    assert("files_count"@[0] != "description"@[0]);
    assert("path"@[0] != "size"@[0]);
    assert("version"@.len() == 7 && "format_version"@.len() == 14 && "created_at"@.len() == 10
        && "files_count"@.len() == 11 && "total_size"@.len() == 10 && "description"@.len() == 11
        && "common"@.len() == 6 && "files"@.len() == 5);
    assert(members.len() == 8);
    assert(members[0].0 == "version"@ && members[1].0 == "format_version"@ && members[2].0
        == "created_at"@ && members[3].0 == "files_count"@ && members[4].0 == "total_size"@
        && members[5].0 == "description"@ && members[6].0 == "common"@ && members[7].0
        == "files"@);
    assert(has_distinct_keys(members));
    let items = files_json(m.files);
    assert forall|i: int| 0 <= i < items.len() implies is_canonical(#[trigger] items[i]) by {
        let pair = items[i]->Object_0;
        assert(pair.len() == 2);
        assert(pair[0].0 == "path"@ && pair[1].0 == "size"@);
        assert(has_distinct_keys(pair));
        assert(is_canonical(pair[0].1) && is_canonical(pair[1].1));
    }
    assert(is_canonical(members[7].1));
    assert(is_canonical(members[5].1));
    assert forall|i: int| 0 <= i < members.len() implies is_canonical((#[trigger] members[i]).1) by {
    }
}

/// Metadata that was written as JSON is read again as it was.
pub proof fn lemma_metadata_json_roundtrip(m: MetadataView)
    ensures
        metadata_of_json(json_of_metadata(m)) == Ok::<MetadataView, MetadataError>(m),
{
    reveal_strlit("version");
    reveal_strlit("format_version");
    reveal_strlit("created_at");
    reveal_strlit("files_count");
    reveal_strlit("total_size");
    reveal_strlit("description");
    reveal_strlit("common");
    reveal_strlit("files");
    let members = json_of_metadata(m)->Object_0;
    assert("created_at"@[0] != "total_size"@[0]);
    assert("files_count"@[0] != "description"@[0]);
    assert("version"@.len() == 7 && "format_version"@.len() == 14 && "created_at"@.len() == 10
        && "files_count"@.len() == 11 && "total_size"@.len() == 10 && "description"@.len() == 11
        && "common"@.len() == 6 && "files"@.len() == 5);
    assert(members.len() == 8);
    assert(members[0].0 == "version"@ && members[1].0 == "format_version"@ && members[2].0
        == "created_at"@ && members[3].0 == "files_count"@ && members[4].0 == "total_size"@
        && members[5].0 == "description"@ && members[6].0 == "common"@ && members[7].0
        == "files"@);
    lemma_first_index(members, "version"@, 0);
    lemma_first_index(members, "format_version"@, 1);
    lemma_first_index(members, "created_at"@, 2);
    lemma_first_index(members, "files_count"@, 3);
    lemma_first_index(members, "total_size"@, 4);
    lemma_first_index(members, "description"@, 5);
    lemma_first_index(members, "common"@, 6);
    lemma_first_index(members, "files"@, 7);
    let items = files_json(m.files);
    assert forall|i: int| 0 <= i < items.len() implies (#[trigger] file_of_json(items[i])) == Some(
        m.files[i],
    ) by {
        lemma_file_json_roundtrip(m.files[i]);
    }
    assert(files_of_json(items)->Some_0 =~= m.files);
    let back = metadata_of_members(members)->Some_0;
    assert(back.files == m.files);
    assert(back.description == m.description);
}

} // verus!
