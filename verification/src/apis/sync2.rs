//! The server side of syncing: what the server does with each file a client
//! sends, and which files and history it sends back.
use vstd::prelude::*;
use crate::error::Error;
use crate::strmap::StrMap;
use crate::text::{
    chars_of, string_of, push_all, chars_rsplit_once, chars_strip_prefix, chars_eq,
    chars_trim_start_matches, chars_trim_end_matches, parse_i32_of, rsplit_once, strip_prefix,
    parse_i32, trim_char, trim_start_matches,
};
use crate::document::string_views;

verus! {

/// A change that a client sends.
#[derive(Debug, Clone)]
pub enum SyncRequestFile {
    Add { path: String, content: Vec<u8> },
    Update { path: String, content: Vec<u8>, version: i32 },
    Delete { path: String, version: i32 },
}

/// What a client sends to sync.
#[derive(Debug)]
pub struct SyncRequest {
    pub package_name: String,
    pub files: Vec<SyncRequestFile>,
    pub history: String,
}

/// What the server answers.
#[derive(Debug)]
pub struct SyncResponse {
    pub files: Vec<SyncResponseFile>,
    pub dot_history: Vec<File>,
    pub latest_ftd: String,
}

/// How a file's change fared.
#[derive(Debug, Clone, Copy, PartialEq, Eq, Structural)]
pub enum SyncStatus {
    Conflict,
    NoConflict,
    ClientEditedServerDeleted,
    ClientDeletedServerEdited,
}

/// A file the server sends back.
#[derive(Debug)]
pub enum SyncResponseFile {
    Add { path: String, status: SyncStatus, content: Vec<u8> },
    Update { path: String, status: SyncStatus, content: Vec<u8> },
    Delete { path: String, status: SyncStatus, content: Vec<u8> },
}

/// A file of the history folder.
#[derive(Debug)]
pub struct File {
    pub path: String,
    pub content: Vec<u8>,
}

/// The latest edit of a file, as the history records it.
#[derive(Debug, Clone, Copy, PartialEq, Eq, Structural)]
pub struct FileEdit {
    pub version: i32,
}

/// What an edit did to a file.
#[derive(Debug, Clone, Copy, PartialEq, Eq, Structural)]
pub enum FileOperation {
    Added,
    Updated,
    Deleted,
}

impl SyncResponseFile {
    pub open spec fn status_spec(&self) -> SyncStatus {
        match self {
            SyncResponseFile::Add { status, .. } => *status,
            SyncResponseFile::Update { status, .. } => *status,
            SyncResponseFile::Delete { status, .. } => *status,
        }
    }

    pub open spec fn path_spec(&self) -> Seq<char> {
        match self {
            SyncResponseFile::Add { path, .. } => path@,
            SyncResponseFile::Update { path, .. } => path@,
            SyncResponseFile::Delete { path, .. } => path@,
        }
    }

    /// Whether the file came back with any status but `NoConflict`.
    pub fn is_conflicted(&self) -> (r: bool)
        ensures
            r == (self.status_spec() != SyncStatus::NoConflict),
    {
        let status = match self {
            SyncResponseFile::Add { status, .. } => status,
            SyncResponseFile::Update { status, .. } => status,
            SyncResponseFile::Delete { status, .. } => status,
        };
        if SyncStatus::NoConflict == *status {
            return false;
        }
        true
    }

    pub fn is_deleted(&self) -> (r: bool)
        ensures
            r == (self is Delete),
    {
        matches!(self, SyncResponseFile::Delete { .. })
    }

    pub fn path(&self) -> (r: String)
        ensures
            r@ == self.path_spec(),
    {
        match self {
            SyncResponseFile::Add { path, .. } => path.clone(),
            SyncResponseFile::Update { path, .. } => path.clone(),
            SyncResponseFile::Delete { path, .. } => path.clone(),
        }
    }
}

/// What the server does with one file of a request.
#[derive(Debug)]
pub enum RequestPlan {
    /// Write `content` to `path` under the package root, then record the edit.
    Write { path: String, content: Vec<u8>, operation: FileOperation },
    /// Both sides edited the file: merge `ours` with the server's version
    /// `theirs_version`, taking version `ancestor_version` as the common ancestor.
    Merge { path: String, ancestor_version: i32, theirs_version: i32, ours: Vec<u8> },
    /// Send this file back and leave the server as it is.
    Respond(SyncResponseFile),
    /// The client deleted a file the server has: read the server's latest
    /// content of it, then decide with [`delete_outcome`].
    CheckDelete { path: String, client_version: i32, server_version: i32 },
    /// Nothing to do: the server no longer has the file.
    Skip,
}

/// What the server does with `file`, given the latest edits it knows of.
pub open spec fn plan_spec(file: SyncRequestFile, server_latest: Map<Seq<char>, FileEdit>, p: RequestPlan) -> bool {
    match file {
        SyncRequestFile::Add { path, content } => p == RequestPlan::Write {
            path,
            content,
            operation: FileOperation::Added,
        },
        SyncRequestFile::Update { path, content, version } => if server_latest.contains_key(path@) {
            if server_latest[path@].version == version {
                p == RequestPlan::Write { path, content, operation: FileOperation::Updated }
            } else {
                p == RequestPlan::Merge {
                    path,
                    ancestor_version: version,
                    theirs_version: server_latest[path@].version,
                    ours: content,
                }
            }
        } else {
            p == RequestPlan::Respond(
                SyncResponseFile::Update {
                    path,
                    status: SyncStatus::ClientEditedServerDeleted,
                    content,
                },
            )
        },
        SyncRequestFile::Delete { path, version } => if server_latest.contains_key(path@) {
            p == RequestPlan::CheckDelete {
                path,
                client_version: version,
                server_version: server_latest[path@].version,
            }
        } else {
            p == RequestPlan::Skip
        },
    }
}

/// Decides what the server does with one file of a request.
pub fn plan_request_file(file: SyncRequestFile, server_latest: &StrMap<FileEdit>) -> (p: RequestPlan)
    requires
        server_latest.wf(),
    ensures
        plan_spec(file, server_latest@, p),
{
    match file {
        SyncRequestFile::Add { path, content } => RequestPlan::Write {
            path,
            content,
            operation: FileOperation::Added,
        },
        SyncRequestFile::Update { path, content, version } => {
            match server_latest.get(path.as_str()) {
                Some(file_edit) => {
                    if file_edit.version == version {
                        RequestPlan::Write { path, content, operation: FileOperation::Updated }
                    } else {
                        RequestPlan::Merge {
                            path,
                            ancestor_version: version,
                            theirs_version: file_edit.version,
                            ours: content,
                        }
                    }
                },
                None => RequestPlan::Respond(
                    SyncResponseFile::Update {
                        path,
                        status: SyncStatus::ClientEditedServerDeleted,
                        content,
                    },
                ),
            }
        },
        SyncRequestFile::Delete { path, version } => {
            match server_latest.get(path.as_str()) {
                Some(file_edit) => RequestPlan::CheckDelete {
                    path,
                    client_version: version,
                    server_version: file_edit.version,
                },
                None => RequestPlan::Skip,
            }
        },
    }
}

/// How the server treats each kind of change: an added file is written
/// with the content sent; an edit of the version the server holds is
/// written over it; an edit of an older version is merged, taking the
/// client's version as the ancestor and the server's latest as theirs; an
/// edit of a file the server no longer has is sent back untouched as a
/// conflict; a deletion is checked against the server's latest version, or
/// skipped when the server no longer has the file. No change of a file the
/// server lacks is ever merged or checked.
pub proof fn lemma_plan_request(file: SyncRequestFile, server_latest: Map<Seq<char>, FileEdit>, p: RequestPlan)
    requires
        plan_spec(file, server_latest, p),
    ensures
        file is Add ==> (p is Write && p->Write_operation == FileOperation::Added && p->Write_content
            == file->Add_content && p->Write_path == file->Add_path),
        file is Update && server_latest.contains_key(file->Update_path@) && server_latest[file->Update_path@].version
            == file->Update_version ==> (p is Write && p->Write_operation == FileOperation::Updated
            && p->Write_content == file->Update_content && p->Write_path == file->Update_path),
        file is Update && server_latest.contains_key(file->Update_path@) && server_latest[file->Update_path@].version
            != file->Update_version ==> (p is Merge && p->Merge_ancestor_version == file->Update_version
            && p->theirs_version == server_latest[file->Update_path@].version && p->ours == file->Update_content
            && p->Merge_path == file->Update_path),
        file is Update && !server_latest.contains_key(file->Update_path@) ==> p == RequestPlan::Respond(
            SyncResponseFile::Update {
                path: file->Update_path,
                status: SyncStatus::ClientEditedServerDeleted,
                content: file->Update_content,
            },
        ),
        file is Delete && server_latest.contains_key(file->Delete_path@) ==> (p is CheckDelete
            && p->client_version == file->Delete_version && p->server_version
            == server_latest[file->Delete_path@].version && p->CheckDelete_path == file->Delete_path),
        file is Delete && !server_latest.contains_key(file->Delete_path@) ==> p is Skip,
        p is Merge || p is CheckDelete ==> !(file is Add),
{
}

/// What becomes of a file the client deleted and the server still has.
#[derive(Debug)]
pub enum DeleteOutcome {
    /// The server edited it since: send the server's content back.
    Conflict(SyncResponseFile),
    /// Remove it from the server and record the deletion.
    Remove,
}

/// A deletion conflicts when the server's version is newer than the one the
/// client deleted.
pub fn delete_outcome(path: String, client_version: i32, server_version: i32, server_content: Vec<u8>) -> (r: DeleteOutcome)
    ensures
        server_version > client_version ==> r == DeleteOutcome::Conflict(
            SyncResponseFile::Update {
                path,
                status: SyncStatus::ClientDeletedServerEdited,
                content: server_content,
            },
        ),
        server_version <= client_version ==> r == DeleteOutcome::Remove,
{
    if server_version > client_version {
        DeleteOutcome::Conflict(
            SyncResponseFile::Update {
                path,
                status: SyncStatus::ClientDeletedServerEdited,
                content: server_content,
            },
        )
    } else {
        DeleteOutcome::Remove
    }
}

/// What `diffy` makes of a three-way merge (with the `Merge` conflict
/// style): `Ok` with the merged text, or `Err` with the text holding
/// conflict markers.
pub uninterp spec fn diffy_merge(ancestor: Seq<char>, ours: Seq<char>, theirs: Seq<char>) -> Result<Seq<char>, Seq<char>>;

/// `diffy::MergeOptions::merge` with the `Merge` conflict style; the
/// contract names its result `diffy_merge` of the three texts.
#[verifier::external_body]
fn merge_texts(ancestor: &str, ours: &str, theirs: &str) -> (r: Result<String, String>)
    ensures
        match r {
            Ok(s) => diffy_merge(ancestor@, ours@, theirs@) == Ok::<Seq<char>, Seq<char>>(s@),
            Err(s) => diffy_merge(ancestor@, ours@, theirs@) == Err::<Seq<char>, Seq<char>>(s@),
        },
{
    diffy::MergeOptions::new().set_conflict_style(diffy::ConflictStyle::Merge).merge(
        ancestor,
        ours,
        theirs,
    )
}

/// The text of the error `String::from_utf8` reports for `bytes`.
pub uninterp spec fn utf8_error_text(bytes: Seq<u8>) -> Seq<char>;

/// `String::from_utf8`, with the error turned into its text: `Ok` exactly
/// when the bytes are valid UTF-8, holding the characters they encode.
#[verifier::external_body]
fn string_from_utf8(bytes: &[u8]) -> (r: Result<String, String>)
    ensures
        match r {
            Ok(s) => vstd::utf8::valid_utf8(bytes@) && s@ == vstd::utf8::decode_utf8(bytes@),
            Err(e) => !vstd::utf8::valid_utf8(bytes@) && e@ == utf8_error_text(bytes@),
        },
{
    match String::from_utf8(bytes.to_vec()) {
        Ok(s) => Ok(s),
        Err(e) => Err(e.to_string()),
    }
}

/// The UTF-8 bytes of `s`.
fn bytes_of(s: &str) -> (r: Vec<u8>)
    ensures
        r@ == vstd::utf8::encode_utf8(s@),
{
    vstd::slice::slice_to_vec(s.as_bytes())
}

/// The result of merging a file both sides edited.
#[derive(Debug)]
pub enum MergeOutcome {
    /// The merge succeeded: write `data` to the file, record the update and
    /// send `response` back.
    Merged { data: String, response: SyncResponseFile },
    /// The merge has conflicts: send `response`, holding the text with
    /// conflict markers, back and leave the server as it is.
    Conflict { response: SyncResponseFile },
}

/// The outcome of merging: an error when `ours` is not UTF-8; otherwise
/// `diffy`'s merge decides between a merged text and one with conflicts,
/// which goes back to the client as an update of `path`.
pub open spec fn merge_spec(
    path: String,
    ancestor: Seq<char>,
    ours: Seq<u8>,
    theirs: Seq<char>,
    r: Result<MergeOutcome, Error>,
) -> bool {
    if !vstd::utf8::valid_utf8(ours) {
        match r {
            Err(Error::APIResponseError(m)) => m@ == utf8_error_text(ours),
            _ => false,
        }
    } else {
        match diffy_merge(ancestor, vstd::utf8::decode_utf8(ours), theirs) {
            Ok(data) => match r {
                Ok(
                    MergeOutcome::Merged {
                        data: d,
                        response: SyncResponseFile::Update { path: p, status, content },
                    },
                ) => d@ == data && p == path && status == SyncStatus::NoConflict && content@
                    == vstd::utf8::encode_utf8(data),
                _ => false,
            },
            Err(data) => match r {
                Ok(
                    MergeOutcome::Conflict {
                        response: SyncResponseFile::Update { path: p, status, content },
                    },
                ) => p == path && status == SyncStatus::Conflict && content@
                    == vstd::utf8::encode_utf8(data),
                _ => false,
            },
        }
    }
}

/// Merges the client's content `ours` of `path` with the server's `theirs`,
/// given their common `ancestor`. Fails when `ours` is not UTF-8.
pub fn merge_outcome(path: String, ancestor: &str, ours: &[u8], theirs: &str) -> (r: Result<MergeOutcome, Error>)
    ensures
        merge_spec(path, ancestor@, ours@, theirs@, r),
{
    let ours_text = match string_from_utf8(ours) {
        Ok(s) => s,
        Err(e) => {
            return Err(Error::APIResponseError(e));
        },
    };
    match merge_texts(ancestor, ours_text.as_str(), theirs) {
        Ok(data) => {
            let content = bytes_of(data.as_str());
            Ok(
                MergeOutcome::Merged {
                    data,
                    response: SyncResponseFile::Update { path, status: SyncStatus::NoConflict, content },
                },
            )
        },
        Err(data) => {
            let content = bytes_of(data.as_str());
            Ok(
                MergeOutcome::Conflict {
                    response: SyncResponseFile::Update { path, status: SyncStatus::Conflict, content },
                },
            )
        },
    }
}

/// The edits and answers the server has gathered while going through a
/// request.
#[derive(Debug)]
pub struct SyncWork {
    /// The edits to record in the history, by path.
    pub file_list: StrMap<FileOperation>,
    /// The files to send back, by path.
    pub synced_files: StrMap<SyncResponseFile>,
}

/// Every answer is kept under its own path.
pub open spec fn answers_keyed(answers: Map<Seq<char>, SyncResponseFile>) -> bool {
    forall|k: Seq<char>| #[trigger] answers.contains_key(k) ==> answers[k].path_spec() == k
}

impl SyncWork {
    pub open spec fn wf(&self) -> bool {
        &&& self.file_list.wf()
        &&& self.synced_files.wf()
        &&& answers_keyed(self.synced_files@)
    }

    pub fn new() -> (w: Self)
        ensures
            w.wf(),
            w.file_list@ == Map::<Seq<char>, FileOperation>::empty(),
            w.synced_files@ == Map::<Seq<char>, SyncResponseFile>::empty(),
    {
        SyncWork { file_list: StrMap::new(), synced_files: StrMap::new() }
    }

    /// Records that `path` was edited by `operation`.
    pub fn record_edit(&mut self, path: String, operation: FileOperation)
        requires
            old(self).wf(),
        ensures
            final(self).wf(),
            final(self).file_list@ == old(self).file_list@.insert(path@, operation),
            final(self).synced_files@ == old(self).synced_files@,
    {
        self.file_list.insert(path, operation);
    }

    /// Records `file` as the answer for its path.
    pub fn respond(&mut self, file: SyncResponseFile)
        requires
            old(self).wf(),
        ensures
            final(self).wf(),
            final(self).synced_files@ == old(self).synced_files@.insert(file.path_spec(), file),
            final(self).file_list@ == old(self).file_list@,
    {
        let path = file.path();
        let ghost f = file;
        self.synced_files.insert(path, file);
        assert(self.synced_files@[f.path_spec()] == f);
    }
}

/// The paths of the first `n` server entries that the client lacks or has
/// an older version of, in server order.
pub open spec fn diff_upto(
    keys: Seq<Seq<char>>,
    values: Seq<FileEdit>,
    client: Map<Seq<char>, FileEdit>,
    n: int,
) -> Seq<Seq<char>>
    decreases n,
{
    if n <= 0 {
        Seq::empty()
    } else {
        let prev = diff_upto(keys, values, client, n - 1);
        let k = keys[n - 1];
        if !client.contains_key(k) || client[k].version < values[n - 1].version {
            prev.push(k)
        } else {
            prev
        }
    }
}

/// The files the client is behind on: every path of the server's latest
/// edits that the client's latest edits lack, or hold at a lower version.
pub open spec fn snapshot_diff_spec(server_latest: StrMap<FileEdit>, client_latest: StrMap<FileEdit>) -> Seq<Seq<char>> {
    diff_upto(server_latest.keys(), server_latest.values(), client_latest@, server_latest.keys().len() as int)
}

pub fn snapshot_diff(server_latest: &StrMap<FileEdit>, client_latest: &StrMap<FileEdit>) -> (r: Vec<String>)
    requires
        server_latest.wf(),
        client_latest.wf(),
    ensures
        string_views(r@) == snapshot_diff_spec(*server_latest, *client_latest),
{
    proof {
        server_latest.lemma_wf();
    }
    let mut diff: Vec<String> = Vec::new();
    let mut i: usize = 0;
    assert(string_views(diff@) =~= Seq::<Seq<char>>::empty());
    while i < server_latest.len()
        invariant
            i <= server_latest.keys().len(),
            server_latest.keys().len() == server_latest.values().len(),
            client_latest.wf(),
            string_views(diff@) == diff_upto(
                server_latest.keys(),
                server_latest.values(),
                client_latest@,
                i as int,
            ),
        decreases server_latest.keys().len() - i,
    {
        let snapshot_path = server_latest.key_at(i);
        let file_edit = server_latest.value_at(i);
        let ghost before = diff@;
        match client_latest.get(snapshot_path.as_str()) {
            Some(client_file_edit) => {
                if client_file_edit.version < file_edit.version {
                    diff.push(snapshot_path.clone());
                }
            },
            None => {
                diff.push(snapshot_path.clone());
            },
        }
        assert(string_views(diff@) =~= diff_upto(
            server_latest.keys(),
            server_latest.values(),
            client_latest@,
            i + 1,
        )) by {
            if diff@.len() > before.len() {
                assert(string_views(diff@) =~= string_views(before).push(snapshot_path@));
            } else {
                assert(diff@ =~= before);
            }
        }
        i = i + 1;
    }
    diff
}

/// The part of a path that names its versions in the history: everything
/// up to and including its last `.` (or the whole path and a `.`).
pub open spec fn version_prefix(path: Seq<char>) -> Seq<char> {
    match rsplit_once(path, seq!['.']) {
        Some((stem, _)) => stem + seq!['.'],
        None => path + seq!['.'],
    }
}

/// The extension of a path: what follows its last `.`, if any.
pub open spec fn extension(path: Seq<char>) -> Option<Seq<char>> {
    match rsplit_once(path, seq!['.']) {
        Some((_, ext)) => Some(ext),
        None => None,
    }
}

/// The version text and extension of what follows the prefix in a history
/// entry.
pub open spec fn version_parts(rest: Seq<char>) -> (Seq<char>, Option<Seq<char>>) {
    match rsplit_once(rest, seq!['.']) {
        Some((v, e)) => (v, Some(e)),
        None => (rest, None),
    }
}

/// Every history entry of `path` carries a version that reads as an `i32`.
pub open spec fn versions_readable(path: Seq<char>, history: Seq<Seq<char>>) -> bool {
    forall|i: int| 0 <= i < history.len() ==> (#[trigger] strip_prefix(history[i], version_prefix(path)) matches Some(rest)
        ==> parse_i32(version_parts(rest).0) is Some)
}

/// The version recorded by history entry `h` of `path`, when `h` is one.
pub open spec fn version_entry(path: Seq<char>, h: Seq<char>) -> Option<(i32, Seq<char>)> {
    match strip_prefix(h, version_prefix(path)) {
        Some(rest) => if version_parts(rest).1 == extension(path) {
            Some((parse_i32(version_parts(rest).0).unwrap(), version_prefix(path) + rest))
        } else {
            None
        },
        None => None,
    }
}

/// The versions of `path` found among the first `n` history entries, in
/// history order.
pub open spec fn versions_upto(path: Seq<char>, history: Seq<Seq<char>>, n: int) -> Seq<(i32, Seq<char>)>
    decreases n,
{
    if n <= 0 {
        Seq::empty()
    } else {
        let prev = versions_upto(path, history, n - 1);
        match version_entry(path, history[n - 1]) {
            Some(e) => prev.push(e),
            None => prev,
        }
    }
}

/// The contents of each (version, path) pair.
pub open spec fn version_views(v: Seq<(i32, String)>) -> Seq<(i32, Seq<char>)> {
    Seq::new(v.len(), |i: int| (v[i].0, v[i].1@))
}

/// The versions of `path` recorded in the history: each entry that is
/// `path`'s version prefix, a version number and `path`'s extension.
pub fn get_all_versions(path: &str, history: &[String]) -> (r: Result<Vec<(i32, String)>, Error>)
    requires
        versions_readable(path@, string_views(history@)),
    ensures
        r matches Ok(v) && version_views(v@) == versions_upto(path@, string_views(history@), history@.len() as int),
{
    let pc = chars_of(path);
    let dot = vec!['.'];
    assert(dot@ =~= seq!['.']);
    let (path_prefix, ext) = match chars_rsplit_once(pc.as_slice(), dot.as_slice()) {
        Some((stem, e)) => {
            let mut p = stem;
            p.push('.');
            (p, Some(e))
        },
        None => {
            let mut p = chars_of(path);
            p.push('.');
            (p, None)
        },
    };
    assert(path_prefix@ =~= version_prefix(path@));
    let mut versions: Vec<(i32, String)> = Vec::new();
    let mut i: usize = 0;
    assert(version_views(versions@) =~= Seq::<(i32, Seq<char>)>::empty());
    while i < history.len()
        invariant
            i <= history@.len(),
            dot@ == seq!['.'],
            path_prefix@ == version_prefix(path@),
            match ext {
                Some(e) => extension(path@) == Some(e@),
                None => extension(path@) is None,
            },
            versions_readable(path@, string_views(history@)),
            version_views(versions@) == versions_upto(path@, string_views(history@), i as int),
        decreases history@.len() - i,
    {
        let h = chars_of(history[i].as_str());
        let ghost before = versions@;
        assert(string_views(history@)[i as int] == h@);
        match chars_strip_prefix(h.as_slice(), path_prefix.as_slice()) {
            Some(rest) => {
                assert(strip_prefix(string_views(history@)[i as int], version_prefix(path@)) == Some(rest@));
                let (version_text, extension_part) = match chars_rsplit_once(rest.as_slice(), dot.as_slice()) {
                    Some((v, e)) => (v, Some(e)),
                    None => (chars_slice_all(rest.as_slice()), None),
                };
                assert(version_text@ == version_parts(rest@).0);
                let version = match parse_i32_of(version_text.as_slice()) {
                    Some(v) => v,
                    None => vstd::pervasive::unreached(),
                };
                let same = match (&ext, &extension_part) {
                    (Some(a), Some(b)) => chars_eq(a.as_slice(), b.as_slice()),
                    (None, None) => true,
                    _ => false,
                };
                assert(same == (version_parts(rest@).1 == extension(path@)));
                if same {
                    let mut full = chars_slice_all(path_prefix.as_slice());
                    push_all(&mut full, rest.as_slice());
                    versions.push((version, string_of(full.as_slice())));
                    assert(version_views(versions@) =~= version_views(before).push(
                        (version, version_prefix(path@) + rest@),
                    ));
                } else {
                    assert(versions@ =~= before);
                }
            },
            None => {
                assert(versions@ =~= before);
            },
        }
        i = i + 1;
    }
    Ok(versions)
}

/// A copy of all of `v`.
fn chars_slice_all(v: &[char]) -> (r: Vec<char>)
    ensures
        r@ == v@,
{
    let r = crate::text::chars_slice(v, 0, v.len());
    assert(r@ =~= v@);
    r
}

/// The name of a history file relative to the history folder: its full
/// path with the folder's path taken off the front and slashes trimmed from
/// both ends.
pub fn history_entry_name(full: &str, dir: &str) -> (r: String)
    ensures
        r@ == trim_char(trim_start_matches(full@, dir@), '/'),
{
    let f = chars_of(full);
    let d = chars_of(dir);
    let rest = if d.len() > 0 {
        chars_trim_start_matches(f.as_slice(), d.as_slice())
    } else {
        chars_slice_all(f.as_slice())
    };
    let slash = vec!['/'];
    assert(slash@ =~= seq!['/']);
    let a = chars_trim_start_matches(rest.as_slice(), slash.as_slice());
    let b = chars_trim_end_matches(a.as_slice(), slash.as_slice());
    string_of(b.as_slice())
}

/// The history entries to send for the first `n` diff paths: the versions
/// of each that are newer than the client's, all of them when the client
/// has none.
pub open spec fn history_to_send_upto(
    diff: Seq<Seq<char>>,
    client: Map<Seq<char>, FileEdit>,
    history: Seq<Seq<char>>,
    n: int,
) -> Seq<Seq<char>>
    decreases n,
{
    if n <= 0 {
        Seq::empty()
    } else {
        let p = diff[n - 1];
        let vs = versions_upto(p, history, history.len() as int);
        let kept = vs.filter(|e: (i32, Seq<char>)| !client.contains_key(p) || e.0 > client[p].version);
        history_to_send_upto(diff, client, history, n - 1) + Seq::new(kept.len(), |i: int| kept[i].1)
    }
}

/// Which history files the client is sent: for each file it is behind on,
/// the server's versions of it that are newer than the client's.
pub open spec fn history_to_send(
    server_latest: StrMap<FileEdit>,
    client_latest: StrMap<FileEdit>,
    history: Seq<Seq<char>>,
) -> Seq<Seq<char>> {
    let diff = snapshot_diff_spec(server_latest, client_latest);
    history_to_send_upto(diff, client_latest@, history, diff.len() as int)
}

/// Every history version of a file the client is behind on is sent: all
/// of them when the client lacks the file, and otherwise each one newer
/// than the client's copy.
pub proof fn lemma_history_sent_for_behind_files(
    server_latest: StrMap<FileEdit>,
    client_latest: StrMap<FileEdit>,
    history: Seq<Seq<char>>,
    p: Seq<char>,
    e: (i32, Seq<char>),
)
    requires
        server_latest.wf(),
        server_latest@.contains_key(p),
        !client_latest@.contains_key(p) || client_latest@[p].version < server_latest@[p].version,
        versions_upto(p, history, history.len() as int).contains(e),
        !client_latest@.contains_key(p) || e.0 > client_latest@[p].version,
    ensures
        history_to_send(server_latest, client_latest, history).contains(e.1),
{
    lemma_snapshot_diff_members(server_latest, client_latest, p);
    let diff = snapshot_diff_spec(server_latest, client_latest);
    let k = choose|k: int| 0 <= k < diff.len() && diff[k] == p;
    lemma_history_upto_has(diff, client_latest@, history, diff.len() as int, k, e);
}

/// Only history versions of files the client is behind on are sent, and
/// of a file the client has, only versions newer than the client's copy.
pub proof fn lemma_history_sent_only_newer(
    server_latest: StrMap<FileEdit>,
    client_latest: StrMap<FileEdit>,
    history: Seq<Seq<char>>,
    x: Seq<char>,
)
    requires
        server_latest.wf(),
        history_to_send(server_latest, client_latest, history).contains(x),
    ensures
        exists|p: Seq<char>, v: i32| #![trigger versions_upto(p, history, history.len() as int).contains((v, x))]
            server_latest@.contains_key(p) && (!client_latest@.contains_key(p) || client_latest@[p].version
            < server_latest@[p].version) && versions_upto(p, history, history.len() as int).contains((v, x))
            && (!client_latest@.contains_key(p) || v > client_latest@[p].version),
{
    let diff = snapshot_diff_spec(server_latest, client_latest);
    lemma_history_upto_from(diff, client_latest@, history, diff.len() as int, x);
    let (k, v) = choose|k: int, v: i32| 0 <= k < diff.len() && versions_upto(diff[k], history, history.len() as int).contains((v, x))
        && (!client_latest@.contains_key(diff[k]) || v > client_latest@[diff[k]].version);
    let p = diff[k];
    assert(diff.contains(p));
    lemma_snapshot_diff_members(server_latest, client_latest, p);
    assert(versions_upto(p, history, history.len() as int).contains((v, x)));
}

proof fn lemma_history_upto_has(
    diff: Seq<Seq<char>>,
    client: Map<Seq<char>, FileEdit>,
    history: Seq<Seq<char>>,
    n: int,
    k: int,
    e: (i32, Seq<char>),
)
    requires
        0 <= k < n <= diff.len(),
        versions_upto(diff[k], history, history.len() as int).contains(e),
        !client.contains_key(diff[k]) || e.0 > client[diff[k]].version,
    ensures
        history_to_send_upto(diff, client, history, n).contains(e.1),
    decreases n,
{
    let prev = history_to_send_upto(diff, client, history, n - 1);
    let p = diff[n - 1];
    let vs = versions_upto(p, history, history.len() as int);
    let f = |e: (i32, Seq<char>)| !client.contains_key(p) || e.0 > client[p].version;
    let kept = vs.filter(f);
    let tail = Seq::new(kept.len(), |i: int| kept[i].1);
    assert(history_to_send_upto(diff, client, history, n) == prev + tail);
    if k == n - 1 {
        let i = choose|i: int| 0 <= i < vs.len() && vs[i] == e;
        assert(f(vs[i]));
        vs.lemma_filter_contains(f, i);
        let y = choose|y: int| 0 <= y < kept.len() && kept[y] == e;
        assert(tail[y] == e.1);
        assert((prev + tail)[prev.len() + y] == e.1);
    } else {
        lemma_history_upto_has(diff, client, history, n - 1, k, e);
        let y = choose|y: int| 0 <= y < prev.len() && prev[y] == e.1;
        assert((prev + tail)[y] == e.1);
    }
}

proof fn lemma_history_upto_from(
    diff: Seq<Seq<char>>,
    client: Map<Seq<char>, FileEdit>,
    history: Seq<Seq<char>>,
    n: int,
    x: Seq<char>,
)
    requires
        0 <= n <= diff.len(),
        history_to_send_upto(diff, client, history, n).contains(x),
    ensures
        exists|k: int, v: i32| 0 <= k < n && #[trigger] versions_upto(diff[k], history, history.len() as int).contains((v, x))
            && (!client.contains_key(diff[k]) || v > client[diff[k]].version),
    decreases n,
{
    if n <= 0 {
        assert(history_to_send_upto(diff, client, history, n).len() == 0);
    } else {
        let prev = history_to_send_upto(diff, client, history, n - 1);
        let p = diff[n - 1];
        let vs = versions_upto(p, history, history.len() as int);
        let f = |e: (i32, Seq<char>)| !client.contains_key(p) || e.0 > client[p].version;
        let kept = vs.filter(f);
        let tail = Seq::new(kept.len(), |i: int| kept[i].1);
        let all = prev + tail;
        assert(history_to_send_upto(diff, client, history, n) == all);
        let z = choose|z: int| 0 <= z < all.len() && all[z] == x;
        if z < prev.len() {
            assert(prev[z] == x);
            lemma_history_upto_from(diff, client, history, n - 1, x);
        } else {
            let y = z - prev.len();
            assert(tail[y] == x);
            let e = kept[y];
            vs.lemma_filter_pred(f, y);
            assert(kept.contains(e));
            vs.lemma_filter_contains_rev(f, e);
            assert(e == (e.0, x));
            assert(vs.contains((e.0, x)));
        }
    }
}

/// The history entries (names relative to the history folder) whose
/// contents go back to the client.
pub fn client_history_files(
    server_latest: &StrMap<FileEdit>,
    client_latest: &StrMap<FileEdit>,
    history: &Vec<String>,
) -> (r: Result<Vec<String>, Error>)
    requires
        server_latest.wf(),
        client_latest.wf(),
        forall|i: int| 0 <= i < snapshot_diff_spec(*server_latest, *client_latest).len()
            ==> versions_readable(
            #[trigger] snapshot_diff_spec(*server_latest, *client_latest)[i],
            string_views(history@),
        ),
    ensures
        r matches Ok(v) && string_views(v@) == history_to_send(*server_latest, *client_latest, string_views(history@)),
{
    let diff = snapshot_diff(server_latest, client_latest);
    let ghost dv = string_views(diff@);
    let ghost hv = string_views(history@);
    let mut dot_history: Vec<String> = Vec::new();
    let mut i: usize = 0;
    assert(string_views(dot_history@) =~= Seq::<Seq<char>>::empty());
    while i < diff.len()
        invariant
            i <= diff@.len(),
            dv == string_views(diff@),
            hv == string_views(history@),
            client_latest.wf(),
            forall|j: int| 0 <= j < dv.len() ==> versions_readable(#[trigger] dv[j], hv),
            string_views(dot_history@) == history_to_send_upto(dv, client_latest@, hv, i as int),
        decreases diff@.len() - i,
    {
        let path = &diff[i];
        assert(dv[i as int] == path@);
        let versions = match get_all_versions(path.as_str(), history.as_slice()) {
            Ok(v) => v,
            Err(e) => {
                return Err(e);
            },
        };
        let client_file_edit = client_latest.get(path.as_str());
        let ghost before = string_views(dot_history@);
        let ghost vs = versions_upto(path@, hv, hv.len() as int);
        let ghost keep = |e: (i32, Seq<char>)| !client_latest@.contains_key(path@) || e.0 > client_latest@[path@].version;
        let mut j: usize = 0;
        assert(vs.take(0).filter(keep) =~= Seq::<(i32, Seq<char>)>::empty());
        while j < versions.len()
            invariant
                j <= versions@.len(),
                version_views(versions@) == vs,
                keep == (|e: (i32, Seq<char>)| !client_latest@.contains_key(path@) || e.0 > client_latest@[path@].version),
                match client_file_edit {
                    Some(c) => client_latest@.contains_key(path@) && *c == client_latest@[path@],
                    None => !client_latest@.contains_key(path@),
                },
                string_views(dot_history@) == before + Seq::new(
                    vs.take(j as int).filter(keep).len(),
                    |x: int| vs.take(j as int).filter(keep)[x].1,
                ),
            decreases versions@.len() - j,
        {
            let (v, ref p) = versions[j];
            assert(vs[j as int] == (v, p@));
            assert(vs.take(j + 1).drop_last() =~= vs.take(j as int));
            let newer = match client_file_edit {
                Some(c) => v > c.version,
                None => true,
            };
            let ghost mid = string_views(dot_history@);
            if newer {
                dot_history.push(p.clone());
            }
            proof {
                let t = vs.take(j + 1);
                vs.take(j as int).lemma_filter_push(vs[j as int], keep);
                assert(t =~= vs.take(j as int).push(vs[j as int]));
                assert(keep(vs[j as int]) == newer);
                let pf = vs.take(j as int).filter(keep);
                if newer {
                    assert(t.filter(keep) == pf.push(vs[j as int]));
                    assert(Seq::new(t.filter(keep).len(), |x: int| t.filter(keep)[x].1) =~= Seq::new(
                        pf.len(),
                        |x: int| pf[x].1,
                    ).push(p@));
                } else {
                    assert(t.filter(keep) == pf);
                }
                if newer {
                    assert(string_views(dot_history@) =~= mid.push(p@));
                } else {
                    assert(dot_history@ =~= dot_history@);
                }
                assert(string_views(dot_history@) =~= before + Seq::new(
                    t.filter(keep).len(),
                    |x: int| t.filter(keep)[x].1,
                ));
            }
            j = j + 1;
        }
        proof {
            assert(vs.take(vs.len() as int) =~= vs);
            assert(keep =~= (|e: (i32, Seq<char>)| !client_latest@.contains_key(dv[i as int]) || e.0 > client_latest@[dv[i as int]].version));
        }
        i = i + 1;
    }
    Ok(dot_history)
}

/// The paths among the first `n` server entries that the client is behind
/// on and that have no answer in `synced` yet, in server order.
pub open spec fn unanswered_upto(
    keys: Seq<Seq<char>>,
    values: Seq<FileEdit>,
    client: Map<Seq<char>, FileEdit>,
    synced: Map<Seq<char>, SyncResponseFile>,
    n: int,
) -> Seq<Seq<char>>
    decreases n,
{
    if n <= 0 {
        Seq::empty()
    } else {
        let prev = unanswered_upto(keys, values, client, synced, n - 1);
        let k = keys[n - 1];
        if (!client.contains_key(k) || client[k].version < values[n - 1].version)
            && !synced.contains_key(k) {
            prev.push(k)
        } else {
            prev
        }
    }
}

/// The files whose current content goes back to the client: those it is
/// behind on that have no answer yet.
pub open spec fn current_reads(
    server_latest: StrMap<FileEdit>,
    client_latest: StrMap<FileEdit>,
    synced: Map<Seq<char>, SyncResponseFile>,
) -> Seq<Seq<char>> {
    unanswered_upto(
        server_latest.keys(),
        server_latest.values(),
        client_latest@,
        synced,
        server_latest.keys().len() as int,
    )
}

/// `unanswered_upto` keeps the server's order, so it holds no path twice,
/// and every path in it comes before the `n`-th key.
pub proof fn lemma_unanswered_sorted(
    keys: Seq<Seq<char>>,
    values: Seq<FileEdit>,
    client: Map<Seq<char>, FileEdit>,
    synced: Map<Seq<char>, SyncResponseFile>,
    n: int,
)
    requires
        crate::strmap::strictly_sorted(keys),
        0 <= n <= keys.len(),
    ensures
        crate::strmap::strictly_sorted(unanswered_upto(keys, values, client, synced, n)),
        forall|i: int| 0 <= i < unanswered_upto(keys, values, client, synced, n).len() ==> (
            #[trigger] unanswered_upto(keys, values, client, synced, n)[i]) != keys[n] || n == keys.len(),
        n < keys.len() ==> forall|i: int| 0 <= i < unanswered_upto(keys, values, client, synced, n).len() ==> crate::text::lex_lt(
            #[trigger] unanswered_upto(keys, values, client, synced, n)[i],
            keys[n],
        ),
        forall|i: int| 0 <= i < unanswered_upto(keys, values, client, synced, n).len() ==> !synced.contains_key(
            #[trigger] unanswered_upto(keys, values, client, synced, n)[i]),
        forall|i: int| 0 <= i < unanswered_upto(keys, values, client, synced, n).len() ==> keys.contains(
            #[trigger] unanswered_upto(keys, values, client, synced, n)[i]),
    decreases n,
{
    if n > 0 {
        lemma_unanswered_sorted(keys, values, client, synced, n - 1);
        let d = unanswered_upto(keys, values, client, synced, n);
        let prev = unanswered_upto(keys, values, client, synced, n - 1);
        assert forall|i: int| 0 <= i < d.len() implies keys.contains(#[trigger] d[i]) by {
            if i < prev.len() {
                assert(d[i] == prev[i]);
            } else {
                assert(d[i] == keys[n - 1]);
            }
        }
        if n < keys.len() {
            assert(crate::text::lex_lt(keys[n - 1], keys[n]));
            assert forall|i: int| 0 <= i < d.len() implies crate::text::lex_lt(#[trigger] d[i], keys[n]) by {
                if i < prev.len() {
                    assert(d[i] == prev[i]);
                    crate::text::lemma_lex_trans(prev[i], keys[n - 1], keys[n]);
                    if prev[i] == keys[n] {
                        crate::text::lemma_lex_antisym(keys[n - 1], keys[n]);
                    }
                }
            }
        }
    }
}

/// The paths whose current content the client is sent, in server order.
pub fn current_files_to_read(
    server_latest: &StrMap<FileEdit>,
    client_latest: &StrMap<FileEdit>,
    synced: &StrMap<SyncResponseFile>,
) -> (r: Vec<String>)
    requires
        server_latest.wf(),
        client_latest.wf(),
    ensures
        string_views(r@) == current_reads(*server_latest, *client_latest, synced@),
{
    proof {
        server_latest.lemma_wf();
    }
    let mut reads: Vec<String> = Vec::new();
    let mut i: usize = 0;
    assert(string_views(reads@) =~= Seq::<Seq<char>>::empty());
    while i < server_latest.len()
        invariant
            i <= server_latest.keys().len(),
            server_latest.keys().len() == server_latest.values().len(),
            client_latest.wf(),
            string_views(reads@) == unanswered_upto(
                server_latest.keys(),
                server_latest.values(),
                client_latest@,
                synced@,
                i as int,
            ),
        decreases server_latest.keys().len() - i,
    {
        let path = server_latest.key_at(i);
        let file_edit = server_latest.value_at(i);
        let behind = match client_latest.get(path.as_str()) {
            Some(c) => c.version < file_edit.version,
            None => true,
        };
        let ghost before = reads@;
        if behind && !synced.contains_key(path.as_str()) {
            reads.push(path.clone());
            assert(string_views(reads@) =~= string_views(before).push(path@));
        }
        i = i + 1;
    }
    reads
}

/// Answers the files the client is behind on with their current
/// `contents` (read in the order [`current_files_to_read`] gives), and the
/// files only the client still has with a deletion; paths that already have
/// an answer keep it.
pub fn client_current_files(
    server_latest: &StrMap<FileEdit>,
    client_latest: &StrMap<FileEdit>,
    synced: &mut StrMap<SyncResponseFile>,
    contents: Vec<Vec<u8>>,
) -> (r: Result<(), Error>)
    requires
        server_latest.wf(),
        client_latest.wf(),
        old(synced).wf(),
        contents@.len() == current_reads(*server_latest, *client_latest, old(synced)@).len(),
    ensures
        r is Ok,
        final(synced).wf(),
        forall|k: Seq<char>| #[trigger] final(synced)@.contains_key(k) <==> (old(synced)@.contains_key(k)
            || current_reads(*server_latest, *client_latest, old(synced)@).contains(k) || (
        client_latest@.contains_key(k) && !server_latest@.contains_key(k))),
        forall|k: Seq<char>| #[trigger] old(synced)@.contains_key(k) ==> final(synced)@[k] == old(synced)@[k],
        forall|i: int| 0 <= i < contents@.len() ==> ({
            let k = #[trigger] current_reads(*server_latest, *client_latest, old(synced)@)[i];
            final(synced)@[k] matches SyncResponseFile::Add { path, status, content } && path@ == k
                && status == SyncStatus::NoConflict && content == contents@[i]
        }),
        forall|k: Seq<char>| #![trigger final(synced)@[k]] client_latest@.contains_key(k) && !server_latest@.contains_key(k)
            && !old(synced)@.contains_key(k) ==> (final(synced)@[k] matches SyncResponseFile::Delete {
            path,
            status,
            content,
        } && path@ == k && status == SyncStatus::NoConflict && content@.len() == 0),
        forall|p: Seq<char>| #[trigger] snapshot_diff_spec(*server_latest, *client_latest).contains(p)
            ==> final(synced)@.contains_key(p),
        answers_keyed(old(synced)@) ==> answers_keyed(final(synced)@),
{
    let ghost old_synced = synced@;
    let ghost reads_spec = current_reads(*server_latest, *client_latest, old_synced);
    let ghost all_contents = contents@;
    let reads = current_files_to_read(server_latest, client_latest, synced);
    proof {
        server_latest.lemma_wf();
        lemma_unanswered_sorted(
            server_latest.keys(),
            server_latest.values(),
            client_latest@,
            old_synced,
            server_latest.keys().len() as int,
        );
    }
    let mut contents = contents;
    let mut i: usize = 0;
    while i < reads.len()
        invariant
            i <= reads@.len() == all_contents.len(),
            string_views(reads@) == reads_spec,
            crate::strmap::strictly_sorted(reads_spec),
            forall|x: int| 0 <= x < reads_spec.len() ==> !old_synced.contains_key(#[trigger] reads_spec[x]),
            contents@ == all_contents.skip(i as int),
            synced.wf(),
            forall|k: Seq<char>| #[trigger] synced@.contains_key(k) <==> (old_synced.contains_key(k)
                || reads_spec.take(i as int).contains(k)),
            forall|k: Seq<char>| #[trigger] old_synced.contains_key(k) ==> synced@[k] == old_synced[k],
            forall|x: int| 0 <= x < i ==> ({
                let k = #[trigger] reads_spec[x];
                synced@[k] matches SyncResponseFile::Add { path, status, content } && path@ == k
                    && status == SyncStatus::NoConflict && content == all_contents[x]
            }),
        decreases reads@.len() - i,
    {
        let path = reads[i].clone();
        assert(path@ == reads_spec[i as int]);
        let ghost before = synced@;
        let content = contents.remove(0);
        assert(content == all_contents[i as int]);
        synced.insert(
            path.clone(),
            SyncResponseFile::Add { path, status: SyncStatus::NoConflict, content },
        );
        proof {
            assert(contents@ =~= all_contents.skip(i + 1));
            assert forall|k: Seq<char>| #[trigger] reads_spec.take(i + 1).contains(k) <==> (
            reads_spec.take(i as int).contains(k) || k == reads_spec[i as int]) by {
                if reads_spec.take(i + 1).contains(k) {
                    let x = choose|x: int| 0 <= x < i + 1 && #[trigger] reads_spec.take(i + 1)[x] == k;
                    if x < i {
                        assert(reads_spec.take(i as int)[x] == k);
                    }
                }
                if reads_spec.take(i as int).contains(k) {
                    let x = choose|x: int| 0 <= x < i && #[trigger] reads_spec.take(i as int)[x] == k;
                    assert(reads_spec.take(i + 1)[x] == k);
                }
                if k == reads_spec[i as int] {
                    assert(reads_spec.take(i + 1)[i as int] == k);
                }
            }
            assert forall|x: int| 0 <= x < i + 1 implies ({
                let k = #[trigger] reads_spec[x];
                synced@[k] matches SyncResponseFile::Add { path, status, content } && path@ == k
                    && status == SyncStatus::NoConflict && content == all_contents[x]
            }) by {
                if x < i {
                    assert(crate::text::lex_lt(reads_spec[x], reads_spec[i as int]));
                }
            }
        }
        i = i + 1;
    }
    proof {
        assert(reads_spec.take(reads_spec.len() as int) =~= reads_spec);
    }
    let ghost after_adds = synced@;
    proof {
        client_latest.lemma_wf();
    }
    let mut j: usize = 0;
    while j < client_latest.len()
        invariant
            j <= client_latest.keys().len(),
            client_latest.wf(),
            server_latest.wf(),
            client_latest.keys().len() == client_latest.values().len(),
            synced.wf(),
            forall|k: Seq<char>| #[trigger] synced@.contains_key(k) <==> (after_adds.contains_key(k) || (
                client_latest.keys().take(j as int).contains(k) && !server_latest@.contains_key(k))),
            forall|k: Seq<char>| #[trigger] after_adds.contains_key(k) ==> synced@[k] == after_adds[k],
            forall|k: Seq<char>| #![trigger synced@[k]] client_latest.keys().take(j as int).contains(k) && !server_latest@.contains_key(k)
                && !after_adds.contains_key(k) ==> (synced@[k] matches SyncResponseFile::Delete {
                path,
                status,
                content,
            } && path@ == k && status == SyncStatus::NoConflict && content@.len() == 0),
        decreases client_latest.keys().len() - j,
    {
        let path = client_latest.key_at(j);
        let ghost before = synced@;
        if !server_latest.contains_key(path.as_str()) && !synced.contains_key(path.as_str()) {
            synced.insert(
                path.clone(),
                SyncResponseFile::Delete {
                    path: path.clone(),
                    status: SyncStatus::NoConflict,
                    content: Vec::new(),
                },
            );
        }
        proof {
            let ks = client_latest.keys();
            assert forall|k: Seq<char>| #[trigger] ks.take(j + 1).contains(k) <==> (
            ks.take(j as int).contains(k) || k == ks[j as int]) by {
                if ks.take(j + 1).contains(k) {
                    let x = choose|x: int| 0 <= x < j + 1 && #[trigger] ks.take(j + 1)[x] == k;
                    if x < j {
                        assert(ks.take(j as int)[x] == k);
                    }
                }
                if ks.take(j as int).contains(k) {
                    let x = choose|x: int| 0 <= x < j && #[trigger] ks.take(j as int)[x] == k;
                    assert(ks.take(j + 1)[x] == k);
                }
                if k == ks[j as int] {
                    assert(ks.take(j + 1)[j as int] == k);
                }
            }
        }
        j = j + 1;
    }
    proof {
        let ks = client_latest.keys();
        assert(ks.take(ks.len() as int) =~= ks);
        assert forall|k: Seq<char>| client_latest@.contains_key(k) <==> ks.contains(k) by {}
        assert forall|k: Seq<char>| #![trigger synced@[k]] client_latest@.contains_key(k) && !server_latest@.contains_key(k)
            && !old_synced.contains_key(k) implies !after_adds.contains_key(k) by {
            if reads_spec.contains(k) {
                let x = choose|x: int| 0 <= x < reads_spec.len() && reads_spec[x] == k;
                assert(server_latest.keys().contains(reads_spec[x]));
            }
        }
        assert forall|k: Seq<char>| #[trigger] old_synced.contains_key(k) implies synced@[k] == old_synced[k] by {
            assert(after_adds.contains_key(k));
        }
        assert forall|x: int| 0 <= x < all_contents.len() implies ({
            let k = #[trigger] reads_spec[x];
            synced@[k] matches SyncResponseFile::Add { path, status, content } && path@ == k
                && status == SyncStatus::NoConflict && content == all_contents[x]
        }) by {
            let k = reads_spec[x];
            assert(reads_spec.take(reads_spec.len() as int)[x] == k);
            assert(after_adds.contains_key(k));
        }
        assert forall|p: Seq<char>| #[trigger] snapshot_diff_spec(*server_latest, *client_latest).contains(p)
            implies synced@.contains_key(p) by {
            lemma_behind_files_answered(*server_latest, *client_latest, old_synced, p);
        }
        if answers_keyed(old_synced) {
            assert forall|k: Seq<char>| #[trigger] synced@.contains_key(k) implies synced@[k].path_spec() == k by {
                if old_synced.contains_key(k) {
                } else if reads_spec.contains(k) {
                    let x = choose|x: int| 0 <= x < reads_spec.len() && reads_spec[x] == k;
                    assert(reads_spec[x] == k);
                } else {
                    assert(client_latest@.contains_key(k) && !server_latest@.contains_key(k));
                }
            }
        }
    }
    Ok(())
}

/// The path of each file of an answer.
pub open spec fn response_paths(files: Seq<SyncResponseFile>) -> Seq<Seq<char>> {
    Seq::new(files.len(), |i: int| files[i].path_spec())
}

/// The file of an answer that has path `k`.
pub open spec fn response_for(files: Seq<SyncResponseFile>, k: Seq<char>) -> SyncResponseFile {
    files[response_paths(files).index_of(k)]
}

/// The answer to a request: every file gathered for the client, in path
/// order, each path once, with the history files and the latest history
/// record.
pub fn sync_response(work: SyncWork, dot_history: Vec<File>, latest_ftd: String) -> (r: SyncResponse)
    requires
        work.wf(),
    ensures
        r.files@ == work.synced_files.values(),
        response_paths(r.files@) == work.synced_files.keys(),
        forall|i: int, j: int| 0 <= i < j < r.files@.len() ==> #[trigger] response_paths(r.files@)[i]
            != #[trigger] response_paths(r.files@)[j],
        forall|k: Seq<char>| #[trigger] response_paths(r.files@).contains(k) <==> work.synced_files@.contains_key(k),
        forall|k: Seq<char>| #[trigger] work.synced_files@.contains_key(k) ==> response_for(r.files@, k)
            == work.synced_files@[k],
        r.dot_history == dot_history,
        r.latest_ftd == latest_ftd,
{
    let ghost m = work.synced_files;
    proof {
        m.lemma_wf();
        assert forall|i: int| 0 <= i < m.keys().len() implies #[trigger] m.values()[i].path_spec() == m.keys()[i] by {
            m.lemma_entry(i);
        }
        assert(response_paths(m.values()) =~= m.keys());
    }
    SyncResponse { files: work.synced_files.into_values(), dot_history, latest_ftd }
}

/// The answer to a request once its files have been applied: the answers
/// already gathered in `work`, then the current `contents` of the files the
/// client is behind on that have no answer yet (read in the order
/// [`current_files_to_read`] gives), then a deletion for each file only the
/// client still has. No path is answered twice, and every file the client
/// is behind on is answered.
pub fn answer_sync(
    work: SyncWork,
    server_latest: &StrMap<FileEdit>,
    client_latest: &StrMap<FileEdit>,
    contents: Vec<Vec<u8>>,
    dot_history: Vec<File>,
    latest_ftd: String,
) -> (r: SyncResponse)
    requires
        work.wf(),
        server_latest.wf(),
        client_latest.wf(),
        contents@.len() == current_reads(*server_latest, *client_latest, work.synced_files@).len(),
    ensures
        forall|i: int, j: int| 0 <= i < j < r.files@.len() ==> #[trigger] response_paths(r.files@)[i]
            != #[trigger] response_paths(r.files@)[j],
        forall|k: Seq<char>| #[trigger] response_paths(r.files@).contains(k) <==> (work.synced_files@.contains_key(k)
            || current_reads(*server_latest, *client_latest, work.synced_files@).contains(k) || (
        client_latest@.contains_key(k) && !server_latest@.contains_key(k))),
        forall|p: Seq<char>| #[trigger] snapshot_diff_spec(*server_latest, *client_latest).contains(p)
            ==> response_paths(r.files@).contains(p),
        forall|k: Seq<char>| #[trigger] work.synced_files@.contains_key(k) ==> response_for(r.files@, k)
            == work.synced_files@[k],
        forall|i: int| 0 <= i < contents@.len() ==> ({
            let k = #[trigger] current_reads(*server_latest, *client_latest, work.synced_files@)[i];
            response_for(r.files@, k) matches SyncResponseFile::Add { path, status, content } && path@ == k
                && status == SyncStatus::NoConflict && content == contents@[i]
        }),
        forall|k: Seq<char>| #![trigger response_for(r.files@, k)] client_latest@.contains_key(k)
            && !server_latest@.contains_key(k) && !work.synced_files@.contains_key(k) ==> (response_for(
            r.files@,
            k,
        ) matches SyncResponseFile::Delete { path, status, content } && path@ == k && status
            == SyncStatus::NoConflict && content@.len() == 0),
        r.dot_history == dot_history,
        r.latest_ftd == latest_ftd,
{
    let ghost before = work.synced_files@;
    let ghost all_contents = contents@;
    let mut work = work;
    let _ = client_current_files(server_latest, client_latest, &mut work.synced_files, contents);
    let ghost after = work.synced_files@;
    let r = sync_response(work, dot_history, latest_ftd);
    proof {
        assert forall|p: Seq<char>| #[trigger] snapshot_diff_spec(*server_latest, *client_latest).contains(p)
            implies response_paths(r.files@).contains(p) by {
            assert(after.contains_key(p));
        }
        assert forall|k: Seq<char>| #[trigger] before.contains_key(k) implies response_for(r.files@, k)
            == before[k] by {
            assert(after.contains_key(k));
        }
        assert forall|i: int| 0 <= i < all_contents.len() implies ({
            let k = #[trigger] current_reads(*server_latest, *client_latest, before)[i];
            response_for(r.files@, k) matches SyncResponseFile::Add { path, status, content } && path@ == k
                && status == SyncStatus::NoConflict && content == all_contents[i]
        }) by {
            let k = current_reads(*server_latest, *client_latest, before)[i];
            assert(current_reads(*server_latest, *client_latest, before).contains(k));
            assert(after.contains_key(k));
        }
        assert forall|k: Seq<char>| client_latest@.contains_key(k) && !server_latest@.contains_key(k)
            && !before.contains_key(k) implies (#[trigger] response_for(r.files@, k) matches SyncResponseFile::Delete {
            path,
            status,
            content,
        } && path@ == k && status == SyncStatus::NoConflict && content@.len() == 0) by {
            assert(after.contains_key(k));
            assert(response_for(r.files@, k) == after[k]);
        }
    }
    r
}

/// The client is sent exactly the files it is behind on: a path is in the
/// diff when the server has it and the client lacks it or holds an older
/// version of it; no path comes twice.
pub proof fn lemma_snapshot_diff_members(
    server_latest: StrMap<FileEdit>,
    client_latest: StrMap<FileEdit>,
    k: Seq<char>,
)
    requires
        server_latest.wf(),
    ensures
        snapshot_diff_spec(server_latest, client_latest).contains(k) <==> (server_latest@.contains_key(k)
            && (!client_latest@.contains_key(k) || client_latest@[k].version
            < server_latest@[k].version)),
        crate::strmap::strictly_sorted(snapshot_diff_spec(server_latest, client_latest)),
{
    server_latest.lemma_wf();
    let keys = server_latest.keys();
    let values = server_latest.values();
    let n = keys.len() as int;
    lemma_diff_upto_members(keys, values, client_latest@, n, k);
    lemma_unanswered_sorted(keys, values, client_latest@, Map::empty(), n);
    lemma_diff_is_unanswered_empty(keys, values, client_latest@, n);
    if server_latest@.contains_key(k) {
        let j = keys.index_of(k);
        server_latest.lemma_entry(j);
    } else {
        assert forall|j: int| 0 <= j < n implies keys[j] != k by {
            if keys[j] == k {
                assert(keys.contains(k));
            }
        }
    }
}

/// With no answers yet, every file the client is behind on is unanswered.
proof fn lemma_diff_is_unanswered_empty(
    keys: Seq<Seq<char>>,
    values: Seq<FileEdit>,
    client: Map<Seq<char>, FileEdit>,
    n: int,
)
    ensures
        diff_upto(keys, values, client, n) == unanswered_upto(keys, values, client, Map::empty(), n),
    decreases n,
{
    if n > 0 {
        lemma_diff_is_unanswered_empty(keys, values, client, n - 1);
    }
}

/// Membership in the first `n` entries' diff.
proof fn lemma_diff_upto_members(
    keys: Seq<Seq<char>>,
    values: Seq<FileEdit>,
    client: Map<Seq<char>, FileEdit>,
    n: int,
    k: Seq<char>,
)
    requires
        0 <= n <= keys.len(),
        crate::strmap::strictly_sorted(keys),
    ensures
        diff_upto(keys, values, client, n).contains(k) <==> exists|j: int| 0 <= j < n && #[trigger] keys[j] == k && (
        !client.contains_key(k) || client[k].version < values[j].version),
    decreases n,
{
    if n > 0 {
        lemma_diff_upto_members(keys, values, client, n - 1, k);
        let prev = diff_upto(keys, values, client, n - 1);
        let d = diff_upto(keys, values, client, n);
        let kk = keys[n - 1];
        if !client.contains_key(kk) || client[kk].version < values[n - 1].version {
            assert(d == prev.push(kk));
            if d.contains(k) {
                let x = choose|x: int| 0 <= x < d.len() && d[x] == k;
                if x < prev.len() {
                    assert(prev[x] == k);
                }
            }
            if prev.contains(k) {
                let x = choose|x: int| 0 <= x < prev.len() && prev[x] == k;
                assert(d[x] == k);
            }
            if k == kk {
                assert(d[prev.len() as int] == k);
            }
        } else {
            if exists|j: int| 0 <= j < n && #[trigger] keys[j] == k && (!client.contains_key(k)
                || client[k].version < values[j].version) {
                let j = choose|j: int| 0 <= j < n && #[trigger] keys[j] == k && (!client.contains_key(k)
                    || client[k].version < values[j].version);
                if j == n - 1 {
                } else {
                    assert(keys[j] == k);
                }
            }
        }
    }
}

/// Answering the client leaves none of the files it is behind on without
/// an answer: each either had one already or is among the files whose
/// current content is sent.
pub proof fn lemma_behind_files_answered(
    server_latest: StrMap<FileEdit>,
    client_latest: StrMap<FileEdit>,
    synced: Map<Seq<char>, SyncResponseFile>,
    k: Seq<char>,
)
    requires
        server_latest.wf(),
        snapshot_diff_spec(server_latest, client_latest).contains(k),
    ensures
        synced.contains_key(k) || current_reads(server_latest, client_latest, synced).contains(k),
{
    server_latest.lemma_wf();
    let keys = server_latest.keys();
    let values = server_latest.values();
    let n = keys.len() as int;
    lemma_diff_upto_members(keys, values, client_latest@, n, k);
    if !synced.contains_key(k) {
        lemma_unanswered_members(keys, values, client_latest@, synced, n, k);
    }
}

/// A path the client is behind on with no answer is unanswered.
proof fn lemma_unanswered_members(
    keys: Seq<Seq<char>>,
    values: Seq<FileEdit>,
    client: Map<Seq<char>, FileEdit>,
    synced: Map<Seq<char>, SyncResponseFile>,
    n: int,
    k: Seq<char>,
)
    requires
        0 <= n <= keys.len(),
        !synced.contains_key(k),
        exists|j: int| 0 <= j < n && #[trigger] keys[j] == k && (!client.contains_key(k)
            || client[k].version < values[j].version),
    ensures
        unanswered_upto(keys, values, client, synced, n).contains(k),
    decreases n,
{
    let prev = unanswered_upto(keys, values, client, synced, n - 1);
    let d = unanswered_upto(keys, values, client, synced, n);
    if keys[n - 1] == k && (!client.contains_key(k) || client[k].version < values[n - 1].version) {
        assert(d == prev.push(k));
        assert(d[prev.len() as int] == k);
    } else {
        let j = choose|j: int| 0 <= j < n && #[trigger] keys[j] == k && (!client.contains_key(k)
            || client[k].version < values[j].version);
        assert(j < n - 1);
        lemma_unanswered_members(keys, values, client, synced, n - 1, k);
        let x = choose|x: int| 0 <= x < prev.len() && prev[x] == k;
        if d.len() > prev.len() {
            assert(d[x] == k);
        } else {
            assert(d == prev);
        }
    }
}

/// Every version found for a path is a history entry of that path: the
/// entry itself, which starts with the path's version prefix.
pub proof fn lemma_versions_from_history(path: Seq<char>, history: Seq<Seq<char>>, n: int)
    requires
        0 <= n <= history.len(),
    ensures
        forall|x: int| 0 <= x < versions_upto(path, history, n).len() ==> history.contains(
            #[trigger] versions_upto(path, history, n)[x].1,
        ) && crate::text::starts_with(versions_upto(path, history, n)[x].1, version_prefix(path)),
    decreases n,
{
    if n > 0 {
        lemma_versions_from_history(path, history, n - 1);
        let prev = versions_upto(path, history, n - 1);
        let v = versions_upto(path, history, n);
        let h = history[n - 1];
        match version_entry(path, h) {
            Some(e) => {
                let rest = strip_prefix(h, version_prefix(path))->0;
                assert(h =~= version_prefix(path) + rest);
                assert(e.1 == h);
                assert(v == prev.push(e));
                assert forall|x: int| 0 <= x < v.len() implies history.contains(#[trigger] v[x].1)
                    && crate::text::starts_with(v[x].1, version_prefix(path)) by {
                    if x < prev.len() {
                        assert(v[x] == prev[x]);
                    } else {
                        assert(history[n - 1] == v[x].1);
                        assert(v[x].1.subrange(0, version_prefix(path).len() as int) =~= version_prefix(path));
                    }
                }
            },
            None => {},
        }
    }
}

/// Whether every history entry of `path` carries a version that reads as an
/// `i32`, as [`get_all_versions`] needs.
pub fn versions_readable_check(path: &str, history: &[String]) -> (r: bool)
    ensures
        r == versions_readable(path@, string_views(history@)),
{
    let pc = chars_of(path);
    let dot = vec!['.'];
    assert(dot@ =~= seq!['.']);
    let path_prefix = match chars_rsplit_once(pc.as_slice(), dot.as_slice()) {
        Some((stem, _)) => {
            let mut p = stem;
            p.push('.');
            p
        },
        None => {
            let mut p = chars_of(path);
            p.push('.');
            p
        },
    };
    assert(path_prefix@ =~= version_prefix(path@));
    let ghost hv = string_views(history@);
    let mut i: usize = 0;
    while i < history.len()
        invariant
            i <= history@.len(),
            hv == string_views(history@),
            dot@ == seq!['.'],
            path_prefix@ == version_prefix(path@),
            forall|x: int| 0 <= x < i ==> (#[trigger] strip_prefix(hv[x], version_prefix(path@)) matches Some(rest)
                ==> parse_i32(version_parts(rest).0) is Some),
        decreases history@.len() - i,
    {
        let h = chars_of(history[i].as_str());
        assert(hv[i as int] == h@);
        match chars_strip_prefix(h.as_slice(), path_prefix.as_slice()) {
            Some(rest) => {
                let version_text = match chars_rsplit_once(rest.as_slice(), dot.as_slice()) {
                    Some((v, _)) => v,
                    None => chars_slice_all(rest.as_slice()),
                };
                assert(version_text@ == version_parts(rest@).0);
                if parse_i32_of(version_text.as_slice()).is_none() {
                    return false;
                }
            },
            None => {},
        }
        i = i + 1;
    }
    true
}

} // verus!
