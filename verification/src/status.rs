//! The status of a package's files against their latest snapshots, and of
//! the tracking relations between files.
use vstd::prelude::*;
use crate::strmap::StrMap;
use crate::text::{
    chars_of, chars_eq, chars_replace, decimal, decimal_of, parse_u128, parse_u128_of, push_all,
    replace, string_of, all_digits,
};
use crate::document::ftd_ext;

verus! {

/// How a file stands against its latest snapshot.
#[derive(Debug, Clone, Copy, PartialEq, Eq, Structural)]
pub enum FileStatus {
    Modified,
    Added,
    Removed,
    Unchanged,
}

/// How a tracking relation stands.
#[derive(Debug, Clone, PartialEq, Eq)]
pub enum TrackStatus {
    Uptodate,
    NeverMarked,
    Outofdate { days: String },
}

/// A tracking relation of a document: the tracked document, and the
/// timestamp of its snapshot that was last marked up to date.
#[derive(Debug, Clone)]
pub struct TrackingInfo {
    pub document_name: String,
    pub other_timestamp: Option<String>,
}

/// `<base>/.history/<id with .ftd replaced by .<timestamp>.ftd>`.
pub open spec fn snapshot_path_spec(base_path: Seq<char>, id: Seq<char>, timestamp: Seq<char>) -> Seq<char> {
    base_path + "/.history/"@ + replace(id, ftd_ext(), seq!['.'] + timestamp + ftd_ext())
}

/// Where the latest snapshot of document `id` lies.
pub fn snapshot_path(base_path: &str, id: &str, timestamp: &str) -> (r: String)
    ensures
        r@ == snapshot_path_spec(base_path@, id@, timestamp@),
{
    let mut to = vec!['.'];
    push_all(&mut to, chars_of(timestamp).as_slice());
    let ext = crate::document::ftd_ext_chars();
    push_all(&mut to, ext.as_slice());
    assert(to@ =~= seq!['.'] + timestamp@ + ftd_ext());
    let replaced = chars_replace(chars_of(id).as_slice(), ext.as_slice(), to.as_slice());
    let mut r = String::from_str(base_path);
    r.append("/.history/");
    r.append(string_of(replaced.as_slice()).as_str());
    r
}

/// The status of a document: added when it has no snapshot, unchanged when
/// its content equals the snapshot's, modified otherwise. `existing` is the
/// snapshot's content, read when there is a snapshot.
pub fn get_file_status(id: &str, content: &str, snapshots: &StrMap<String>, existing: Option<&str>) -> (r: FileStatus)
    requires
        snapshots.wf(),
        snapshots@.contains_key(id@) ==> existing is Some,
    ensures
        r == (if snapshots@.contains_key(id@) {
            if content@ == existing->0@ {
                FileStatus::Unchanged
            } else {
                FileStatus::Modified
            }
        } else {
            FileStatus::Added
        }),
{
    if snapshots.contains_key(id) {
        match existing {
            Some(e) => {
                if chars_eq(chars_of(content).as_slice(), chars_of(e).as_slice()) {
                    FileStatus::Unchanged
                } else {
                    FileStatus::Modified
                }
            },
            None => vstd::pervasive::unreached(),
        }
    } else {
        FileStatus::Added
    }
}

/// Whole seconds in `nanos` nanoseconds taken modulo 2^64, as
/// `Duration::from_nanos(nanos as u64).as_secs()` counts them.
pub open spec fn seconds_of(nanos: nat) -> nat {
    (nanos % 0x1_0000_0000_0000_0000) / 1_000_000_000
}

/// A tracking relation may be judged: the timestamps read as `u128` and the
/// tracked snapshot is not newer than the latest one.
pub open spec fn track_judgeable(timestamp: Seq<char>, other: Option<Seq<char>>) -> bool {
    match other {
        Some(o) => timestamp == o || (parse_u128(timestamp) is Some && parse_u128(o) is Some
            && parse_u128(o)->0 <= parse_u128(timestamp)->0),
        None => true,
    }
}

/// How a relation stands when the tracked document's latest snapshot is at
/// `timestamp` and the relation was marked at `other`.
pub open spec fn track_status_spec(timestamp: Seq<char>, other: Option<Seq<char>>, r: TrackStatus) -> bool {
    match other {
        None => r == TrackStatus::NeverMarked,
        Some(o) => if timestamp == o {
            r == TrackStatus::Uptodate
        } else {
            r matches TrackStatus::Outofdate { days } && days@ == decimal(
                seconds_of((parse_u128(timestamp)->0 - parse_u128(o)->0) as nat),
            )
        },
    }
}

/// A relation never marked is `NeverMarked`; one marked at the tracked
/// document's latest snapshot is up to date; any other is out of date by
/// the whole seconds from the mark to the latest snapshot (when these are
/// less than 2^64 nanoseconds apart).
pub proof fn lemma_track_status_meaning(timestamp: Seq<char>, other: Option<Seq<char>>, r: TrackStatus)
    requires
        track_status_spec(timestamp, other, r),
        track_judgeable(timestamp, other),
    ensures
        other is None ==> r == TrackStatus::NeverMarked,
        other == Some(timestamp) ==> r == TrackStatus::Uptodate,
        other is Some && other->0 != timestamp ==> (r matches TrackStatus::Outofdate { days } && (parse_u128(
            timestamp,
        )->0 - parse_u128(other->0)->0 < 0x1_0000_0000_0000_0000 ==> days@ == decimal(
            ((parse_u128(timestamp)->0 - parse_u128(other->0)->0) / 1_000_000_000) as nat,
        ))),
{
    if other is Some && other->0 != timestamp {
        let o = other->0;
        let d = (parse_u128(timestamp)->0 - parse_u128(o)->0) as nat;
        if d < 0x1_0000_0000_0000_0000 {
            assert(d % 0x1_0000_0000_0000_0000 == d) by (nonlinear_arith)
                requires
                    d < 0x1_0000_0000_0000_0000,
            ;
        }
    }
}

/// Judges one tracking relation.
pub fn track_status(timestamp: &str, other: Option<&str>) -> (r: TrackStatus)
    requires
        track_judgeable(timestamp@, match other {
            Some(o) => Some(o@),
            None => None,
        }),
    ensures
        track_status_spec(timestamp@, match other {
            Some(o) => Some(o@),
            None => None,
        }, r),
{
    match other {
        None => TrackStatus::NeverMarked,
        Some(o) => {
            let t = chars_of(timestamp);
            let oc = chars_of(o);
            if chars_eq(t.as_slice(), oc.as_slice()) {
                TrackStatus::Uptodate
            } else {
                let now = match parse_u128_of(t.as_slice()) {
                    Some(v) => v,
                    None => vstd::pervasive::unreached(),
                };
                let then = match parse_u128_of(oc.as_slice()) {
                    Some(v) => v,
                    None => vstd::pervasive::unreached(),
                };
                let nanos: u128 = (now - then) % 0x1_0000_0000_0000_0000;
                let secs: u128 = nanos / 1_000_000_000;
                let days = decimal_of(secs);
                TrackStatus::Outofdate { days: string_of(days.as_slice()) }
            }
        },
    }
}

/// The index of the last of the first `n` relations that tracks `name`.
pub open spec fn last_track_of(tracks: Seq<TrackingInfo>, name: Seq<char>, n: int) -> Option<int>
    decreases n,
{
    if n <= 0 {
        None
    } else if tracks[n - 1].document_name@ == name {
        Some(n - 1)
    } else {
        last_track_of(tracks, name, n - 1)
    }
}

/// The marked timestamp of a relation, as characters.
pub open spec fn other_view(t: TrackingInfo) -> Option<Seq<char>> {
    match t.other_timestamp {
        Some(o) => Some(o@),
        None => None,
    }
}

/// The status of each tracked document that has a snapshot, judged by its
/// last relation in `tracks`.
pub fn get_track_status(tracks: &Vec<TrackingInfo>, snapshots: &StrMap<String>) -> (r: StrMap<TrackStatus>)
    requires
        snapshots.wf(),
        forall|i: int| 0 <= i < tracks@.len() && snapshots@.contains_key(#[trigger] tracks@[i].document_name@)
            ==> track_judgeable(snapshots@[tracks@[i].document_name@]@, other_view(tracks@[i])),
    ensures
        r.wf(),
        forall|k: Seq<char>| #[trigger] r@.contains_key(k) <==> (snapshots@.contains_key(k) && last_track_of(
            tracks@,
            k,
            tracks@.len() as int,
        ) is Some),
        forall|k: Seq<char>| #[trigger] r@.contains_key(k) ==> track_status_spec(
            snapshots@[k]@,
            other_view(tracks@[last_track_of(tracks@, k, tracks@.len() as int)->0]),
            r@[k],
        ),
{
    let mut track_list: StrMap<TrackStatus> = StrMap::new();
    let mut i: usize = 0;
    while i < tracks.len()
        invariant
            i <= tracks@.len(),
            snapshots.wf(),
            track_list.wf(),
            forall|x: int| 0 <= x < tracks@.len() && snapshots@.contains_key(#[trigger] tracks@[x].document_name@)
                ==> track_judgeable(snapshots@[tracks@[x].document_name@]@, other_view(tracks@[x])),
            forall|k: Seq<char>| #[trigger] track_list@.contains_key(k) <==> (snapshots@.contains_key(k)
                && last_track_of(tracks@, k, i as int) is Some),
            forall|k: Seq<char>| #[trigger] track_list@.contains_key(k) ==> track_status_spec(
                snapshots@[k]@,
                other_view(tracks@[last_track_of(tracks@, k, i as int)->0]),
                track_list@[k],
            ),
        decreases tracks@.len() - i,
    {
        let track = &tracks[i];
        match snapshots.get(track.document_name.as_str()) {
            Some(timestamp) => {
                let other = match &track.other_timestamp {
                    Some(o) => Some(o.as_str()),
                    None => None,
                };
                let st = track_status(timestamp.as_str(), other);
                track_list.insert(track.document_name.clone(), st);
            },
            None => {},
        }
        i = i + 1;
    }
    track_list
}

/// How `Debug` prints a file status.
pub open spec fn file_status_text(s: FileStatus) -> Seq<char> {
    match s {
        FileStatus::Modified => "Modified"@,
        FileStatus::Added => "Added"@,
        FileStatus::Removed => "Removed"@,
        FileStatus::Unchanged => "None"@,
    }
}

pub fn file_status_debug(s: FileStatus) -> (r: String)
    ensures
        r@ == file_status_text(s),
{
    match s {
        FileStatus::Modified => String::from_str("Modified"),
        FileStatus::Added => String::from_str("Added"),
        FileStatus::Removed => String::from_str("Removed"),
        FileStatus::Unchanged => String::from_str("None"),
    }
}

/// `<status>: <id>`.
pub open spec fn status_line(s: FileStatus, id: Seq<char>) -> Seq<char> {
    file_status_text(s) + ": "@ + id
}

fn make_status_line(s: FileStatus, id: &str) -> (r: String)
    ensures
        r@ == status_line(s, id@),
{
    let mut r = file_status_debug(s);
    r.append(": ");
    r.append(id);
    r
}

/// The lines for the first `n` snapshotted files: a changed file's status,
/// or `Removed` for a file that is gone; unchanged files give no line.
pub open spec fn snapshot_lines_upto(keys: Seq<Seq<char>>, filestatus: Map<Seq<char>, FileStatus>, n: int) -> Seq<Seq<char>>
    decreases n,
{
    if n <= 0 {
        Seq::empty()
    } else {
        let prev = snapshot_lines_upto(keys, filestatus, n - 1);
        let k = keys[n - 1];
        if filestatus.contains_key(k) {
            if filestatus[k] == FileStatus::Unchanged {
                prev
            } else {
                prev.push(status_line(filestatus[k], k))
            }
        } else {
            prev.push(status_line(FileStatus::Removed, k))
        }
    }
}

/// The lines for the first `n` files with a status: one for each added file.
pub open spec fn added_lines_upto(keys: Seq<Seq<char>>, values: Seq<FileStatus>, n: int) -> Seq<Seq<char>>
    decreases n,
{
    if n <= 0 {
        Seq::empty()
    } else {
        let prev = added_lines_upto(keys, values, n - 1);
        if values[n - 1] == FileStatus::Added {
            prev.push(status_line(FileStatus::Added, keys[n - 1]))
        } else {
            prev
        }
    }
}

/// The working tree is clean: no file is changed or added, and none of the
/// snapshotted files is gone.
pub open spec fn tree_clean(snapshots: Map<Seq<char>, String>, filestatus: Map<Seq<char>, FileStatus>) -> bool {
    !((exists|k: Seq<char>| #[trigger] filestatus.contains_key(k) && filestatus[k] != FileStatus::Unchanged)
        || (exists|k: Seq<char>| #[trigger] snapshots.contains_key(k) && !filestatus.contains_key(k)))
}

/// The status report of the files: the lines to print, and whether the
/// working tree is clean (no file changed, none added, none removed).
pub fn print_file_status(snapshots: &StrMap<String>, filestatus: &StrMap<FileStatus>) -> (r: (Vec<String>, bool))
    requires
        snapshots.wf(),
        filestatus.wf(),
    ensures
        crate::document::string_views(r.0@) == snapshot_lines_upto(
            snapshots.keys(),
            filestatus@,
            snapshots.keys().len() as int,
        ) + added_lines_upto(filestatus.keys(), filestatus.values(), filestatus.keys().len() as int),
        r.1 == tree_clean(snapshots@, filestatus@),
        forall|k: Seq<char>| #[trigger] snapshots@.contains_key(k) && !filestatus@.contains_key(k) ==> !r.1,
        forall|k: Seq<char>| #[trigger] filestatus@.contains_key(k) && filestatus@[k] != FileStatus::Unchanged ==> !r.1,
        (forall|k: Seq<char>| #[trigger] filestatus@.contains_key(k) ==> filestatus@[k] == FileStatus::Unchanged)
            && (forall|k: Seq<char>| #[trigger] snapshots@.contains_key(k) ==> filestatus@.contains_key(k)) ==> r.1,
{
    proof {
        snapshots.lemma_wf();
        filestatus.lemma_wf();
    }
    let mut lines: Vec<String> = Vec::new();
    let mut any_file_removed = false;
    let mut i: usize = 0;
    assert(crate::document::string_views(lines@) =~= Seq::<Seq<char>>::empty());
    while i < snapshots.len()
        invariant
            i <= snapshots.keys().len(),
            filestatus.wf(),
            crate::document::string_views(lines@) == snapshot_lines_upto(snapshots.keys(), filestatus@, i as int),
            any_file_removed == exists|x: int| 0 <= x < i && !filestatus@.contains_key(#[trigger] snapshots.keys()[x]),
        decreases snapshots.keys().len() - i,
    {
        let id = snapshots.key_at(i);
        let ghost before = lines@;
        match filestatus.get(id.as_str()) {
            Some(status) => {
                if *status != FileStatus::Unchanged {
                    lines.push(make_status_line(*status, id.as_str()));
                    assert(crate::document::string_views(lines@) =~= crate::document::string_views(before).push(
                        status_line(*status, id@),
                    ));
                }
            },
            None => {
                any_file_removed = true;
                lines.push(make_status_line(FileStatus::Removed, id.as_str()));
                assert(crate::document::string_views(lines@) =~= crate::document::string_views(before).push(
                    status_line(FileStatus::Removed, id@),
                ));
            },
        }
        i = i + 1;
    }
    let ghost first = crate::document::string_views(lines@);
    let mut any_changed = false;
    let mut j: usize = 0;
    while j < filestatus.len()
        invariant
            j <= filestatus.keys().len() == filestatus.values().len(),
            filestatus.wf(),
            crate::document::string_views(lines@) == first + added_lines_upto(
                filestatus.keys(),
                filestatus.values(),
                j as int,
            ),
            any_changed == exists|x: int| 0 <= x < j && #[trigger] filestatus.values()[x] != FileStatus::Unchanged,
        decreases filestatus.keys().len() - j,
    {
        let id = filestatus.key_at(j);
        let status = *filestatus.value_at(j);
        let ghost before = lines@;
        if status == FileStatus::Added {
            lines.push(make_status_line(status, id.as_str()));
            assert(crate::document::string_views(lines@) =~= crate::document::string_views(before).push(
                status_line(status, id@),
            ));
        }
        if status != FileStatus::Unchanged {
            any_changed = true;
        }
        j = j + 1;
    }
    proof {
        assert((exists|k: Seq<char>| #[trigger] filestatus@.contains_key(k) && filestatus@[k]
            != FileStatus::Unchanged) == any_changed) by {
            if any_changed {
                let x = choose|x: int| 0 <= x < filestatus.keys().len() && #[trigger] filestatus.values()[x] != FileStatus::Unchanged;
                filestatus.lemma_entry(x);
                assert(filestatus@.contains_key(filestatus.keys()[x]));
            }
            if exists|k: Seq<char>| #[trigger] filestatus@.contains_key(k) && filestatus@[k] != FileStatus::Unchanged {
                let k = choose|k: Seq<char>| #[trigger] filestatus@.contains_key(k) && filestatus@[k] != FileStatus::Unchanged;
                let x = filestatus.keys().index_of(k);
                assert(filestatus.keys().contains(k));
                assert(filestatus.values()[x] != FileStatus::Unchanged);
            }
        }
        assert((exists|k: Seq<char>| #[trigger] snapshots@.contains_key(k) && !filestatus@.contains_key(k))
            == any_file_removed) by {
            if any_file_removed {
                let x = choose|x: int| 0 <= x < snapshots.keys().len() && !filestatus@.contains_key(#[trigger] snapshots.keys()[x]);
                snapshots.lemma_entry(x);
            }
            if exists|k: Seq<char>| #[trigger] snapshots@.contains_key(k) && !filestatus@.contains_key(k) {
                let k = choose|k: Seq<char>| #[trigger] snapshots@.contains_key(k) && !filestatus@.contains_key(k);
                assert(snapshots.keys().contains(k));
                let x = snapshots.keys().index_of(k);
                assert(snapshots.keys()[x] == k);
            }
        }
    }
    (lines, !(any_changed || any_file_removed))
}

/// How `Debug` prints a string: quoted, with the characters that need it
/// escaped.
pub uninterp spec fn debug_str(s: Seq<char>) -> Seq<char>;

/// `<str as Debug>::fmt`: the contract names the text `debug_str`, and
/// states that a string of ASCII digits is only put in quotes, as the
/// documentation of `char::escape_debug` leaves digits as they are.
#[verifier::external_body]
fn str_debug(s: &str) -> (r: String)
    ensures
        r@ == debug_str(s@),
        all_digits(s@) ==> r@ == seq!['"'] + s@ + seq!['"'],
{
    format!("{:?}", s)
}

/// How `Debug` prints a track status.
pub open spec fn track_status_text(t: TrackStatus) -> Seq<char> {
    match t {
        TrackStatus::Uptodate => "Uptodate"@,
        TrackStatus::NeverMarked => "NeverMarked"@,
        TrackStatus::Outofdate { days } => "Outofdate { days: "@ + debug_str(days@) + " }"@,
    }
}

pub fn track_status_debug(t: &TrackStatus) -> (r: String)
    ensures
        r@ == track_status_text(*t),
        *t matches TrackStatus::Outofdate { days } ==> (all_digits(days@) ==> r@ == "Outofdate { days: \""@
            + days@ + "\" }"@),
{
    match t {
        TrackStatus::Uptodate => String::from_str("Uptodate"),
        TrackStatus::NeverMarked => String::from_str("NeverMarked"),
        TrackStatus::Outofdate { days } => {
            let mut r = String::from_str("Outofdate { days: ");
            let d = str_debug(days.as_str());
            r.append(d.as_str());
            r.append(" }");
            proof {
                reveal_strlit("Outofdate { days: ");
                reveal_strlit(" }");
                reveal_strlit("Outofdate { days: \"");
                reveal_strlit("\" }");
                if all_digits(days@) {
                    assert(r@ =~= "Outofdate { days: \""@ + days@ + "\" }"@);
                }
            }
            r
        },
    }
}

/// `<status>: <document> -> <target document>`.
pub open spec fn track_line(t: TrackStatus, doc: Seq<char>, target: Seq<char>) -> Seq<char> {
    track_status_text(t) + ": "@ + doc + " -> "@ + target
}

/// The lines for the relations of one document.
pub open spec fn relation_lines(doc: Seq<char>, rel: StrMap<TrackStatus>) -> Seq<Seq<char>> {
    Seq::new(rel.keys().len(), |i: int| track_line(rel.values()[i], doc, rel.keys()[i]))
}

/// The lines for the relations of the first `n` documents.
pub open spec fn track_lines_upto(keys: Seq<Seq<char>>, values: Seq<StrMap<TrackStatus>>, n: int) -> Seq<Seq<char>>
    decreases n,
{
    if n <= 0 {
        Seq::empty()
    } else {
        track_lines_upto(keys, values, n - 1) + relation_lines(keys[n - 1], values[n - 1])
    }
}

/// The report of the tracking relations: a line for each relation, and
/// whether there is none.
pub fn print_track_status(trackstatus: &StrMap<StrMap<TrackStatus>>) -> (r: (Vec<String>, bool))
    requires
        trackstatus.wf(),
        forall|i: int| 0 <= i < trackstatus.values().len() ==> (#[trigger] trackstatus.values()[i]).wf(),
    ensures
        crate::document::string_views(r.0@) == track_lines_upto(
            trackstatus.keys(),
            trackstatus.values(),
            trackstatus.keys().len() as int,
        ),
        r.1 == (r.0@.len() == 0),
{
    proof {
        trackstatus.lemma_wf();
    }
    let mut lines: Vec<String> = Vec::new();
    let mut status = true;
    let mut i: usize = 0;
    assert(crate::document::string_views(lines@) =~= Seq::<Seq<char>>::empty());
    while i < trackstatus.len()
        invariant
            i <= trackstatus.keys().len() == trackstatus.values().len(),
            forall|x: int| 0 <= x < trackstatus.values().len() ==> (#[trigger] trackstatus.values()[x]).wf(),
            crate::document::string_views(lines@) == track_lines_upto(trackstatus.keys(), trackstatus.values(), i as int),
            status == (lines@.len() == 0),
        decreases trackstatus.keys().len() - i,
    {
        let k = trackstatus.key_at(i);
        let v = trackstatus.value_at(i);
        assert(v.wf());
        proof {
            v.lemma_wf();
        }
        let ghost start = crate::document::string_views(lines@);
        let mut j: usize = 0;
        while j < v.len()
            invariant
                j <= v.keys().len() == v.values().len(),
                crate::document::string_views(lines@) == start + relation_lines(k@, *v).take(j as int),
                status == (lines@.len() == 0),
            decreases v.keys().len() - j,
        {
            let ti = v.key_at(j);
            let tj = v.value_at(j);
            let mut line = track_status_debug(tj);
            line.append(": ");
            line.append(k.as_str());
            line.append(" -> ");
            line.append(ti.as_str());
            let ghost before = lines@;
            lines.push(line);
            status = false;
            assert(crate::document::string_views(lines@) =~= start + relation_lines(k@, *v).take(j + 1)) by {
                assert(crate::document::string_views(lines@) =~= crate::document::string_views(before).push(
                    track_line(v.values()[j as int], k@, v.keys()[j as int]),
                ));
            }
            j = j + 1;
        }
        assert(relation_lines(k@, *v).take(v.keys().len() as int) =~= relation_lines(k@, *v));
        i = i + 1;
    }
    (lines, status)
}

/// No document has a tracking relation.
pub open spec fn no_relations(trackstatus: StrMap<StrMap<TrackStatus>>) -> bool {
    forall|i: int| 0 <= i < trackstatus.values().len() ==> (#[trigger] trackstatus.values()[i]).keys().len() == 0
}

/// What the status report ends with when there is nothing to report.
pub open spec fn clean_message() -> Seq<char> {
    "Nothing to sync, clean working tree"@
}

/// The whole status report: the lines of the files; then, only when the
/// working tree is clean, the lines of the tracking relations; then, when
/// there is also no relation, the clean-tree message. The flag says
/// whether the message was given.
pub fn status_report(
    snapshots: &StrMap<String>,
    filestatus: &StrMap<FileStatus>,
    trackstatus: &StrMap<StrMap<TrackStatus>>,
) -> (r: (Vec<String>, bool))
    requires
        snapshots.wf(),
        filestatus.wf(),
        trackstatus.wf(),
        forall|i: int| 0 <= i < trackstatus.values().len() ==> (#[trigger] trackstatus.values()[i]).wf(),
    ensures
        r.1 == (tree_clean(snapshots@, filestatus@) && no_relations(*trackstatus)),
        forall|k: Seq<char>| #[trigger] snapshots@.contains_key(k) && !filestatus@.contains_key(k) ==> !r.1,
        forall|k: Seq<char>| #[trigger] filestatus@.contains_key(k) && filestatus@[k] != FileStatus::Unchanged ==> !r.1,
        crate::document::string_views(r.0@) == snapshot_lines_upto(
            snapshots.keys(),
            filestatus@,
            snapshots.keys().len() as int,
        ) + added_lines_upto(filestatus.keys(), filestatus.values(), filestatus.keys().len() as int) + (
        if tree_clean(snapshots@, filestatus@) {
            track_lines_upto(trackstatus.keys(), trackstatus.values(), trackstatus.keys().len() as int)
        } else {
            Seq::<Seq<char>>::empty()
        }) + (if r.1 {
            seq![clean_message()]
        } else {
            Seq::<Seq<char>>::empty()
        }),
{
    let (mut lines, mut clean) = print_file_status(snapshots, filestatus);
    let ghost file_lines = crate::document::string_views(lines@);
    if clean {
        let (track_lines, tracks_clean) = print_track_status(trackstatus);
        proof {
            trackstatus.lemma_wf();
            lemma_track_lines_empty(trackstatus.keys(), trackstatus.values(), trackstatus.keys().len() as int);
        }
        let ghost tl = crate::document::string_views(track_lines@);
        let mut i: usize = 0;
        while i < track_lines.len()
            invariant
                i <= track_lines@.len(),
                tl == crate::document::string_views(track_lines@),
                crate::document::string_views(lines@) == file_lines + tl.take(i as int),
            decreases track_lines@.len() - i,
        {
            let ghost before = lines@;
            lines.push(track_lines[i].clone());
            assert(crate::document::string_views(lines@) =~= crate::document::string_views(before).push(tl[i as int]));
            assert(tl.take(i + 1) =~= tl.take(i as int).push(tl[i as int]));
            i = i + 1;
        }
        assert(tl.take(tl.len() as int) =~= tl);
        clean = tracks_clean;
    } else {
        assert(file_lines + Seq::<Seq<char>>::empty() =~= file_lines);
    }
    if clean {
        let ghost before = lines@;
        lines.push(String::from_str("Nothing to sync, clean working tree"));
        assert(crate::document::string_views(lines@) =~= crate::document::string_views(before).push(clean_message()));
    }
    assert(crate::document::string_views(lines@) =~= file_lines + (if tree_clean(snapshots@, filestatus@) {
        track_lines_upto(trackstatus.keys(), trackstatus.values(), trackstatus.keys().len() as int)
    } else {
        Seq::<Seq<char>>::empty()
    }) + (if clean {
        seq![clean_message()]
    } else {
        Seq::<Seq<char>>::empty()
    }));
    (lines, clean)
}

/// The relation lines of the first `n` documents are none exactly when
/// none of them has a relation.
proof fn lemma_track_lines_empty(keys: Seq<Seq<char>>, values: Seq<StrMap<TrackStatus>>, n: int)
    requires
        0 <= n <= values.len(),
    ensures
        (track_lines_upto(keys, values, n).len() == 0) <==> (forall|i: int| 0 <= i < n ==> (
        #[trigger] values[i]).keys().len() == 0),
    decreases n,
{
    if n > 0 {
        lemma_track_lines_empty(keys, values, n - 1);
        assert(relation_lines(keys[n - 1], values[n - 1]).len() == values[n - 1].keys().len());
    }
}

/// A snapshotted file that has no status any more is reported as removed,
/// and the working tree is then not clean.
pub proof fn lemma_gone_file_reported(snapshots: StrMap<String>, filestatus: StrMap<FileStatus>, k: Seq<char>)
    requires
        snapshots.wf(),
        snapshots@.contains_key(k),
        !filestatus@.contains_key(k),
    ensures
        !tree_clean(snapshots@, filestatus@),
        snapshot_lines_upto(snapshots.keys(), filestatus@, snapshots.keys().len() as int).contains(
            status_line(FileStatus::Removed, k),
        ),
{
    snapshots.lemma_wf();
    let keys = snapshots.keys();
    let j = keys.index_of(k);
    assert(keys.contains(k));
    assert(keys[j] == k);
    let lines = snapshot_lines_upto(keys, filestatus@, j + 1);
    assert(lines[lines.len() - 1] == status_line(FileStatus::Removed, k));
    assert(lines.contains(status_line(FileStatus::Removed, k)));
    lemma_snapshot_lines_grow(keys, filestatus@, j + 1, keys.len() as int);
}

/// A file whose status is not unchanged keeps the tree from being clean; it
/// is reported with its status when it has a snapshot, and as added when it
/// is new.
pub proof fn lemma_changed_file_reported(snapshots: StrMap<String>, filestatus: StrMap<FileStatus>, k: Seq<char>)
    requires
        snapshots.wf(),
        filestatus.wf(),
        filestatus@.contains_key(k),
        filestatus@[k] != FileStatus::Unchanged,
    ensures
        !tree_clean(snapshots@, filestatus@),
        snapshots@.contains_key(k) ==> snapshot_lines_upto(
            snapshots.keys(),
            filestatus@,
            snapshots.keys().len() as int,
        ).contains(status_line(filestatus@[k], k)),
        filestatus@[k] == FileStatus::Added ==> added_lines_upto(
            filestatus.keys(),
            filestatus.values(),
            filestatus.keys().len() as int,
        ).contains(status_line(FileStatus::Added, k)),
{
    snapshots.lemma_wf();
    filestatus.lemma_wf();
    if snapshots@.contains_key(k) {
        let keys = snapshots.keys();
        let j = keys.index_of(k);
        assert(keys.contains(k));
        assert(keys[j] == k);
        let lines = snapshot_lines_upto(keys, filestatus@, j + 1);
        assert(lines[lines.len() - 1] == status_line(filestatus@[k], k));
        assert(lines.contains(status_line(filestatus@[k], k)));
        lemma_snapshot_lines_grow(keys, filestatus@, j + 1, keys.len() as int);
    }
    if filestatus@[k] == FileStatus::Added {
        let fk = filestatus.keys();
        let j = fk.index_of(k);
        assert(fk.contains(k));
        assert(fk[j] == k);
        filestatus.lemma_entry(j);
        let lines = added_lines_upto(fk, filestatus.values(), j + 1);
        assert(lines[lines.len() - 1] == status_line(FileStatus::Added, k));
        assert(lines.contains(status_line(FileStatus::Added, k)));
        lemma_added_lines_grow(fk, filestatus.values(), j + 1, fk.len() as int);
    }
}

/// Every line of the file report is about a file that changed: a
/// snapshotted file reported with its status, which is not unchanged, or as
/// removed when it has no status; or a file reported as added that has the
/// status added.
pub proof fn lemma_file_lines_only_changes(snapshots: StrMap<String>, filestatus: StrMap<FileStatus>, line: Seq<char>)
    requires
        snapshots.wf(),
        filestatus.wf(),
        snapshot_lines_upto(snapshots.keys(), filestatus@, snapshots.keys().len() as int).contains(line)
            || added_lines_upto(filestatus.keys(), filestatus.values(), filestatus.keys().len() as int).contains(line),
    ensures
        (exists|k: Seq<char>| #[trigger] status_line(FileStatus::Removed, k) == line && snapshots@.contains_key(k)
            && !filestatus@.contains_key(k)) || (exists|k: Seq<char>| #[trigger] filestatus@.contains_key(k)
            && filestatus@[k] != FileStatus::Unchanged && line == status_line(filestatus@[k], k)),
{
    snapshots.lemma_wf();
    filestatus.lemma_wf();
    if snapshot_lines_upto(snapshots.keys(), filestatus@, snapshots.keys().len() as int).contains(line) {
        lemma_snapshot_line_source(snapshots, filestatus@, snapshots.keys().len() as int, line);
    } else {
        lemma_added_line_source(filestatus, filestatus.keys().len() as int, line);
    }
}

proof fn lemma_snapshot_line_source(snapshots: StrMap<String>, filestatus: Map<Seq<char>, FileStatus>, n: int, line: Seq<char>)
    requires
        snapshots.wf(),
        0 <= n <= snapshots.keys().len(),
        snapshot_lines_upto(snapshots.keys(), filestatus, n).contains(line),
    ensures
        (exists|k: Seq<char>| #[trigger] status_line(FileStatus::Removed, k) == line && snapshots@.contains_key(k)
            && !filestatus.contains_key(k)) || (exists|k: Seq<char>| #[trigger] filestatus.contains_key(k)
            && filestatus[k] != FileStatus::Unchanged && line == status_line(filestatus[k], k)),
    decreases n,
{
    let keys = snapshots.keys();
    if n <= 0 {
        assert(snapshot_lines_upto(keys, filestatus, n).len() == 0);
    } else {
        let prev = snapshot_lines_upto(keys, filestatus, n - 1);
        let cur = snapshot_lines_upto(keys, filestatus, n);
        let k = keys[n - 1];
        snapshots.lemma_entry(n - 1);
        if prev.contains(line) {
            lemma_snapshot_line_source(snapshots, filestatus, n - 1, line);
        } else {
            let z = choose|z: int| 0 <= z < cur.len() && cur[z] == line;
            if cur.len() == prev.len() {
                assert(cur == prev);
                assert(prev[z] == line);
            } else {
                assert(z == prev.len());
                if filestatus.contains_key(k) {
                    assert(line == status_line(filestatus[k], k));
                } else {
                    assert(status_line(FileStatus::Removed, k) == line);
                }
            }
        }
    }
}

proof fn lemma_added_line_source(filestatus: StrMap<FileStatus>, n: int, line: Seq<char>)
    requires
        filestatus.wf(),
        0 <= n <= filestatus.keys().len(),
        added_lines_upto(filestatus.keys(), filestatus.values(), n).contains(line),
    ensures
        exists|k: Seq<char>| #[trigger] filestatus@.contains_key(k) && filestatus@[k] != FileStatus::Unchanged
            && line == status_line(filestatus@[k], k),
    decreases n,
{
    filestatus.lemma_wf();
    let keys = filestatus.keys();
    let values = filestatus.values();
    if n <= 0 {
        assert(added_lines_upto(keys, values, n).len() == 0);
    } else {
        let prev = added_lines_upto(keys, values, n - 1);
        let cur = added_lines_upto(keys, values, n);
        let k = keys[n - 1];
        filestatus.lemma_entry(n - 1);
        if prev.contains(line) {
            lemma_added_line_source(filestatus, n - 1, line);
        } else {
            let z = choose|z: int| 0 <= z < cur.len() && cur[z] == line;
            if cur.len() == prev.len() {
                assert(cur == prev);
                assert(prev[z] == line);
            } else {
                assert(z == prev.len());
                assert(filestatus@.contains_key(k));
                assert(line == status_line(filestatus@[k], k));
            }
        }
    }
}

/// A line for one of the first `m` snapshotted files stays in the report.
proof fn lemma_snapshot_lines_grow(keys: Seq<Seq<char>>, filestatus: Map<Seq<char>, FileStatus>, m: int, n: int)
    requires
        0 <= m <= n <= keys.len(),
    ensures
        forall|x: Seq<char>| #[trigger] snapshot_lines_upto(keys, filestatus, m).contains(x)
            ==> snapshot_lines_upto(keys, filestatus, n).contains(x),
    decreases n - m,
{
    if m < n {
        lemma_snapshot_lines_grow(keys, filestatus, m, n - 1);
        let prev = snapshot_lines_upto(keys, filestatus, n - 1);
        let cur = snapshot_lines_upto(keys, filestatus, n);
        assert forall|x: Seq<char>| prev.contains(x) implies cur.contains(x) by {
            let i = choose|i: int| 0 <= i < prev.len() && prev[i] == x;
            assert(cur[i] == x);
        }
    }
}

/// A line for one of the first `m` files with a status stays in the report.
proof fn lemma_added_lines_grow(keys: Seq<Seq<char>>, values: Seq<FileStatus>, m: int, n: int)
    requires
        0 <= m <= n <= keys.len(),
        n <= values.len(),
    ensures
        forall|x: Seq<char>| #[trigger] added_lines_upto(keys, values, m).contains(x) ==> added_lines_upto(
            keys,
            values,
            n,
        ).contains(x),
    decreases n - m,
{
    if m < n {
        lemma_added_lines_grow(keys, values, m, n - 1);
        let prev = added_lines_upto(keys, values, n - 1);
        let cur = added_lines_upto(keys, values, n);
        assert forall|x: Seq<char>| prev.contains(x) implies cur.contains(x) by {
            let i = choose|i: int| 0 <= i < prev.len() && prev[i] == x;
            assert(cur[i] == x);
        }
    }
}

/// A clean working tree prints no file line: when no file has a status
/// other than unchanged and none is gone, there is nothing to report.
pub proof fn lemma_clean_tree_prints_nothing(snapshots: StrMap<String>, filestatus: StrMap<FileStatus>)
    requires
        snapshots.wf(),
        filestatus.wf(),
        !(exists|k: Seq<char>| #[trigger] filestatus@.contains_key(k) && filestatus@[k] != FileStatus::Unchanged),
        !(exists|k: Seq<char>| #[trigger] snapshots@.contains_key(k) && !filestatus@.contains_key(k)),
    ensures
        snapshot_lines_upto(snapshots.keys(), filestatus@, snapshots.keys().len() as int).len() == 0,
        added_lines_upto(filestatus.keys(), filestatus.values(), filestatus.keys().len() as int).len() == 0,
{
    snapshots.lemma_wf();
    filestatus.lemma_wf();
    lemma_snapshot_lines_empty(snapshots, filestatus, snapshots.keys().len() as int);
    lemma_added_lines_empty(filestatus, filestatus.keys().len() as int);
}

proof fn lemma_snapshot_lines_empty(snapshots: StrMap<String>, filestatus: StrMap<FileStatus>, n: int)
    requires
        snapshots.wf(),
        0 <= n <= snapshots.keys().len(),
        !(exists|k: Seq<char>| #[trigger] filestatus@.contains_key(k) && filestatus@[k] != FileStatus::Unchanged),
        !(exists|k: Seq<char>| #[trigger] snapshots@.contains_key(k) && !filestatus@.contains_key(k)),
    ensures
        snapshot_lines_upto(snapshots.keys(), filestatus@, n).len() == 0,
    decreases n,
{
    if n > 0 {
        lemma_snapshot_lines_empty(snapshots, filestatus, n - 1);
        snapshots.lemma_entry(n - 1);
        let k = snapshots.keys()[n - 1];
        assert(snapshots@.contains_key(k));
        assert(filestatus@.contains_key(k));
    }
}

proof fn lemma_added_lines_empty(filestatus: StrMap<FileStatus>, n: int)
    requires
        filestatus.wf(),
        0 <= n <= filestatus.keys().len(),
        !(exists|k: Seq<char>| #[trigger] filestatus@.contains_key(k) && filestatus@[k] != FileStatus::Unchanged),
    ensures
        added_lines_upto(filestatus.keys(), filestatus.values(), n).len() == 0,
    decreases n,
{
    if n > 0 {
        lemma_added_lines_empty(filestatus, n - 1);
        filestatus.lemma_entry(n - 1);
        let k = filestatus.keys()[n - 1];
        assert(filestatus@.contains_key(k));
    }
}

} // verus!
