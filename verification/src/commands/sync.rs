//! Syncing a package: which files changed since the latest snapshots, and
//! how the snapshots move on.
use vstd::prelude::*;
use sha2::Digest;
use crate::apis::sync::{SyncRequestFile, ChangeView};
use crate::document::File;
use crate::strmap::StrMap;

verus! {

/// A file's latest snapshot: the time at which it was copied into the
/// history.
#[derive(Debug, Clone)]
pub struct Snapshot {
    pub filename: String,
    pub timestamp: u128,
}

/// The SHA-256 digest of `data`.
pub uninterp spec fn sha256(data: Seq<u8>) -> Seq<u8>;

/// `sha2::Sha256::digest`: the contract names the result `sha256` of the
/// data, and states that a digest is 32 bytes long.
#[verifier::external_body]
fn sha256_digest(data: &[u8]) -> (r: Vec<u8>)
    ensures
        r@ == sha256(data@),
        r@.len() == 32,
{
    sha2::Sha256::digest(data).to_vec()
}

/// Whether two byte strings are equal.
pub fn bytes_eq(a: &[u8], b: &[u8]) -> (r: bool)
    ensures
        r == (a@ == b@),
{
    if a.len() != b.len() {
        return false;
    }
    let mut i: usize = 0;
    while i < a.len()
        invariant
            i <= a.len() == b.len(),
            forall|k: int| 0 <= k < i ==> a@[k] == b@[k],
        decreases a.len() - i,
    {
        if a[i] != b[i] {
            return false;
        }
        i = i + 1;
    }
    assert(a@ =~= b@);
    true
}

/// Whether two contents have the same SHA-256 digest.
pub fn same_digest(a: &[u8], b: &[u8]) -> (r: bool)
    ensures
        r == (sha256(a@) == sha256(b@)),
{
    let x = sha256_digest(a);
    let y = sha256_digest(b);
    bytes_eq(x.as_slice(), y.as_slice())
}

/// The changes found among the first `n` files: a file with no snapshot is
/// added; one whose content's digest differs from its snapshot's is
/// updated; the others are unchanged.
pub open spec fn changes_upto(
    ids: Seq<Seq<char>>,
    snapshots: Map<Seq<char>, u128>,
    snapshot_contents: Seq<Option<Vec<u8>>>,
    contents: Seq<Vec<u8>>,
    n: int,
) -> Seq<ChangeView>
    decreases n,
{
    if n <= 0 {
        Seq::empty()
    } else {
        let prev = changes_upto(ids, snapshots, snapshot_contents, contents, n - 1);
        let id = ids[n - 1];
        if snapshots.contains_key(id) {
            if sha256(snapshot_contents[n - 1].unwrap()@) == sha256(contents[n - 1]@) {
                prev
            } else {
                prev.push(ChangeView::Update(id, contents[n - 1]@))
            }
        } else {
            prev.push(ChangeView::Add(id, contents[n - 1]@))
        }
    }
}

/// The deletions among the first `n` snapshot keys: those no file has.
pub open spec fn deletions_upto(keys: Seq<Seq<char>>, ids: Seq<Seq<char>>, n: int) -> Seq<ChangeView>
    decreases n,
{
    if n <= 0 {
        Seq::empty()
    } else {
        let prev = deletions_upto(keys, ids, n - 1);
        if ids.contains(keys[n - 1]) {
            prev
        } else {
            prev.push(ChangeView::Delete(keys[n - 1]))
        }
    }
}

/// The ids of the files.
pub open spec fn file_ids(files: Seq<File>) -> Seq<Seq<char>> {
    Seq::new(files.len(), |i: int| files[i].id_spec())
}

/// The views of the changes.
pub open spec fn change_views(v: Seq<SyncRequestFile>) -> Seq<ChangeView> {
    Seq::new(v.len(), |i: int| v[i]@)
}

/// The changes to send: additions and updates in file order, then the
/// deletions of snapshotted files that are gone, in key order.
pub open spec fn changed_files_spec(
    files: Seq<File>,
    snapshots: StrMap<u128>,
    snapshot_contents: Seq<Option<Vec<u8>>>,
    contents: Seq<Vec<u8>>,
) -> Seq<ChangeView> {
    changes_upto(file_ids(files), snapshots@, snapshot_contents, contents, files.len() as int)
        + deletions_upto(snapshots.keys(), file_ids(files), snapshots.keys().len() as int)
}

/// Whether some file has id `id`.
fn has_file(files: &[File], id: &str) -> (r: bool)
    ensures
        r == file_ids(files@).contains(id@),
{
    let idc = crate::text::chars_of(id);
    let mut i: usize = 0;
    while i < files.len()
        invariant
            i <= files@.len(),
            idc@ == id@,
            forall|j: int| 0 <= j < i ==> file_ids(files@)[j] != id@,
        decreases files@.len() - i,
    {
        let fid = crate::text::chars_of(files[i].get_id().as_str());
        if crate::text::chars_eq(fid.as_slice(), idc.as_slice()) {
            assert(file_ids(files@)[i as int] == id@);
            return true;
        }
        i = i + 1;
    }
    false
}

/// The changes of `files` since their snapshots. `contents[i]` is the
/// current content of `files[i]`; `snapshot_contents[i]` is the content of
/// its latest snapshot, present exactly for files that have one.
pub fn get_changed_files(
    files: &[File],
    snapshots: &StrMap<u128>,
    snapshot_contents: &Vec<Option<Vec<u8>>>,
    contents: Vec<Vec<u8>>,
) -> (r: Vec<SyncRequestFile>)
    requires
        snapshots.wf(),
        snapshot_contents@.len() == files@.len(),
        contents@.len() == files@.len(),
        forall|i: int| 0 <= i < files@.len() ==> (snapshots@.contains_key(#[trigger] files@[i].id_spec())
            <==> snapshot_contents@[i] is Some),
    ensures
        change_views(r@) == changed_files_spec(files@, *snapshots, snapshot_contents@, contents@),
{
    let ghost all_contents = contents@;
    let mut contents = contents;
    let mut changed_files: Vec<SyncRequestFile> = Vec::new();
    let mut i: usize = 0;
    assert(change_views(changed_files@) =~= Seq::<ChangeView>::empty());
    while i < files.len()
        invariant
            i <= files@.len() == snapshot_contents@.len() == all_contents.len(),
            contents@ == all_contents.skip(i as int),
            snapshots.wf(),
            forall|x: int| 0 <= x < files@.len() ==> (snapshots@.contains_key(#[trigger] files@[x].id_spec())
                <==> snapshot_contents@[x] is Some),
            change_views(changed_files@) == changes_upto(
                file_ids(files@),
                snapshots@,
                snapshot_contents@,
                all_contents,
                i as int,
            ),
        decreases files@.len() - i,
    {
        let id = files[i].get_id();
        let current = contents.remove(0);
        assert(current == all_contents[i as int]);
        assert(contents@ =~= all_contents.skip(i + 1));
        assert(file_ids(files@)[i as int] == id@);
        let ghost before = changed_files@;
        if snapshots.contains_key(id.as_str()) {
            let snapshot_content = match &snapshot_contents[i] {
                Some(c) => c,
                None => vstd::pervasive::unreached(),
            };
            if !same_digest(snapshot_content.as_slice(), current.as_slice()) {
                changed_files.push(SyncRequestFile::Update { path: id, content: current });
                assert(change_views(changed_files@) =~= change_views(before).push(
                    ChangeView::Update(file_ids(files@)[i as int], all_contents[i as int]@),
                ));
            }
        } else {
            changed_files.push(SyncRequestFile::Add { path: id, content: current });
            assert(change_views(changed_files@) =~= change_views(before).push(
                ChangeView::Add(file_ids(files@)[i as int], all_contents[i as int]@),
            ));
        }
        i = i + 1;
    }
    let ghost adds = change_views(changed_files@);
    proof {
        snapshots.lemma_wf();
    }
    let mut j: usize = 0;
    assert(adds + deletions_upto(snapshots.keys(), file_ids(files@), 0) =~= adds);
    while j < snapshots.len()
        invariant
            j <= snapshots.keys().len(),
            change_views(changed_files@) == adds + deletions_upto(
                snapshots.keys(),
                file_ids(files@),
                j as int,
            ),
        decreases snapshots.keys().len() - j,
    {
        let key = snapshots.key_at(j);
        let ghost before = changed_files@;
        if !has_file(files, key.as_str()) {
            changed_files.push(SyncRequestFile::Delete { path: key.clone() });
            assert(change_views(changed_files@) =~= change_views(before).push(
                ChangeView::Delete(key@),
            ));
        }
        j = j + 1;
    }
    changed_files
}

/// The contents of a snapshot.
pub open spec fn snapshot_view(s: Snapshot) -> (Seq<char>, u128) {
    (s.filename@, s.timestamp)
}

pub open spec fn snapshot_views(v: Seq<Snapshot>) -> Seq<(Seq<char>, u128)> {
    Seq::new(v.len(), |i: int| snapshot_view(v[i]))
}

/// The file names of the snapshots.
pub open spec fn snapshot_names(v: Seq<Snapshot>) -> Seq<Seq<char>> {
    Seq::new(v.len(), |i: int| v[i].filename@)
}

/// The snapshot a file gets when the history is written at `timestamp`,
/// and whether it changed: a file whose current content has the digest of
/// its latest snapshot keeps that snapshot; any other gets a new one.
/// `current` is the file's content when it could be read; `existing` the
/// latest snapshot's content, read when the file has a snapshot and its
/// content could be read.
pub fn write_outcome(
    id: String,
    timestamp: u128,
    snapshots: &StrMap<u128>,
    current: Option<Vec<u8>>,
    existing: Option<Vec<u8>>,
) -> (r: (Snapshot, bool))
    requires
        snapshots.wf(),
        snapshots@.contains_key(id@) && current is Some ==> existing is Some,
    ensures
        ({
            let keep = snapshots@.contains_key(id@) && current is Some && sha256(current->0@) == sha256(
                existing->0@,
            );
            &&& r.0.filename == id
            &&& r.0.timestamp == (if keep { snapshots@[id@] } else { timestamp })
            &&& r.1 == !keep
        }),
{
    match snapshots.get(id.as_str()) {
        Some(old_timestamp) => {
            match (&current, &existing) {
                (Some(c), Some(e)) => {
                    if same_digest(c.as_slice(), e.as_slice()) {
                        return (Snapshot { filename: id, timestamp: *old_timestamp }, false);
                    }
                },
                _ => {},
            }
        },
        None => {},
    }
    (Snapshot { filename: id, timestamp }, true)
}

/// Adds to `new_snapshots` the earlier snapshot of every file that got no
/// new one and was not among the files synced, in key order.
pub fn carry_snapshots(new_snapshots: &mut Vec<Snapshot>, snapshots: &StrMap<u128>, files: &Vec<String>)
    requires
        snapshots.wf(),
    ensures
        snapshot_views(final(new_snapshots)@) == snapshot_views(old(new_snapshots)@) + carried_upto(
            snapshots.keys(),
            snapshots.values(),
            snapshot_names(old(new_snapshots)@),
            crate::document::string_views(files@),
            snapshots.keys().len() as int,
        ),
{
    let ghost start = new_snapshots@;
    let ghost names = snapshot_names(start);
    let ghost fv = crate::document::string_views(files@);
    let snapshot_id = names_of(new_snapshots);
    proof {
        snapshots.lemma_wf();
    }
    let mut i: usize = 0;
    assert(snapshot_views(new_snapshots@) =~= snapshot_views(start) + carried_upto(
        snapshots.keys(),
        snapshots.values(),
        names,
        fv,
        0,
    ));
    while i < snapshots.len()
        invariant
            i <= snapshots.keys().len() == snapshots.values().len(),
            crate::document::string_views(snapshot_id@) == names,
            fv == crate::document::string_views(files@),
            snapshot_views(new_snapshots@) == snapshot_views(start) + carried_upto(
                snapshots.keys(),
                snapshots.values(),
                names,
                fv,
                i as int,
            ),
        decreases snapshots.keys().len() - i,
    {
        let k = snapshots.key_at(i);
        let timestamp = *snapshots.value_at(i);
        let ghost before = new_snapshots@;
        if !contains_string(&snapshot_id, k.as_str()) && !contains_string(files, k.as_str()) {
            new_snapshots.push(Snapshot { filename: k.clone(), timestamp });
            assert(snapshot_views(new_snapshots@) =~= snapshot_views(before).push((k@, timestamp)));
        }
        i = i + 1;
    }
}

/// The earlier snapshots carried over among the first `n` entries.
pub open spec fn carried_upto(
    keys: Seq<Seq<char>>,
    values: Seq<u128>,
    renewed: Seq<Seq<char>>,
    synced: Seq<Seq<char>>,
    n: int,
) -> Seq<(Seq<char>, u128)>
    decreases n,
{
    if n <= 0 {
        Seq::empty()
    } else {
        let prev = carried_upto(keys, values, renewed, synced, n - 1);
        if !renewed.contains(keys[n - 1]) && !synced.contains(keys[n - 1]) {
            prev.push((keys[n - 1], values[n - 1]))
        } else {
            prev
        }
    }
}

/// The file names of the snapshots.
fn names_of(v: &Vec<Snapshot>) -> (r: Vec<String>)
    ensures
        crate::document::string_views(r@) == snapshot_names(v@),
{
    let mut r: Vec<String> = Vec::new();
    let mut i: usize = 0;
    while i < v.len()
        invariant
            i <= v@.len(),
            crate::document::string_views(r@) == snapshot_names(v@).take(i as int),
        decreases v@.len() - i,
    {
        let ghost before = r@;
        let name = v[i].filename.clone();
        r.push(name);
        assert(crate::document::string_views(r@) =~= crate::document::string_views(before).push(
            v@[i as int].filename@,
        ));
        i = i + 1;
        assert(crate::document::string_views(r@) =~= snapshot_names(v@).take(i as int));
    }
    assert(snapshot_names(v@).take(v@.len() as int) =~= snapshot_names(v@));
    r
}

/// Whether `v` holds the string `s`.
pub fn contains_string(v: &Vec<String>, s: &str) -> (r: bool)
    ensures
        r == crate::document::string_views(v@).contains(s@),
{
    let sc = crate::text::chars_of(s);
    let mut i: usize = 0;
    while i < v.len()
        invariant
            i <= v@.len(),
            sc@ == s@,
            forall|j: int| 0 <= j < i ==> crate::document::string_views(v@)[j] != s@,
        decreases v@.len() - i,
    {
        let c = crate::text::chars_of(v[i].as_str());
        if crate::text::chars_eq(c.as_slice(), sc.as_slice()) {
            assert(crate::document::string_views(v@)[i as int] == s@);
            return true;
        }
        i = i + 1;
    }
    false
}

/// The files whose snapshot is gone from `new_snapshots`, in key order.
pub fn removed_files(new_snapshots: &Vec<Snapshot>, snapshots: &StrMap<u128>) -> (r: Vec<String>)
    requires
        snapshots.wf(),
    ensures
        crate::document::string_views(r@) == snapshots.keys().filter(
            |k: Seq<char>| !snapshot_names(new_snapshots@).contains(k),
        ),
{
    let names = names_of(new_snapshots);
    let ghost keys = snapshots.keys();
    let ghost gone = |k: Seq<char>| !snapshot_names(new_snapshots@).contains(k);
    let mut r: Vec<String> = Vec::new();
    let mut i: usize = 0;
    assert(keys.take(0).filter(gone) =~= Seq::<Seq<char>>::empty());
    while i < snapshots.len()
        invariant
            i <= keys.len(),
            keys == snapshots.keys(),
            crate::document::string_views(names@) == snapshot_names(new_snapshots@),
            gone == (|k: Seq<char>| !snapshot_names(new_snapshots@).contains(k)),
            crate::document::string_views(r@) == keys.take(i as int).filter(gone),
        decreases keys.len() - i,
    {
        let key = snapshots.key_at(i);
        let ghost before = r@;
        proof {
            keys.take(i as int).lemma_filter_push(keys[i as int], gone);
            assert(keys.take(i + 1) =~= keys.take(i as int).push(keys[i as int]));
        }
        if !contains_string(&names, key.as_str()) {
            r.push(key.clone());
            assert(crate::document::string_views(r@) =~= crate::document::string_views(before).push(key@));
        }
        i = i + 1;
    }
    assert(keys.take(keys.len() as int) =~= keys);
    r
}

/// A snapshotted file is sent as deleted exactly when no current file has
/// its id.
pub proof fn lemma_deletions_members(keys: Seq<Seq<char>>, ids: Seq<Seq<char>>, k: Seq<char>)
    ensures
        deletions_upto(keys, ids, keys.len() as int).contains(ChangeView::Delete(k)) <==> (keys.contains(k)
            && !ids.contains(k)),
{
    lemma_deletions_upto_members(keys, ids, keys.len() as int, k);
    if keys.contains(k) {
        let j = choose|j: int| 0 <= j < keys.len() && keys[j] == k;
        assert(keys[j] == k);
    }
}

proof fn lemma_deletions_upto_members(keys: Seq<Seq<char>>, ids: Seq<Seq<char>>, n: int, k: Seq<char>)
    requires
        0 <= n <= keys.len(),
    ensures
        deletions_upto(keys, ids, n).contains(ChangeView::Delete(k)) <==> (exists|j: int| 0 <= j < n && #[trigger] keys[j] == k)
            && !ids.contains(k),
    decreases n,
{
    if n > 0 {
        lemma_deletions_upto_members(keys, ids, n - 1, k);
        let prev = deletions_upto(keys, ids, n - 1);
        let d = deletions_upto(keys, ids, n);
        if !ids.contains(keys[n - 1]) {
            assert(d == prev.push(ChangeView::Delete(keys[n - 1])));
            if d.contains(ChangeView::Delete(k)) {
                let x = choose|x: int| 0 <= x < d.len() && d[x] == ChangeView::Delete(k);
                if x < prev.len() {
                    assert(prev[x] == ChangeView::Delete(k));
                } else {
                    assert(keys[n - 1] == k);
                }
            }
            if prev.contains(ChangeView::Delete(k)) {
                let x = choose|x: int| 0 <= x < prev.len() && prev[x] == ChangeView::Delete(k);
                assert(d[x] == ChangeView::Delete(k));
            }
            if keys[n - 1] == k {
                assert(d[prev.len() as int] == ChangeView::Delete(k));
            }
        } else {
            if exists|j: int| 0 <= j < n && #[trigger] keys[j] == k {
                let j = choose|j: int| 0 <= j < n && #[trigger] keys[j] == k;
                if j == n - 1 {
                    assert(ids.contains(k));
                }
            }
        }
    }
}

/// A file with no snapshot is always sent as added, with its content.
pub proof fn lemma_unsnapshotted_added(
    ids: Seq<Seq<char>>,
    snapshots: Map<Seq<char>, u128>,
    snapshot_contents: Seq<Option<Vec<u8>>>,
    contents: Seq<Vec<u8>>,
    i: int,
)
    requires
        0 <= i < ids.len(),
        ids.len() == contents.len(),
        !snapshots.contains_key(ids[i]),
    ensures
        changes_upto(ids, snapshots, snapshot_contents, contents, ids.len() as int).contains(
            ChangeView::Add(ids[i], contents[i]@),
        ),
{
    lemma_changes_keep(ids, snapshots, snapshot_contents, contents, i + 1, ids.len() as int);
    let d = changes_upto(ids, snapshots, snapshot_contents, contents, i + 1);
    let prev = changes_upto(ids, snapshots, snapshot_contents, contents, i);
    assert(d == prev.push(ChangeView::Add(ids[i], contents[i]@)));
    assert(d[prev.len() as int] == ChangeView::Add(ids[i], contents[i]@));
    let full = changes_upto(ids, snapshots, snapshot_contents, contents, ids.len() as int);
    assert(full[prev.len() as int] == d[prev.len() as int]);
}

/// A file with a snapshot whose content's digest differs from the
/// snapshot's is sent as updated, with its content.
pub proof fn lemma_changed_updated(
    ids: Seq<Seq<char>>,
    snapshots: Map<Seq<char>, u128>,
    snapshot_contents: Seq<Option<Vec<u8>>>,
    contents: Seq<Vec<u8>>,
    i: int,
)
    requires
        0 <= i < ids.len(),
        ids.len() == contents.len(),
        snapshots.contains_key(ids[i]),
        sha256(snapshot_contents[i].unwrap()@) != sha256(contents[i]@),
    ensures
        changes_upto(ids, snapshots, snapshot_contents, contents, ids.len() as int).contains(
            ChangeView::Update(ids[i], contents[i]@),
        ),
{
    lemma_changes_keep(ids, snapshots, snapshot_contents, contents, i + 1, ids.len() as int);
    let d = changes_upto(ids, snapshots, snapshot_contents, contents, i + 1);
    let prev = changes_upto(ids, snapshots, snapshot_contents, contents, i);
    assert(d == prev.push(ChangeView::Update(ids[i], contents[i]@)));
    assert(d[prev.len() as int] == ChangeView::Update(ids[i], contents[i]@));
    let full = changes_upto(ids, snapshots, snapshot_contents, contents, ids.len() as int);
    assert(full[prev.len() as int] == d[prev.len() as int]);
}

/// Later files only add changes after the earlier ones.
proof fn lemma_changes_keep(
    ids: Seq<Seq<char>>,
    snapshots: Map<Seq<char>, u128>,
    snapshot_contents: Seq<Option<Vec<u8>>>,
    contents: Seq<Vec<u8>>,
    m: int,
    n: int,
)
    requires
        0 <= m <= n,
    ensures
        forall|x: int| 0 <= x < changes_upto(ids, snapshots, snapshot_contents, contents, m).len() ==> (
            #[trigger] changes_upto(ids, snapshots, snapshot_contents, contents, n)[x]) == changes_upto(
            ids,
            snapshots,
            snapshot_contents,
            contents,
            m,
        )[x],
        changes_upto(ids, snapshots, snapshot_contents, contents, m).len() <= changes_upto(
            ids,
            snapshots,
            snapshot_contents,
            contents,
            n,
        ).len(),
    decreases n - m,
{
    if m < n {
        lemma_changes_keep(ids, snapshots, snapshot_contents, contents, m, n - 1);
    }
}

/// The path a change is about.
pub open spec fn change_path(c: ChangeView) -> Seq<char> {
    match c {
        ChangeView::Add(p, _) => p,
        ChangeView::Update(p, _) => p,
        ChangeView::Delete(p) => p,
    }
}

/// A file whose content has the digest of its latest snapshot is not sent
/// as added or updated (files having distinct ids).
pub proof fn lemma_unchanged_not_sent(
    ids: Seq<Seq<char>>,
    snapshots: Map<Seq<char>, u128>,
    snapshot_contents: Seq<Option<Vec<u8>>>,
    contents: Seq<Vec<u8>>,
    i: int,
)
    requires
        0 <= i < ids.len(),
        forall|a: int, b: int| 0 <= a < b < ids.len() ==> #[trigger] ids[a] != #[trigger] ids[b],
        snapshots.contains_key(ids[i]),
        sha256(snapshot_contents[i].unwrap()@) == sha256(contents[i]@),
    ensures
        forall|x: int| 0 <= x < changes_upto(ids, snapshots, snapshot_contents, contents, ids.len() as int).len()
            ==> change_path(#[trigger] changes_upto(ids, snapshots, snapshot_contents, contents, ids.len() as int)[x]) != ids[i],
{
    lemma_unchanged_not_sent_upto(ids, snapshots, snapshot_contents, contents, i, ids.len() as int);
}

proof fn lemma_unchanged_not_sent_upto(
    ids: Seq<Seq<char>>,
    snapshots: Map<Seq<char>, u128>,
    snapshot_contents: Seq<Option<Vec<u8>>>,
    contents: Seq<Vec<u8>>,
    i: int,
    n: int,
)
    requires
        0 <= i < ids.len(),
        0 <= n <= ids.len(),
        forall|a: int, b: int| 0 <= a < b < ids.len() ==> #[trigger] ids[a] != #[trigger] ids[b],
        snapshots.contains_key(ids[i]),
        sha256(snapshot_contents[i].unwrap()@) == sha256(contents[i]@),
    ensures
        forall|x: int| 0 <= x < changes_upto(ids, snapshots, snapshot_contents, contents, n).len()
            ==> change_path(#[trigger] changes_upto(ids, snapshots, snapshot_contents, contents, n)[x]) != ids[i],
    decreases n,
{
    if n > 0 {
        lemma_unchanged_not_sent_upto(ids, snapshots, snapshot_contents, contents, i, n - 1);
        let prev = changes_upto(ids, snapshots, snapshot_contents, contents, n - 1);
        let d = changes_upto(ids, snapshots, snapshot_contents, contents, n);
        assert forall|x: int| 0 <= x < d.len() implies change_path(#[trigger] d[x]) != ids[i] by {
            if x < prev.len() {
                assert(d[x] == prev[x]);
            } else {
                assert(change_path(d[x]) == ids[n - 1]);
                if n - 1 < i {
                    assert(ids[n - 1] != ids[i]);
                } else if n - 1 > i {
                    assert(ids[i] != ids[n - 1]);
                }
            }
        }
    }
}

} // verus!
