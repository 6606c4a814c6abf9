//! Bringing the store up to date with the files on disk.
//!
//! An update matches each file found on disk with what the store knew of it,
//! hashes the files that are new or whose modification time changed, and
//! builds the new store. Hashing reads the files, so it happens between
//! [`match_files`] and [`update_store`].

use vstd::prelude::*;
use crate::store::{entry_view, entry_views, first_names, insert_all, lemma_entries_map, ItemView, Store, StoreItem};
use crate::path_order::{components, Comp};
use crate::text::copy_range;

verus! {

/// The abstract value of a file found on disk.
pub struct FileStatView {
    pub name: Seq<u8>,
    pub timestamp: i64,
}

/// A file found on disk: its path relative to the root, and its modification
/// time in seconds since the epoch.
#[derive(Debug)]
pub struct FileStat {
    pub name: Vec<u8>,
    pub timestamp: i64,
}

impl View for FileStat {
    type V = FileStatView;

    open spec fn view(&self) -> FileStatView {
        FileStatView { name: self.name@, timestamp: self.timestamp }
    }
}

/// Options of the update command.
#[derive(Debug, Clone, Copy)]
pub struct UpdateOpts {
    /// Report files that are gone and leave them out of the store.
    pub deleted: bool,
}

/// What an update found for one file.
#[derive(Debug, Clone, Copy, PartialEq, Eq)]
pub enum Change {
    /// New on disk.
    Added,
    /// Content changed.
    Updated,
    /// Modification time changed, content did not.
    Touched,
    /// Gone from disk.
    Deleted,
}

impl Change {
    /// The letter that the status line for this change starts with.
    pub fn code(&self) -> (r: u8)
        ensures
            r == change_code(*self),
    {
        match self {
            Change::Added => 65u8,
            Change::Updated => 85u8,
            Change::Touched => 84u8,
            Change::Deleted => 68u8,
        }
    }
}

/// `A`, `U`, `T` or `D`.
pub open spec fn change_code(c: Change) -> u8 {
    match c {
        Change::Added => 65u8,
        Change::Updated => 85u8,
        Change::Touched => 84u8,
        Change::Deleted => 68u8,
    }
}

pub open spec fn file_views(v: Seq<FileStat>) -> Seq<FileStatView> {
    Seq::new(v.len(), |i: int| v[i]@)
}

pub open spec fn item_option(o: Option<StoreItem>) -> Option<ItemView> {
    match o {
        Some(it) => Some(it@),
        None => None,
    }
}

pub open spec fn bytes_option(o: Option<Vec<u8>>) -> Option<Seq<u8>> {
    match o {
        Some(b) => Some(b@),
        None => None,
    }
}

pub open spec fn pair_views(v: Seq<(FileStat, Option<StoreItem>)>) -> Seq<(FileStatView, Option<ItemView>)> {
    Seq::new(v.len(), |i: int| (v[i].0@, item_option(v[i].1)))
}

pub open spec fn sha_views(v: Seq<Option<Vec<u8>>>) -> Seq<Option<Seq<u8>>> {
    Seq::new(v.len(), |i: int| bytes_option(v[i]))
}

/// What is left of the store once the entries of `files` have been taken out, in turn,
/// each under the components of the file's name.
pub open spec fn pending(store: Map<Seq<Comp>, ItemView>, files: Seq<FileStatView>) -> Map<Seq<Comp>, ItemView>
    decreases files.len(),
{
    if files.len() == 0 {
        store
    } else {
        pending(store, files.drop_last()).remove(components(files.last().name))
    }
}

/// What the store held for the `i`-th file when its turn came.
pub open spec fn found_for(store: Map<Seq<Comp>, ItemView>, files: Seq<FileStatView>, i: int) -> Option<ItemView> {
    let m = pending(store, files.take(i));
    if m.contains_key(components(files[i].name)) {
        Some(m[components(files[i].name)])
    } else {
        None
    }
}

/// A file needs hashing when it is new or its modification time changed.
pub open spec fn needs_sha_spec(f: FileStatView, found: Option<ItemView>) -> bool {
    match found {
        None => true,
        Some(it) => it.timestamp != f.timestamp,
    }
}

/// The new entry for a file and the change to report, given what the store
/// held and the file's sha where it was hashed.
pub open spec fn resolve(f: FileStatView, found: Option<ItemView>, sha: Option<Seq<u8>>) -> ((Seq<u8>, ItemView), Option<Change>) {
    match found {
        None => ((f.name, ItemView { sha: sha->0, timestamp: f.timestamp, seen: true }), Some(Change::Added)),
        Some(it) => if it.timestamp == f.timestamp {
            ((f.name, ItemView { sha: it.sha, timestamp: it.timestamp, seen: true }), None)
        } else if sha->0 != it.sha {
            ((f.name, ItemView { sha: sha->0, timestamp: f.timestamp, seen: true }), Some(Change::Updated))
        } else {
            ((f.name, ItemView { sha: it.sha, timestamp: f.timestamp, seen: true }), Some(Change::Touched))
        },
    }
}

/// Every file that needs hashing has its sha.
pub open spec fn shas_cover(pairs: Seq<(FileStatView, Option<ItemView>)>, shas: Seq<Option<Seq<u8>>>) -> bool {
    &&& shas.len() == pairs.len()
    &&& forall|i: int| 0 <= i < pairs.len() && needs_sha_spec(#[trigger] pairs[i].0, pairs[i].1) ==> shas[i] is Some
}

/// The new entries, one for each file, in order.
pub open spec fn resolved_entries(pairs: Seq<(FileStatView, Option<ItemView>)>, shas: Seq<Option<Seq<u8>>>) -> Seq<(Seq<u8>, ItemView)> {
    Seq::new(pairs.len(), |i: int| resolve(pairs[i].0, pairs[i].1, shas[i]).0)
}

/// The changes to report for the files, in order.
pub open spec fn resolved_changes(pairs: Seq<(FileStatView, Option<ItemView>)>, shas: Seq<Option<Seq<u8>>>) -> Seq<(Seq<u8>, Change)>
    decreases pairs.len(),
{
    if pairs.len() == 0 {
        seq![]
    } else {
        let n = pairs.len() - 1;
        let prev = resolved_changes(pairs.drop_last(), shas.take(n));
        match resolve(pairs[n].0, pairs[n].1, shas[n]).1 {
            Some(c) => prev.push((pairs[n].0.name, c)),
            None => prev,
        }
    }
}

/// A `Deleted` report for each entry, in order.
pub open spec fn deleted_changes(es: Seq<(Seq<u8>, ItemView)>) -> Seq<(Seq<u8>, Change)> {
    Seq::new(es.len(), |i: int| (es[i].0, Change::Deleted))
}

/// A hidden entry of a directory walk, which the walk does not enter: its
/// file name is valid UTF-8, longer than one byte and starts with `.`.
pub open spec fn is_hidden_spec(file_name: Seq<u8>) -> bool {
    vstd::utf8::valid_utf8(file_name) && file_name.len() > 1 && file_name[0] == 46u8
}

/// Whether the walk skips an entry with this file name.
pub fn is_hidden(file_name: &[u8]) -> (r: bool)
    ensures
        r == is_hidden_spec(file_name@),
{
    file_name.len() > 1 && file_name[0] == 46u8 && crate::text::is_utf8(file_name)
}

/// Takes each file's entry out of the store, in turn: the files paired with
/// what the store held for them, and what is left of the store.
pub fn match_files(store: Store, files: Vec<FileStat>) -> (r: (Vec<(FileStat, Option<StoreItem>)>, Store))
    requires
        store.wf(),
    ensures
        r.1.wf(),
        pair_views(r.0@).len() == files@.len(),
        forall|i: int| 0 <= i < files@.len() ==> (#[trigger] pair_views(r.0@)[i]).0 == files@[i]@
            && pair_views(r.0@)[i].1 == found_for(store@, file_views(files@), i),
        r.1@ == pending(store@, file_views(files@)),
        r.1.names() == store.names().restrict(r.1@.dom()),
{
    let ghost fs = file_views(files@);
    let ghost orig = store@;
    let ghost orig_names = store.names();
    let mut map = store.into_map();
    proof {
        lemma_entries_map(store.entry_seq());
        assert(orig_names =~= orig_names.restrict(map@.dom()));
    }
    let mut pairs: Vec<(FileStat, Option<StoreItem>)> = Vec::new();
    let mut rest = files;
    let ghost n = fs.len();
    let mut rev: Vec<FileStat> = Vec::new();
    while rest.len() > 0
        invariant
            rest@.len() + rev@.len() == n,
            forall|i: int| 0 <= i < rest@.len() ==> (#[trigger] rest@[i])@ == fs[i],
            forall|i: int| 0 <= i < rev@.len() ==> (#[trigger] rev@[i])@ == fs[n - 1 - i],
        decreases rest@.len(),
    {
        let f = rest.pop().unwrap();
        rev.push(f);
    }
    proof {
        assert(fs.take(0) == Seq::<FileStatView>::empty());
    }
    while rev.len() > 0
        invariant
            map.wf(),
            n == fs.len(),
            pairs@.len() + rev@.len() == n,
            forall|i: int| 0 <= i < rev@.len() ==> (#[trigger] rev@[i])@ == fs[n - 1 - i],
            forall|i: int| 0 <= i < pairs@.len() ==> (#[trigger] pair_views(pairs@)[i]).0 == fs[i]
                && pair_views(pairs@)[i].1 == found_for(orig, fs, i),
            map@ == pending(orig, fs.take(pairs@.len() as int)),
            map.names() == orig_names.restrict(map@.dom()),
        decreases rev@.len(),
    {
        let k = pairs.len();
        let f = rev.pop().unwrap();
        assert(f@ == fs[k as int]);
        let ghost names0 = map.names();
        let ghost dom0 = map@.dom();
        let found = map.remove(f.name.as_slice());
        proof {
            assert(orig_names.restrict(dom0).remove(components(f.name@)) =~= orig_names.restrict(map@.dom()));
            let t = fs.take(k + 1);
            assert(t.drop_last() == fs.take(k as int));
            assert(t.last() == fs[k as int]);
        }
        let ghost before = pairs@;
        pairs.push((f, found));
        proof {
            assert forall|i: int| 0 <= i < pairs@.len() implies (#[trigger] pair_views(pairs@)[i]).0 == fs[i]
                && pair_views(pairs@)[i].1 == found_for(orig, fs, i) by {
                if i < k {
                    assert(pairs@[i] == before[i]);
                    assert(pair_views(before)[i] == pair_views(pairs@)[i]);
                }
            }
        }
    }
    proof {
        assert(fs.take(n as int) == fs);
    }
    (pairs, Store::from_map(map))
}

/// Whether the file must be hashed: it is new, or its modification time changed.
pub fn needs_sha(file: &FileStat, found: &Option<StoreItem>) -> (r: bool)
    ensures
        r == needs_sha_spec(file@, item_option(*found)),
{
    match found {
        None => true,
        Some(item) => item.timestamp != file.timestamp,
    }
}

/// The entry for a file new on disk: its sha and modification time, seen.
pub fn added_file(filestat: FileStat, sha: Vec<u8>) -> (r: (Vec<u8>, StoreItem))
    ensures
        entry_view(r) == resolve(filestat@, None, Some(sha@)).0,
{
    (filestat.name, StoreItem { sha, timestamp: filestat.timestamp, seen: true })
}

/// The entry for a file the store knew: seen; where the modification time
/// changed, the new time, and the new sha where the content changed. Also the
/// change to report.
pub fn compare_file(item: StoreItem, filestat: FileStat, sha: Option<Vec<u8>>) -> (r: (Vec<u8>, StoreItem, Option<Change>))
    requires
        item.timestamp != filestat.timestamp ==> sha is Some,
    ensures
        ((r.0@, r.1@), r.2) == resolve(filestat@, Some(item@), bytes_option(sha)),
{
    let mut item = item;
    item.seen = true;
    if item.timestamp == filestat.timestamp {
        return (filestat.name, item, None);
    }
    item.timestamp = filestat.timestamp;
    let new_sha = sha.unwrap();
    if !crate::text::bytes_equal(item.sha.as_slice(), new_sha.as_slice()) {
        item.sha = new_sha;
        (filestat.name, item, Some(Change::Updated))
    } else {
        (filestat.name, item, Some(Change::Touched))
    }
}

/// Builds the updated store from the matched files and their shas: an entry for
/// each file, in turn; then, without `deleted`, the entries that are left, as
/// they were; with `deleted`, a `Deleted` report for each of those instead.
/// Also the changes to report, in order.
pub fn update_store(
    opts: &UpdateOpts,
    pairs: Vec<(FileStat, Option<StoreItem>)>,
    shas: Vec<Option<Vec<u8>>>,
    remaining: Store,
) -> (r: (Store, Vec<(Vec<u8>, Change)>))
    requires
        remaining.wf(),
        shas_cover(pair_views(pairs@), sha_views(shas@)),
    ensures
        r.0.wf(),
        r.0@ == if opts.deleted {
            insert_all(resolved_entries(pair_views(pairs@), sha_views(shas@)))
        } else {
            insert_all(resolved_entries(pair_views(pairs@), sha_views(shas@))).union_prefer_right(remaining@)
        },
        r.0.names() == if opts.deleted {
            first_names(resolved_entries(pair_views(pairs@), sha_views(shas@)))
        } else {
            remaining.names().union_prefer_right(first_names(resolved_entries(pair_views(pairs@), sha_views(shas@))))
        },
        change_views(r.1@) == resolved_changes(pair_views(pairs@), sha_views(shas@)) + if opts.deleted {
            deleted_changes(remaining.entry_seq())
        } else {
            Seq::<(Seq<u8>, Change)>::empty()
        },
{
    let ghost ps = pair_views(pairs@);
    let ghost ss = sha_views(shas@);
    let mut entries: Vec<(Vec<u8>, StoreItem)> = Vec::new();
    let mut changes: Vec<(Vec<u8>, Change)> = Vec::new();
    let mut pairs = pairs;
    let mut shas = shas;
    let n = pairs.len();
    let mut prs: Vec<(FileStat, Option<StoreItem>)> = Vec::new();
    let mut shs: Vec<Option<Vec<u8>>> = Vec::new();
    while pairs.len() > 0
        invariant
            pairs@.len() + prs@.len() == n,
            shas@.len() == pairs@.len(),
            shs@.len() == prs@.len(),
            n == ps.len(),
            n == ss.len(),
            forall|i: int| 0 <= i < pairs@.len() ==> (#[trigger] pair_views(pairs@)[i]) == ps[i],
            forall|i: int| 0 <= i < pairs@.len() ==> (#[trigger] sha_views(shas@)[i]) == ss[i],
            forall|i: int| 0 <= i < prs@.len() ==> (#[trigger] pair_views(prs@)[i]) == ps[n - 1 - i],
            forall|i: int| 0 <= i < prs@.len() ==> (#[trigger] sha_views(shs@)[i]) == ss[n - 1 - i],
        decreases pairs@.len(),
    {
        let m = pairs.len();
        let ghost pairs0 = pairs@;
        let ghost shas0 = shas@;
        let p = pairs.pop().unwrap();
        let s = shas.pop().unwrap();
        proof {
            assert(pair_views(pairs0)[m - 1] == ps[m - 1]);
            assert(sha_views(shas0)[m - 1] == ss[m - 1]);
            assert(pairs0 == pairs@.push(p));
            assert(shas0 == shas@.push(s));
        }
        let ghost pb = prs@;
        let ghost sb = shs@;
        prs.push(p);
        shs.push(s);
        proof {
            assert forall|i: int| 0 <= i < prs@.len() implies (#[trigger] pair_views(prs@)[i]) == ps[n - 1 - i] by {
                if i < pb.len() {
                    assert(pair_views(pb)[i] == pair_views(prs@)[i]);
                }
            }
            assert forall|i: int| 0 <= i < shs@.len() implies (#[trigger] sha_views(shs@)[i]) == ss[n - 1 - i] by {
                if i < sb.len() {
                    assert(sha_views(sb)[i] == sha_views(shs@)[i]);
                }
            }
            assert forall|i: int| 0 <= i < pairs@.len() implies (#[trigger] pair_views(pairs@)[i]) == ps[i] by {
                assert(pair_views(pairs@)[i] == pair_views(pairs@.push(p))[i]);
            }
            assert forall|i: int| 0 <= i < pairs@.len() implies (#[trigger] sha_views(shas@)[i]) == ss[i] by {
                assert(sha_views(shas@)[i] == sha_views(shas@.push(s))[i]);
            }
        }
    }
    proof {
        assert(ps.take(0) == Seq::<(FileStatView, Option<ItemView>)>::empty());
        assert(entry_views(entries@) =~= resolved_entries(ps.take(0), ss.take(0)));
        assert(change_views(changes@) =~= Seq::<(Seq<u8>, Change)>::empty());
    }
    let mut k: usize = 0;
    while prs.len() > 0
        invariant
            prs@.len() == shs@.len(),
            k + prs@.len() == n,
            n == ps.len(),
            n == ss.len(),
            shas_cover(ps, ss),
            forall|i: int| 0 <= i < prs@.len() ==> (#[trigger] pair_views(prs@)[i]) == ps[n - 1 - i],
            forall|i: int| 0 <= i < prs@.len() ==> (#[trigger] sha_views(shs@)[i]) == ss[n - 1 - i],
            entry_views(entries@) == resolved_entries(ps.take(k as int), ss.take(k as int)),
            change_views(changes@) == resolved_changes(ps.take(k as int), ss.take(k as int)),
        decreases prs@.len(),
    {
        let m = prs.len();
        let ghost prs0 = prs@;
        let ghost shs0 = shs@;
        let (file, found) = prs.pop().unwrap();
        let sha = shs.pop().unwrap();
        proof {
            assert(pair_views(prs0)[m - 1] == ps[k as int]);
            assert(sha_views(shs0)[m - 1] == ss[k as int]);
            assert(prs0 == prs@.push((file, found)));
            assert(shs0 == shs@.push(sha));
            assert(file@ == ps[k as int].0);
            assert(item_option(found) == ps[k as int].1);
            assert(bytes_option(sha) == ss[k as int]);
            assert forall|i: int| 0 <= i < prs@.len() implies (#[trigger] pair_views(prs@)[i]) == ps[n - 1 - i] by {
                assert(pair_views(prs@)[i] == pair_views(prs@.push((file, found)))[i]);
            }
            assert forall|i: int| 0 <= i < shs@.len() implies (#[trigger] sha_views(shs@)[i]) == ss[n - 1 - i] by {
                assert(sha_views(shs@)[i] == sha_views(shs@.push(sha))[i]);
            }
        }
        let ghost fv = file@;
        let ghost expected = resolve(ps[k as int].0, ps[k as int].1, ss[k as int]);
        let ghost eb = entry_views(entries@);
        let ghost cb = change_views(changes@);
        match found {
            None => {
                let name = copy_range(file.name.as_slice(), 0, file.name.len());
                assert(file.name@.subrange(0, file.name@.len() as int) == file.name@);
                let entry = added_file(file, sha.unwrap());
                entries.push(entry);
                changes.push((name, Change::Added));
            },
            Some(item) => {
                let name = copy_range(file.name.as_slice(), 0, file.name.len());
                assert(file.name@.subrange(0, file.name@.len() as int) == file.name@);
                let (key, item, change) = compare_file(item, file, sha);
                entries.push((key, item));
                match change {
                    Some(c) => {
                        changes.push((name, c));
                    },
                    None => {},
                }
            },
        }
        proof {
            let pt = ps.take(k + 1);
            let st = ss.take(k + 1);
            assert(pt.drop_last() == ps.take(k as int));
            assert(st.take(k as int) == ss.take(k as int));
            assert(pt[k as int] == ps[k as int]);
            assert(st[k as int] == ss[k as int]);
            assert(entry_views(entries@) =~= eb.push(expected.0));
            assert(resolved_entries(pt, st) =~= resolved_entries(ps.take(k as int), ss.take(k as int)).push(expected.0));
            match expected.1 {
                Some(c) => {
                    assert(change_views(changes@) =~= cb.push((fv.name, c)));
                },
                None => {
                    assert(change_views(changes@) =~= cb);
                },
            }
        }
        k = k + 1;
    }
    proof {
        assert(ps.take(n as int) == ps);
        assert(ss.take(n as int) == ss);
    }
    let mut updated = Store::from_entries(entries);
    if opts.deleted {
        let rest = remaining.files().entries();
        let mut i: usize = 0;
        let ghost cb = change_views(changes@);
        while i < rest.len()
            invariant
                entry_views(rest@) == remaining.entry_seq(),
                i <= rest@.len(),
                change_views(changes@) == cb + deleted_changes(remaining.entry_seq().take(i as int)),
            decreases rest@.len() - i,
        {
            let name = copy_range(rest[i].0.as_slice(), 0, rest[i].0.len());
            proof {
                assert(rest[i as int].0@.subrange(0, rest[i as int].0@.len() as int) == rest[i as int].0@);
                assert(remaining.entry_seq()[i as int] == entry_view(rest@[i as int]));
            }
            let ghost before = change_views(changes@);
            changes.push((name, Change::Deleted));
            proof {
                assert(change_views(changes@) =~= before.push((name@, Change::Deleted)));
                assert(deleted_changes(remaining.entry_seq().take(i + 1)) =~= deleted_changes(remaining.entry_seq().take(i as int)).push((name@, Change::Deleted)));
            }
            i = i + 1;
        }
        proof {
            assert(remaining.entry_seq().take(rest@.len() as int) == remaining.entry_seq());
        }
        (updated, changes)
    } else {
        let mut map = updated.into_map();
        map.extend(remaining.into_map());
        proof {
            assert(change_views(changes@) =~= change_views(changes@) + Seq::<(Seq<u8>, Change)>::empty());
        }
        (Store::from_map(map), changes)
    }
}

pub open spec fn change_views(v: Seq<(Vec<u8>, Change)>) -> Seq<(Seq<u8>, Change)> {
    Seq::new(v.len(), |i: int| (v[i].0@, v[i].1))
}

/// The files paired with what the store held for each, as `match_files` pairs them.
pub open spec fn matched(store: Map<Seq<Comp>, ItemView>, files: Seq<FileStatView>) -> Seq<(FileStatView, Option<ItemView>)> {
    Seq::new(files.len(), |i: int| (files[i], found_for(store, files, i)))
}

/// The store after an update of `store` with `files` whose shas are `shas`.
pub open spec fn updated_map(
    deleted: bool,
    store: Map<Seq<Comp>, ItemView>,
    files: Seq<FileStatView>,
    shas: Seq<Option<Seq<u8>>>,
) -> Map<Seq<Comp>, ItemView> {
    let es = resolved_entries(matched(store, files), shas);
    if deleted {
        insert_all(es)
    } else {
        insert_all(es).union_prefer_right(pending(store, files))
    }
}

/// No two files have the same path.
pub open spec fn names_distinct(files: Seq<FileStatView>) -> bool {
    forall|i: int, j: int| 0 <= i < files.len() && 0 <= j < files.len() && i != j
        ==> components((#[trigger] files[i]).name) != components((#[trigger] files[j]).name)
}

/// Some file has the path `k`.
pub open spec fn has_name(files: Seq<FileStatView>, k: Seq<Comp>) -> bool {
    exists|j: int| 0 <= j < files.len() && components((#[trigger] files[j]).name) == k
}

pub proof fn lemma_pending(store: Map<Seq<Comp>, ItemView>, files: Seq<FileStatView>)
    ensures
        forall|k: Seq<Comp>| #[trigger] pending(store, files).contains_key(k) <==> store.contains_key(k) && !has_name(files, k),
        forall|k: Seq<Comp>| #[trigger] pending(store, files).contains_key(k) ==> pending(store, files)[k] == store[k],
    decreases files.len(),
{
    if files.len() > 0 {
        let prev = files.drop_last();
        let kl = components(files.last().name);
        lemma_pending(store, prev);
        assert(pending(store, files) == pending(store, prev).remove(kl));
        assert forall|k: Seq<Comp>| #[trigger] pending(store, files).contains_key(k) <==> store.contains_key(k) && !has_name(files, k) by {
            if has_name(prev, k) {
                let j = choose|j: int| 0 <= j < prev.len() && components((#[trigger] prev[j]).name) == k;
                assert(files[j] == prev[j]);
            }
            if has_name(files, k) && k != kl {
                let j = choose|j: int| 0 <= j < files.len() && components((#[trigger] files[j]).name) == k;
                assert(prev[j] == files[j]);
            }
            if k == kl {
                assert(components(files[files.len() - 1].name) == k);
            }
        }
    }
}

proof fn lemma_found_for_distinct(store: Map<Seq<Comp>, ItemView>, files: Seq<FileStatView>, i: int)
    requires
        names_distinct(files),
        0 <= i < files.len(),
    ensures
        found_for(store, files, i) == (if store.contains_key(components(files[i].name)) {
            Some(store[components(files[i].name)])
        } else {
            None::<ItemView>
        }),
{
    let t = files.take(i);
    lemma_pending(store, t);
    if has_name(t, components(files[i].name)) {
        let j = choose|j: int| 0 <= j < t.len() && components((#[trigger] t[j]).name) == components(files[i].name);
        assert(files[j] == t[j]);
    }
}

/// In entries with distinct keys, each key maps to its entry.
pub proof fn lemma_insert_all(es: Seq<(Seq<u8>, ItemView)>)
    ensures
        forall|k: Seq<Comp>| #[trigger] insert_all(es).contains_key(k) <==> exists|i: int| 0 <= i < es.len() && components((#[trigger] es[i]).0) == k,
        (forall|i: int, j: int| 0 <= i < es.len() && 0 <= j < es.len() && i != j ==> components((#[trigger] es[i]).0) != components((#[trigger] es[j]).0))
            ==> forall|i: int| 0 <= i < es.len() ==> insert_all(es)[components((#[trigger] es[i]).0)] == es[i].1,
    decreases es.len(),
{
    if es.len() > 0 {
        let prev = es.drop_last();
        let kl = components(es.last().0);
        lemma_insert_all(prev);
        assert(insert_all(es) == insert_all(prev).insert(kl, es.last().1));
        assert forall|k: Seq<Comp>| #[trigger] insert_all(es).contains_key(k) <==> exists|i: int| 0 <= i < es.len() && components((#[trigger] es[i]).0) == k by {
            if exists|i: int| 0 <= i < prev.len() && components((#[trigger] prev[i]).0) == k {
                let i = choose|i: int| 0 <= i < prev.len() && components((#[trigger] prev[i]).0) == k;
                assert(es[i] == prev[i]);
            }
            if exists|i: int| 0 <= i < es.len() && components((#[trigger] es[i]).0) == k {
                let i = choose|i: int| 0 <= i < es.len() && components((#[trigger] es[i]).0) == k;
                if i < es.len() - 1 {
                    assert(prev[i] == es[i]);
                }
            }
            if k == kl {
                assert(components(es[es.len() - 1].0) == k);
            }
        }
        if forall|i: int, j: int| 0 <= i < es.len() && 0 <= j < es.len() && i != j ==> components((#[trigger] es[i]).0) != components((#[trigger] es[j]).0) {
            assert forall|i: int, j: int| 0 <= i < prev.len() && 0 <= j < prev.len() && i != j implies components((#[trigger] prev[i]).0) != components((#[trigger] prev[j]).0) by {
                assert(prev[i] == es[i] && prev[j] == es[j]);
            }
            assert forall|i: int| 0 <= i < es.len() implies insert_all(es)[components((#[trigger] es[i]).0)] == es[i].1 by {
                if i < es.len() - 1 {
                    assert(prev[i] == es[i]);
                    assert(components(es[i].0) != components(es[es.len() - 1].0));
                }
            }
        }
    }
}

/// The new entries have the files' names, in order.
proof fn lemma_resolved_names(store: Map<Seq<Comp>, ItemView>, files: Seq<FileStatView>, shas: Seq<Option<Seq<u8>>>)
    ensures
        forall|i: int| 0 <= i < files.len() ==> (#[trigger] resolved_entries(matched(store, files), shas)[i]).0 == files[i].name,
        resolved_entries(matched(store, files), shas).len() == files.len(),
{
}

/// After an update every file on disk is in the store, seen, with its
/// modification time (file paths being distinct, as a directory walk gives them).
pub proof fn law_update_records_every_file(
    deleted: bool,
    store: Map<Seq<Comp>, ItemView>,
    files: Seq<FileStatView>,
    shas: Seq<Option<Seq<u8>>>,
)
    requires
        names_distinct(files),
        shas_cover(matched(store, files), shas),
    ensures
        forall|i: int| 0 <= i < files.len() ==> {
            let m = updated_map(deleted, store, files, shas);
            &&& m.contains_key(components((#[trigger] files[i]).name))
            &&& m[components(files[i].name)].seen
            &&& m[components(files[i].name)].timestamp == files[i].timestamp
        },
{
    let es = resolved_entries(matched(store, files), shas);
    lemma_resolved_names(store, files, shas);
    assert forall|i: int, j: int| 0 <= i < es.len() && 0 <= j < es.len() && i != j implies components((#[trigger] es[i]).0) != components((#[trigger] es[j]).0) by {
        assert(es[i].0 == files[i].name);
        assert(es[j].0 == files[j].name);
    }
    lemma_insert_all(es);
    lemma_pending(store, files);
    assert forall|i: int| 0 <= i < files.len() implies {
        let m = updated_map(deleted, store, files, shas);
        &&& m.contains_key(components((#[trigger] files[i]).name))
        &&& m[components(files[i].name)].seen
        &&& m[components(files[i].name)].timestamp == files[i].timestamp
    } by {
        assert(es[i].0 == files[i].name);
        assert(has_name(files, components(files[i].name)));
    }
}

/// After an update the store holds the files on disk; without `deleted` also
/// the entries of files that are gone, unchanged.
pub proof fn law_update_keys(
    deleted: bool,
    store: Map<Seq<Comp>, ItemView>,
    files: Seq<FileStatView>,
    shas: Seq<Option<Seq<u8>>>,
)
    ensures
        forall|k: Seq<Comp>| #[trigger] updated_map(deleted, store, files, shas).contains_key(k) <==>
            (has_name(files, k) || (!deleted && store.contains_key(k))),
        !deleted ==> forall|k: Seq<Comp>| store.contains_key(k) && !has_name(files, k)
            ==> #[trigger] updated_map(deleted, store, files, shas)[k] == store[k],
{
    let es = resolved_entries(matched(store, files), shas);
    lemma_resolved_names(store, files, shas);
    lemma_insert_all(es);
    lemma_pending(store, files);
    assert forall|k: Seq<Comp>| #[trigger] updated_map(deleted, store, files, shas).contains_key(k) <==>
        (has_name(files, k) || (!deleted && store.contains_key(k))) by {
        if has_name(files, k) {
            let j = choose|j: int| 0 <= j < files.len() && components((#[trigger] files[j]).name) == k;
            assert(components(es[j].0) == k);
        }
        if exists|i: int| 0 <= i < es.len() && components((#[trigger] es[i]).0) == k {
            let i = choose|i: int| 0 <= i < es.len() && components((#[trigger] es[i]).0) == k;
            assert(components(files[i].name) == k);
        }
    }
}

/// A file whose modification time did not change keeps the sha the store had
/// for it: it is not hashed again.
pub proof fn law_unchanged_file_keeps_sha(
    deleted: bool,
    store: Map<Seq<Comp>, ItemView>,
    files: Seq<FileStatView>,
    shas: Seq<Option<Seq<u8>>>,
    i: int,
)
    requires
        names_distinct(files),
        0 <= i < files.len(),
        store.contains_key(components(files[i].name)),
        store[components(files[i].name)].timestamp == files[i].timestamp,
    ensures
        !needs_sha_spec(files[i], found_for(store, files, i)),
        updated_map(deleted, store, files, shas)[components(files[i].name)].sha == store[components(files[i].name)].sha,
{
    let es = resolved_entries(matched(store, files), shas);
    lemma_resolved_names(store, files, shas);
    lemma_found_for_distinct(store, files, i);
    assert forall|a: int, b: int| 0 <= a < es.len() && 0 <= b < es.len() && a != b implies components((#[trigger] es[a]).0) != components((#[trigger] es[b]).0) by {
        assert(es[a].0 == files[a].name);
        assert(es[b].0 == files[b].name);
    }
    lemma_insert_all(es);
    lemma_pending(store, files);
    assert(es[i].0 == files[i].name);
    assert(has_name(files, components(files[i].name)));
}

/// A walk skips an entry exactly when its file name is valid UTF-8, longer
/// than one byte and starts with `.`; a name starting with any other byte is
/// never skipped.
pub proof fn law_hidden_means_leading_dot(n: Seq<u8>)
    ensures
        is_hidden_spec(n) ==> n.len() > 1 && n[0] == 46u8,
        vstd::utf8::valid_utf8(n) && n.len() > 1 && n[0] == 46u8 ==> is_hidden_spec(n),
        n.len() > 0 && n[0] != 46u8 ==> !is_hidden_spec(n),
{
}

/// How one file is brought up to date. A new file is hashed and reported
/// `Added`. A stored file whose modification time differs from the stored
/// one, earlier or later, is hashed again: where the hash changed, the entry
/// takes the new hash and the disk time and is reported `Updated`; where it
/// did not, the entry keeps its hash, takes the disk time and is reported
/// `Touched`. A stored file with the same time is not hashed, keeps its entry
/// and is not reported. Every entry is marked seen.
pub proof fn law_each_file_is_resolved(f: FileStatView, it: ItemView, sha: Seq<u8>, any: Option<Seq<u8>>)
    ensures
        needs_sha_spec(f, None),
        resolve(f, None, Some(sha)) == ((f.name, ItemView { sha: sha, timestamp: f.timestamp, seen: true }), Some(Change::Added)),
        needs_sha_spec(f, Some(it)) == (it.timestamp != f.timestamp),
        it.timestamp != f.timestamp && sha != it.sha ==> resolve(f, Some(it), Some(sha))
            == ((f.name, ItemView { sha: sha, timestamp: f.timestamp, seen: true }), Some(Change::Updated)),
        it.timestamp != f.timestamp && sha == it.sha ==> resolve(f, Some(it), Some(sha))
            == ((f.name, ItemView { sha: it.sha, timestamp: f.timestamp, seen: true }), Some(Change::Touched)),
        it.timestamp == f.timestamp ==> resolve(f, Some(it), any)
            == ((f.name, ItemView { sha: it.sha, timestamp: it.timestamp, seen: true }), None::<Change>),
{
}

/// After an update, a stored file whose modification time changed (earlier
/// or later) and whose content hashes differently was hashed, and the store
/// holds its new hash and disk time, seen (file paths being distinct, as a
/// directory walk gives them).
pub proof fn law_changed_file_takes_new_hash(
    deleted: bool,
    store: Map<Seq<Comp>, ItemView>,
    files: Seq<FileStatView>,
    shas: Seq<Option<Seq<u8>>>,
    i: int,
)
    requires
        names_distinct(files),
        0 <= i < files.len(),
        i < shas.len(),
        store.contains_key(components(files[i].name)),
        store[components(files[i].name)].timestamp != files[i].timestamp,
        shas[i] is Some,
        shas[i]->0 != store[components(files[i].name)].sha,
    ensures
        needs_sha_spec(files[i], found_for(store, files, i)),
        updated_map(deleted, store, files, shas)[components(files[i].name)]
            == (ItemView { sha: shas[i]->0, timestamp: files[i].timestamp, seen: true }),
        resolve(files[i], found_for(store, files, i), shas[i]).1 == Some(Change::Updated),
{
    let es = resolved_entries(matched(store, files), shas);
    lemma_resolved_names(store, files, shas);
    lemma_found_for_distinct(store, files, i);
    assert forall|a: int, b: int| 0 <= a < es.len() && 0 <= b < es.len() && a != b implies components((#[trigger] es[a]).0) != components((#[trigger] es[b]).0) by {
        assert(es[a].0 == files[a].name);
        assert(es[b].0 == files[b].name);
    }
    lemma_insert_all(es);
    lemma_pending(store, files);
    assert(es[i].0 == files[i].name);
    assert(has_name(files, components(files[i].name)));
}

} // verus!
