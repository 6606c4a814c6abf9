//! Deciding what a synchronisation does: compare the destination store with
//! the source store and list the actions that make the destination like it.

use vstd::prelude::*;
use crate::store::{entry_view, entry_views, lemma_entries_map, lemma_sorted_keys_distinct, has_key, keys_of, ItemView, Store, StoreItem};
use crate::path_order::{components, Comp};
use crate::text::{append_bytes, bytes_equal, copy_range};

verus! {

/// What to do with one file.
#[derive(Debug, Clone, Copy, PartialEq, Eq)]
pub enum Action {
    Add,
    Remove,
    Touch,
    Update,
}

/// The letter that stands for an action in status lines.
pub open spec fn action_code(a: Action) -> char {
    match a {
        Action::Add => 'A',
        Action::Remove => 'R',
        Action::Touch => 'T',
        Action::Update => 'U',
    }
}

impl Action {
    /// The letter that stands for the action: `A`, `R`, `T` or `U`.
    pub fn get_code(&self) -> (r: char)
        ensures
            r == action_code(*self),
    {
        match *self {
            Action::Add => 'A',
            Action::Remove => 'R',
            Action::Touch => 'T',
            Action::Update => 'U',
        }
    }
}

/// A list of actions: each with the file's path and the modification time to give it.
pub type Actions = Vec<(Vec<u8>, i64, Action)>;

pub open spec fn action_views(v: Seq<(Vec<u8>, i64, Action)>) -> Seq<(Seq<u8>, i64, Action)> {
    Seq::new(v.len(), |i: int| (v[i].0@, v[i].1, v[i].2))
}

/// What a source item calls for at the destination: `Update` where the content
/// differs, `Touch` where only the modification time does, nothing otherwise.
pub open spec fn compare_items_spec(sitem: ItemView, ditem: ItemView) -> Option<Action> {
    if sitem.sha != ditem.sha {
        Some(Action::Update)
    } else if sitem.timestamp != ditem.timestamp {
        Some(Action::Touch)
    } else {
        None
    }
}

/// Compares a source item with the destination's item for the same file.
pub fn compare_items(sitem: &StoreItem, ditem: &StoreItem) -> (r: Option<Action>)
    ensures
        r == compare_items_spec(sitem@, ditem@),
{
    if !bytes_equal(sitem.sha.as_slice(), ditem.sha.as_slice()) {
        Some(Action::Update)
    } else if sitem.timestamp != ditem.timestamp {
        Some(Action::Touch)
    } else {
        None
    }
}

/// The action that a source entry calls for, given the destination.
pub open spec fn action_for(e: (Seq<u8>, ItemView), dest: Map<Seq<Comp>, ItemView>) -> Option<Action> {
    if dest.contains_key(components(e.0)) {
        compare_items_spec(e.1, dest[components(e.0)])
    } else {
        Some(Action::Add)
    }
}

/// The actions for the source entries `src`, in order: one for each entry
/// that is missing at the destination or differs there, with the source's
/// modification time.
pub open spec fn actions_spec(src: Seq<(Seq<u8>, ItemView)>, dest: Map<Seq<Comp>, ItemView>) -> Seq<(Seq<u8>, i64, Action)>
    decreases src.len(),
{
    if src.len() == 0 {
        seq![]
    } else {
        let e = src.last();
        let prev = actions_spec(src.drop_last(), dest);
        match action_for(e, dest) {
            Some(a) => prev.push((e.0, e.1.timestamp, a)),
            None => prev,
        }
    }
}

/// A `Remove`, with time 0, for each destination entry that the source lacks, in order.
pub open spec fn removes_spec(dest: Seq<(Seq<u8>, ItemView)>, src: Map<Seq<Comp>, ItemView>) -> Seq<(Seq<u8>, i64, Action)>
    decreases dest.len(),
{
    if dest.len() == 0 {
        seq![]
    } else {
        let e = dest.last();
        let prev = removes_spec(dest.drop_last(), src);
        if src.contains_key(components(e.0)) {
            prev
        } else {
            prev.push((e.0, 0i64, Action::Remove))
        }
    }
}

/// Compares the destination store with the source store: the actions that
/// bring the files of the source to the destination, in the source's path
/// order, and the removals of the destination's files that the source lacks,
/// in the destination's path order.
pub fn get_actions(dest: Store, src: Store) -> (r: (Actions, Actions))
    requires
        dest.wf(),
        src.wf(),
    ensures
        action_views(r.0@) == actions_spec(src.entry_seq(), dest@),
        action_views(r.1@) == removes_spec(dest.entry_seq(), src@),
{
    let ses = src.files().entries();
    let des = dest.files().entries();
    let ghost s = src.entry_seq();
    let ghost d = dest.entry_seq();
    let mut actions: Actions = Vec::new();
    let mut i: usize = 0;
    proof {
        assert(s.take(0) == Seq::<(Seq<u8>, ItemView)>::empty());
        assert(action_views(actions@) =~= Seq::<(Seq<u8>, i64, Action)>::empty());
    }
    while i < ses.len()
        invariant
            entry_views(ses@) == s,
            entry_views(des@) == d,
            dest.wf(),
            d == dest.entry_seq(),
            i <= ses@.len(),
            action_views(actions@) == actions_spec(s.take(i as int), dest@),
        decreases ses@.len() - i,
    {
        let name = &ses[i].0;
        let sitem = &ses[i].1;
        proof {
            assert(s[i as int] == entry_view(ses@[i as int]));
            let t = s.take(i + 1);
            assert(t.drop_last() == s.take(i as int));
            assert(t.last() == s[i as int]);
        }
        let action = match dest.files().get(name.as_slice()) {
            None => Some(Action::Add),
            Some(ditem) => compare_items(sitem, ditem),
        };
        let ghost before = action_views(actions@);
        match action {
            Some(a) => {
                let n = copy_range(name.as_slice(), 0, name.len());
                assert(name@.subrange(0, name@.len() as int) == name@);
                actions.push((n, sitem.timestamp, a));
                assert(action_views(actions@) =~= before.push((name@, sitem.timestamp, a)));
            },
            None => {},
        }
        i = i + 1;
    }
    proof {
        assert(s.take(s.len() as int) == s);
    }
    let mut removes: Actions = Vec::new();
    let mut j: usize = 0;
    proof {
        assert(d.take(0) == Seq::<(Seq<u8>, ItemView)>::empty());
        assert(action_views(removes@) =~= Seq::<(Seq<u8>, i64, Action)>::empty());
    }
    while j < des.len()
        invariant
            entry_views(des@) == d,
            src.wf(),
            j <= des@.len(),
            action_views(removes@) == removes_spec(d.take(j as int), src@),
        decreases des@.len() - j,
    {
        let name = &des[j].0;
        proof {
            assert(d[j as int] == entry_view(des@[j as int]));
            let t = d.take(j + 1);
            assert(t.drop_last() == d.take(j as int));
            assert(t.last() == d[j as int]);
        }
        let ghost before = action_views(removes@);
        if src.files().get(name.as_slice()).is_none() {
            let n = copy_range(name.as_slice(), 0, name.len());
            assert(name@.subrange(0, name@.len() as int) == name@);
            removes.push((n, 0i64, Action::Remove));
            assert(action_views(removes@) =~= before.push((name@, 0i64, Action::Remove)));
        }
        j = j + 1;
    }
    proof {
        assert(d.take(d.len() as int) == d);
    }
    (actions, removes)
}

/// The status line for an action: its letter, a space and the path.
pub open spec fn action_line_spec(a: Action, name: Seq<u8>) -> Seq<u8> {
    seq![action_code(a) as u8, 32u8] + name
}

/// The status line for an action on a file.
pub fn status_line(action: Action, name: &[u8]) -> (r: Vec<u8>)
    ensures
        r@ == action_line_spec(action, name@),
{
    let mut out: Vec<u8> = Vec::new();
    let code: u8 = match action {
        Action::Add => 65u8,
        Action::Remove => 82u8,
        Action::Touch => 84u8,
        Action::Update => 85u8,
    };
    out.push(code);
    out.push(32u8);
    append_bytes(&mut out, name);
    out
}

/// The status lines that a dry run shows, one for each action, in order.
pub fn show_actions(actions: &Actions) -> (r: Vec<Vec<u8>>)
    ensures
        r@.len() == actions@.len(),
        forall|i: int| 0 <= i < actions@.len() ==> (#[trigger] r@[i])@ == action_line_spec(actions@[i].2, actions@[i].0@),
{
    let mut out: Vec<Vec<u8>> = Vec::new();
    let mut i: usize = 0;
    while i < actions.len()
        invariant
            i <= actions@.len(),
            out@.len() == i,
            forall|k: int| 0 <= k < i ==> (#[trigger] out@[k])@ == action_line_spec(actions@[k].2, actions@[k].0@),
        decreases actions@.len() - i,
    {
        let line = status_line(actions[i].2, actions[i].0.as_slice());
        out.push(line);
        i = i + 1;
    }
    out
}

/// What a pull does for an action, on the local side.
#[derive(Debug, Clone, Copy, PartialEq, Eq)]
pub enum PullStep {
    /// Download the file and give it the action's modification time.
    Fetch,
    /// Delete the local file.
    DeleteLocal,
    /// Give the local file the action's modification time.
    SetTime,
}

/// What a push does for an action, on the remote side.
#[derive(Debug, Clone, Copy, PartialEq, Eq)]
pub enum PushStep {
    /// Upload the file.
    Upload,
    /// Delete the remote file.
    DeleteRemote,
    /// Give the remote file the action's modification time.
    SetTime,
}

impl Action {
    /// The local step that pulling this action takes.
    pub fn pull_step(&self) -> (r: PullStep)
        ensures
            r == (match *self {
                Action::Add | Action::Update => PullStep::Fetch,
                Action::Remove => PullStep::DeleteLocal,
                Action::Touch => PullStep::SetTime,
            }),
    {
        match *self {
            Action::Add | Action::Update => PullStep::Fetch,
            Action::Remove => PullStep::DeleteLocal,
            Action::Touch => PullStep::SetTime,
        }
    }

    /// The remote step that pushing this action takes.
    pub fn push_step(&self) -> (r: PushStep)
        ensures
            r == (match *self {
                Action::Add | Action::Update => PushStep::Upload,
                Action::Remove => PushStep::DeleteRemote,
                Action::Touch => PushStep::SetTime,
            }),
    {
        match *self {
            Action::Add | Action::Update => PushStep::Upload,
            Action::Remove => PushStep::DeleteRemote,
            Action::Touch => PushStep::SetTime,
        }
    }
}

/// What performing one action does to the destination's files: an added or
/// updated file takes the source's content and the action's time, a touched
/// file keeps its content and takes the action's time, a removed file goes.
pub open spec fn apply_action(
    m: Map<Seq<Comp>, ItemView>,
    src: Map<Seq<Comp>, ItemView>,
    act: (Seq<u8>, i64, Action),
) -> Map<Seq<Comp>, ItemView> {
    let k = components(act.0);
    match act.2 {
        Action::Add | Action::Update => m.insert(k, ItemView { sha: src[k].sha, timestamp: act.1, seen: src[k].seen }),
        Action::Touch => m.insert(k, ItemView { sha: m[k].sha, timestamp: act.1, seen: m[k].seen }),
        Action::Remove => m.remove(k),
    }
}

/// Performs the actions in order.
pub open spec fn apply_actions(
    m: Map<Seq<Comp>, ItemView>,
    src: Map<Seq<Comp>, ItemView>,
    acts: Seq<(Seq<u8>, i64, Action)>,
) -> Map<Seq<Comp>, ItemView>
    decreases acts.len(),
{
    if acts.len() == 0 {
        m
    } else {
        apply_actions(apply_action(m, src, acts[0]), src, acts.drop_first())
    }
}

/// The same files with the same content and modification times.
pub open spec fn same_files(a: Map<Seq<Comp>, ItemView>, b: Map<Seq<Comp>, ItemView>) -> bool {
    &&& forall|k: Seq<Comp>| #[trigger] a.contains_key(k) <==> b.contains_key(k)
    &&& forall|k: Seq<Comp>| #[trigger] a.contains_key(k) ==> a[k].sha == b[k].sha && a[k].timestamp == b[k].timestamp
}

proof fn lemma_apply_concat(
    m: Map<Seq<Comp>, ItemView>,
    src: Map<Seq<Comp>, ItemView>,
    a: Seq<(Seq<u8>, i64, Action)>,
    b: Seq<(Seq<u8>, i64, Action)>,
)
    ensures
        apply_actions(m, src, a + b) == apply_actions(apply_actions(m, src, a), src, b),
    decreases a.len(),
{
    if a.len() == 0 {
        assert(a + b == b);
    } else {
        assert((a + b)[0] == a[0]);
        assert((a + b).drop_first() == a.drop_first() + b);
        lemma_apply_concat(apply_action(m, src, a[0]), src, a.drop_first(), b);
    }
}

proof fn lemma_apply_one(m: Map<Seq<Comp>, ItemView>, src: Map<Seq<Comp>, ItemView>, act: (Seq<u8>, i64, Action))
    ensures
        apply_actions(m, src, seq![act]) == apply_action(m, src, act),
{
    assert(seq![act].drop_first() =~= Seq::<(Seq<u8>, i64, Action)>::empty());
    assert(seq![act][0] == act);
    let m1 = apply_action(m, src, act);
    assert(apply_actions(m1, src, Seq::<(Seq<u8>, i64, Action)>::empty()) == m1);
}

/// After the actions for the first `n` source entries: those files are as in
/// the source; every other file is as it was at the destination.
proof fn lemma_actions_prefix(src: Store, dest: Map<Seq<Comp>, ItemView>, n: int)
    requires
        src.wf(),
        0 <= n <= src.entry_seq().len(),
    ensures
        ({
            let es = src.entry_seq();
            let m = apply_actions(dest, src@, actions_spec(es.take(n), dest));
            &&& forall|k: Seq<Comp>| #[trigger] has_key(es.take(n), k) ==> m.contains_key(k) && m[k].sha == src@[k].sha
                && m[k].timestamp == src@[k].timestamp
            &&& forall|k: Seq<Comp>| !has_key(es.take(n), k) ==> (#[trigger] m.contains_key(k) <==> dest.contains_key(k))
            &&& forall|k: Seq<Comp>| !has_key(es.take(n), k) && dest.contains_key(k) ==> #[trigger] m[k] == dest[k]
        }),
    decreases n,
{
    let es = src.entry_seq();
    lemma_entries_map(es);
    if n == 0 {
        assert(es.take(0) =~= Seq::<(Seq<u8>, ItemView)>::empty());
        assert(actions_spec(es.take(0), dest) == Seq::<(Seq<u8>, i64, Action)>::empty());
    } else {
        lemma_actions_prefix(src, dest, n - 1);
        let t = es.take(n);
        let p = es.take(n - 1);
        assert(t.drop_last() == p);
        let e = es[n - 1];
        assert(t.last() == e);
        let m0 = apply_actions(dest, src@, actions_spec(p, dest));
        let ke = components(e.0);
        assert(keys_of(es)[n - 1] == ke);
        assert(src@[ke] == e.1);
        assert(!has_key(p, ke)) by {
            if has_key(p, ke) {
                let j = choose|j: int| 0 <= j < p.len() && #[trigger] keys_of(p)[j] == ke;
                assert(es[j] == p[j]);
                assert(keys_of(es)[j] == keys_of(p)[j]);
                lemma_sorted_keys_distinct(es, j, n - 1);
            }
        }
        let m = apply_actions(dest, src@, actions_spec(t, dest));
        match action_for(e, dest) {
            Some(a) => {
                lemma_apply_concat(dest, src@, actions_spec(p, dest), seq![(e.0, e.1.timestamp, a)]);
                assert(actions_spec(p, dest).push((e.0, e.1.timestamp, a)) == actions_spec(p, dest) + seq![(e.0, e.1.timestamp, a)]);
                lemma_apply_one(m0, src@, (e.0, e.1.timestamp, a));
                assert(m == apply_action(m0, src@, (e.0, e.1.timestamp, a)));
            },
            None => {
                assert(m == m0);
            },
        }
        assert forall|k: Seq<Comp>| #[trigger] has_key(t, k) implies m.contains_key(k) && m[k].sha == src@[k].sha
            && m[k].timestamp == src@[k].timestamp by {
            let j = choose|j: int| 0 <= j < t.len() && #[trigger] keys_of(t)[j] == k;
            if j < n - 1 {
                assert(p[j] == t[j]);
                assert(keys_of(p)[j] == keys_of(t)[j]);
                assert(has_key(p, k));
            } else {
                assert(t[j] == e);
            }
        }
        assert forall|k: Seq<Comp>| !has_key(t, k) implies (#[trigger] m.contains_key(k) <==> dest.contains_key(k)) by {
            assert(keys_of(t)[n - 1] == components(e.0));
            if has_key(p, k) {
                let j = choose|j: int| 0 <= j < p.len() && #[trigger] keys_of(p)[j] == k;
                assert(t[j] == p[j]);
                assert(keys_of(t)[j] == keys_of(p)[j]);
            }
        }
        assert forall|k: Seq<Comp>| !has_key(t, k) && dest.contains_key(k) implies #[trigger] m[k] == dest[k] by {
            assert(keys_of(t)[n - 1] == components(e.0));
            if has_key(p, k) {
                let j = choose|j: int| 0 <= j < p.len() && #[trigger] keys_of(p)[j] == k;
                assert(t[j] == p[j]);
                assert(keys_of(t)[j] == keys_of(p)[j]);
            }
        }
    }
}

/// Removing the destination's files that the source lacks, for the first `n`
/// destination entries: those go; every other file stays as it was.
proof fn lemma_removes_prefix(dest: Store, src: Map<Seq<Comp>, ItemView>, m: Map<Seq<Comp>, ItemView>, n: int)
    requires
        dest.wf(),
        0 <= n <= dest.entry_seq().len(),
    ensures
        ({
            let es = dest.entry_seq();
            let r = apply_actions(m, src, removes_spec(es.take(n), src));
            &&& forall|k: Seq<Comp>| #[trigger] r.contains_key(k) <==> m.contains_key(k) && !(has_key(es.take(n), k) && !src.contains_key(k))
            &&& forall|k: Seq<Comp>| #[trigger] r.contains_key(k) ==> r[k] == m[k]
        }),
    decreases n,
{
    let es = dest.entry_seq();
    if n == 0 {
        assert(es.take(0) =~= Seq::<(Seq<u8>, ItemView)>::empty());
        assert(removes_spec(es.take(0), src) == Seq::<(Seq<u8>, i64, Action)>::empty());
        assert forall|k: Seq<Comp>| !has_key(es.take(0), k) by {}
    } else {
        lemma_removes_prefix(dest, src, m, n - 1);
        let t = es.take(n);
        let p = es.take(n - 1);
        assert(t.drop_last() == p);
        let e = es[n - 1];
        assert(t.last() == e);
        let r0 = apply_actions(m, src, removes_spec(p, src));
        let r = apply_actions(m, src, removes_spec(t, src));
        if src.contains_key(components(e.0)) {
            assert(r == r0);
        } else {
            let act = (e.0, 0i64, Action::Remove);
            lemma_apply_concat(m, src, removes_spec(p, src), seq![act]);
            assert(removes_spec(p, src).push(act) == removes_spec(p, src) + seq![act]);
            lemma_apply_one(r0, src, act);
            assert(r == r0.remove(components(e.0)));
        }
        assert forall|k: Seq<Comp>| #[trigger] r.contains_key(k) <==> m.contains_key(k) && !(has_key(t, k) && !src.contains_key(k)) by {
            assert(keys_of(t)[n - 1] == components(e.0));
            if has_key(p, k) {
                let j = choose|j: int| 0 <= j < p.len() && #[trigger] keys_of(p)[j] == k;
                assert(t[j] == p[j]);
                assert(keys_of(t)[j] == keys_of(p)[j]);
            }
            if has_key(t, k) && k != components(e.0) {
                let j = choose|j: int| 0 <= j < t.len() && #[trigger] keys_of(t)[j] == k;
                assert(j < n - 1);
                assert(p[j] == t[j]);
                assert(keys_of(t)[j] == keys_of(p)[j]);
            }
        }
    }
}

/// A synchronisation with deletion makes the destination like the source:
/// performing the actions and then the removals leaves exactly the source's
/// files, each with the source's content and modification time.
pub proof fn law_sync_makes_destination_like_source(dest: Store, src: Store)
    requires
        dest.wf(),
        src.wf(),
    ensures
        same_files(
            apply_actions(dest@, src@, actions_spec(src.entry_seq(), dest@) + removes_spec(dest.entry_seq(), src@)),
            src@,
        ),
{
    let ses = src.entry_seq();
    let des = dest.entry_seq();
    lemma_actions_prefix(src, dest@, ses.len() as int);
    assert(ses.take(ses.len() as int) == ses);
    assert(des.take(des.len() as int) == des);
    let m = apply_actions(dest@, src@, actions_spec(ses, dest@));
    lemma_removes_prefix(dest, src@, m, des.len() as int);
    lemma_apply_concat(dest@, src@, actions_spec(ses, dest@), removes_spec(des, src@));
    lemma_entries_map(ses);
    lemma_entries_map(des);
    let r = apply_actions(m, src@, removes_spec(des, src@));
    assert forall|k: Seq<Comp>| #[trigger] r.contains_key(k) <==> src@.contains_key(k) by {
        if src@.contains_key(k) {
            assert(has_key(ses, k));
        }
        if r.contains_key(k) && !has_key(ses, k) {
            assert(dest@.contains_key(k));
            assert(has_key(des, k));
        }
    }
}

/// A synchronisation without deletion brings every source file to the
/// destination with its content and modification time, and leaves the
/// destination's other files as they were.
pub proof fn law_sync_without_delete_keeps_other_files(dest: Store, src: Store)
    requires
        dest.wf(),
        src.wf(),
    ensures
        ({
            let m = apply_actions(dest@, src@, actions_spec(src.entry_seq(), dest@));
            &&& forall|k: Seq<Comp>| #[trigger] m.contains_key(k) <==> src@.contains_key(k) || dest@.contains_key(k)
            &&& forall|k: Seq<Comp>| src@.contains_key(k) ==> #[trigger] m[k].sha == src@[k].sha && m[k].timestamp == src@[k].timestamp
            &&& forall|k: Seq<Comp>| !src@.contains_key(k) && dest@.contains_key(k) ==> #[trigger] m[k] == dest@[k]
        }),
{
    let ses = src.entry_seq();
    lemma_actions_prefix(src, dest@, ses.len() as int);
    assert(ses.take(ses.len() as int) == ses);
    lemma_entries_map(ses);
}

} // verus!
