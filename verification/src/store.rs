//! The store: what is known of each file, keyed by its path, kept in path order.

use vstd::prelude::*;
use crate::decimal::{decimal_digits, is_digit, law_timestamp_text_round_trip, lemma_decimal_digits, format_i64_spec, parse_i64_spec, timestamp_from_str, timestamp_to_str};
use crate::text::{lemma_ascii_valid_utf8, lemma_lines_of_render, lemma_render_concat, lemma_render_one, append_bytes, byte_index, byte_seqs, copy_range, is_utf8, lemma_byte_index_at, lines_of, render, split_lines};
use crate::path_order::{compare_keys, components, comps_lt, comps_sorted, lemma_comps_lt_irreflexive, lemma_comps_lt_trans, lemma_comps_sorted_unique, Comp, KeyOrder};

verus! {

/// The abstract value of a store item.
pub struct ItemView {
    pub sha: Seq<u8>,
    pub timestamp: i64,
    pub seen: bool,
}

/// What the store knows of one file: its SHA-1 in hex, its modification time in
/// seconds, and whether the last update saw it on disk.
#[derive(Debug)]
pub struct StoreItem {
    pub sha: Vec<u8>,
    pub timestamp: i64,
    pub seen: bool,
}

impl View for StoreItem {
    type V = ItemView;

    open spec fn view(&self) -> ItemView {
        ItemView { sha: self.sha@, timestamp: self.timestamp, seen: self.seen }
    }
}

pub open spec fn entry_view(e: (Vec<u8>, StoreItem)) -> (Seq<u8>, ItemView) {
    (e.0@, e.1@)
}

pub open spec fn entry_views(v: Seq<(Vec<u8>, StoreItem)>) -> Seq<(Seq<u8>, ItemView)> {
    Seq::new(v.len(), |i: int| entry_view(v[i]))
}

/// The key of each entry: the components of its name.
pub open spec fn keys_of(es: Seq<(Seq<u8>, ItemView)>) -> Seq<Seq<Comp>> {
    Seq::new(es.len(), |i: int| components(es[i].0))
}

pub open spec fn has_key(es: Seq<(Seq<u8>, ItemView)>, k: Seq<Comp>) -> bool {
    exists|i: int| 0 <= i < es.len() && #[trigger] keys_of(es)[i] == k
}

/// The position of key `k` in `es`, where it occurs.
pub open spec fn key_index(es: Seq<(Seq<u8>, ItemView)>, k: Seq<Comp>) -> int {
    choose|i: int| 0 <= i < es.len() && #[trigger] keys_of(es)[i] == k
}

/// The map from keys to items that a sequence of entries with distinct keys denotes.
pub open spec fn entries_map(es: Seq<(Seq<u8>, ItemView)>) -> Map<Seq<Comp>, ItemView> {
    Map::new(
        |k: Seq<Comp>| has_key(es, k),
        |k: Seq<Comp>| es[key_index(es, k)].1,
    )
}

/// The map from keys to the names they are spelled with.
pub open spec fn names_map(es: Seq<(Seq<u8>, ItemView)>) -> Map<Seq<Comp>, Seq<u8>> {
    Map::new(
        |k: Seq<Comp>| has_key(es, k),
        |k: Seq<Comp>| es[key_index(es, k)].0,
    )
}

/// The keys are in strictly increasing path order.
pub open spec fn entries_sorted(es: Seq<(Seq<u8>, ItemView)>) -> bool {
    comps_sorted(keys_of(es))
}

pub proof fn lemma_sorted_keys_distinct(es: Seq<(Seq<u8>, ItemView)>, i: int, j: int)
    requires
        entries_sorted(es),
        0 <= i < es.len(),
        0 <= j < es.len(),
        keys_of(es)[i] == keys_of(es)[j],
    ensures
        i == j,
{
    if i < j {
        assert(comps_lt(keys_of(es)[i], keys_of(es)[j]));
        lemma_comps_lt_irreflexive(keys_of(es)[i]);
    } else if j < i {
        assert(comps_lt(keys_of(es)[j], keys_of(es)[i]));
        lemma_comps_lt_irreflexive(keys_of(es)[i]);
    }
}

/// In sorted entries each key maps to the item and the name stored with it.
pub proof fn lemma_entries_map(es: Seq<(Seq<u8>, ItemView)>)
    requires
        entries_sorted(es),
    ensures
        forall|k: Seq<Comp>| entries_map(es).contains_key(k) <==> has_key(es, k),
        forall|k: Seq<Comp>| names_map(es).contains_key(k) <==> has_key(es, k),
        forall|i: int| 0 <= i < es.len() ==> entries_map(es).contains_key(#[trigger] keys_of(es)[i])
            && entries_map(es)[keys_of(es)[i]] == es[i].1 && names_map(es)[keys_of(es)[i]] == es[i].0,
{
    assert forall|i: int| 0 <= i < es.len() implies entries_map(es).contains_key(#[trigger] keys_of(es)[i])
        && entries_map(es)[keys_of(es)[i]] == es[i].1 && names_map(es)[keys_of(es)[i]] == es[i].0 by {
        let k = keys_of(es)[i];
        assert(has_key(es, k));
        let j = key_index(es, k);
        lemma_sorted_keys_distinct(es, i, j);
    }
}

proof fn lemma_insert_entry(es: Seq<(Seq<u8>, ItemView)>, idx: int, e: (Seq<u8>, ItemView))
    requires
        entries_sorted(es),
        0 <= idx <= es.len(),
        forall|i: int| 0 <= i < idx ==> comps_lt(#[trigger] keys_of(es)[i], components(e.0)),
        forall|i: int| idx <= i < es.len() ==> comps_lt(components(e.0), #[trigger] keys_of(es)[i]),
    ensures
        entries_sorted(es.insert(idx, e)),
        entries_map(es.insert(idx, e)) == entries_map(es).insert(components(e.0), e.1),
        names_map(es.insert(idx, e)) == names_map(es).insert(components(e.0), e.0),
        !entries_map(es).contains_key(components(e.0)),
{
    let ke = components(e.0);
    let es2 = es.insert(idx, e);
    let ks = keys_of(es);
    let ks2 = keys_of(es2);
    assert forall|i: int| 0 <= i < ks2.len() implies #[trigger] ks2[i] == (if i < idx { ks[i] } else if i == idx { ke } else { ks[i - 1] }) by {
        if i < idx {
            assert(es2[i] == es[i]);
        } else if i > idx {
            assert(es2[i] == es[i - 1]);
        }
    }
    assert forall|i: int, j: int| 0 <= i < j < ks2.len() implies comps_lt(#[trigger] ks2[i], #[trigger] ks2[j]) by {
        if i < idx {
            if j > idx {
                lemma_comps_lt_trans(ks[i], ke, ks[j - 1]);
            }
        }
    }
    lemma_entries_map(es);
    lemma_entries_map(es2);
    let m1 = entries_map(es).insert(ke, e.1);
    let m2 = entries_map(es2);
    let n1 = names_map(es).insert(ke, e.0);
    let n2 = names_map(es2);
    assert(!has_key(es, ke)) by {
        if has_key(es, ke) {
            let i = choose|i: int| 0 <= i < es.len() && #[trigger] ks[i] == ke;
            lemma_comps_lt_irreflexive(ke);
        }
    }
    assert forall|k: Seq<Comp>| m2.contains_key(k) <==> m1.contains_key(k) by {
        if m2.contains_key(k) {
            let i = choose|i: int| 0 <= i < es2.len() && #[trigger] ks2[i] == k;
            if i < idx {
                assert(ks[i] == k);
            } else if i > idx {
                assert(ks[i - 1] == k);
            }
        }
        if m1.contains_key(k) && k != ke {
            let i = choose|i: int| 0 <= i < es.len() && #[trigger] ks[i] == k;
            if i < idx {
                assert(ks2[i] == k);
            } else {
                assert(ks2[i + 1] == k);
            }
        }
        if k == ke {
            assert(ks2[idx] == k);
        }
    }
    assert forall|k: Seq<Comp>| m2.contains_key(k) implies m2[k] == m1[k] && n2[k] == n1[k] by {
        let i = choose|i: int| 0 <= i < es2.len() && #[trigger] ks2[i] == k;
        if i < idx {
            assert(es2[i] == es[i]);
            assert(ks[i] == k);
            if k == ke {
                lemma_comps_lt_irreflexive(ke);
            }
        } else if i > idx {
            assert(es2[i] == es[i - 1]);
            assert(ks[i - 1] == k);
            if k == ke {
                lemma_comps_lt_irreflexive(ke);
            }
        }
    }
    assert(m2 =~= m1);
    assert(n2 =~= n1);
}

/// Replacing the item of an entry keeps its name.
proof fn lemma_update_entry(es: Seq<(Seq<u8>, ItemView)>, idx: int, it: ItemView)
    requires
        entries_sorted(es),
        0 <= idx < es.len(),
    ensures
        entries_sorted(es.update(idx, (es[idx].0, it))),
        entries_map(es.update(idx, (es[idx].0, it))) == entries_map(es).insert(keys_of(es)[idx], it),
        names_map(es.update(idx, (es[idx].0, it))) == names_map(es),
{
    let e = (es[idx].0, it);
    let ke = keys_of(es)[idx];
    let es2 = es.update(idx, e);
    assert(keys_of(es2) =~= keys_of(es));
    lemma_entries_map(es);
    lemma_entries_map(es2);
    let m1 = entries_map(es).insert(ke, it);
    let m2 = entries_map(es2);
    let n1 = names_map(es);
    let n2 = names_map(es2);
    assert forall|k: Seq<Comp>| m2.contains_key(k) <==> m1.contains_key(k) by {
        if k == ke {
            assert(keys_of(es2)[idx] == k);
        }
    }
    assert forall|k: Seq<Comp>| m2.contains_key(k) implies m2[k] == m1[k] && n2[k] == n1[k] by {
        let i = choose|i: int| 0 <= i < es2.len() && #[trigger] keys_of(es2)[i] == k;
        assert(keys_of(es)[i] == k);
        if i != idx {
            assert(es2[i] == es[i]);
            if k == ke {
                lemma_sorted_keys_distinct(es, i, idx);
            }
        }
    }
    assert(m2 =~= m1);
    assert(n2 =~= n1);
}

proof fn lemma_remove_entry(es: Seq<(Seq<u8>, ItemView)>, idx: int)
    requires
        entries_sorted(es),
        0 <= idx < es.len(),
    ensures
        entries_sorted(es.remove(idx)),
        entries_map(es.remove(idx)) == entries_map(es).remove(keys_of(es)[idx]),
        names_map(es.remove(idx)) == names_map(es).remove(keys_of(es)[idx]),
{
    let es2 = es.remove(idx);
    let ks = keys_of(es);
    let ks2 = keys_of(es2);
    assert forall|i: int| 0 <= i < ks2.len() implies #[trigger] ks2[i] == (if i < idx { ks[i] } else { ks[i + 1] }) by {
        if i < idx {
            assert(es2[i] == es[i]);
        } else {
            assert(es2[i] == es[i + 1]);
        }
    }
    assert forall|i: int, j: int| 0 <= i < j < ks2.len() implies comps_lt(#[trigger] ks2[i], #[trigger] ks2[j]) by {
        let a = if i < idx { i } else { i + 1 };
        let b = if j < idx { j } else { j + 1 };
        assert(ks2[i] == ks[a] && ks2[j] == ks[b]);
    }
    lemma_entries_map(es);
    lemma_entries_map(es2);
    let m1 = entries_map(es).remove(ks[idx]);
    let m2 = entries_map(es2);
    let n1 = names_map(es).remove(ks[idx]);
    let n2 = names_map(es2);
    assert forall|k: Seq<Comp>| m2.contains_key(k) <==> m1.contains_key(k) by {
        if m2.contains_key(k) {
            let i = choose|i: int| 0 <= i < es2.len() && #[trigger] ks2[i] == k;
            let a = if i < idx { i } else { i + 1 };
            assert(ks[a] == k);
            if k == ks[idx] {
                lemma_sorted_keys_distinct(es, a, idx);
            }
        }
        if m1.contains_key(k) {
            let i = choose|i: int| 0 <= i < es.len() && #[trigger] ks[i] == k;
            if i < idx {
                assert(ks2[i] == k);
            } else {
                assert(ks2[i - 1] == k);
            }
        }
    }
    assert forall|k: Seq<Comp>| m2.contains_key(k) implies m2[k] == m1[k] && n2[k] == n1[k] by {
        let i = choose|i: int| 0 <= i < es2.len() && #[trigger] ks2[i] == k;
        let a = if i < idx { i } else { i + 1 };
        assert(es2[i] == es[a]);
        assert(ks[a] == k);
    }
    assert(m2 =~= m1);
    assert(n2 =~= n1);
}

/// A map from paths to items, held as entries in path order. Two names with
/// the same components are one key; the key keeps the name it was first
/// stored under.
#[derive(Debug)]
pub struct StoreMap {
    entries: Vec<(Vec<u8>, StoreItem)>,
}

impl View for StoreMap {
    type V = Map<Seq<Comp>, ItemView>;

    open spec fn view(&self) -> Map<Seq<Comp>, ItemView> {
        entries_map(self.entry_seq())
    }
}

impl StoreMap {
    /// The entries, in path order.
    pub closed spec fn entry_seq(&self) -> Seq<(Seq<u8>, ItemView)> {
        entry_views(self.entries@)
    }

    /// The name that each key is spelled with.
    pub open spec fn names(&self) -> Map<Seq<Comp>, Seq<u8>> {
        names_map(self.entry_seq())
    }

    /// Keys are distinct and in path order.
    pub open spec fn wf(&self) -> bool {
        entries_sorted(self.entry_seq())
    }

    /// An empty map.
    pub fn new() -> (r: StoreMap)
        ensures
            r.wf(),
            r.entry_seq() == Seq::<(Seq<u8>, ItemView)>::empty(),
            r@ == Map::<Seq<Comp>, ItemView>::empty(),
            r.names() == Map::<Seq<Comp>, Seq<u8>>::empty(),
    {
        let r = StoreMap { entries: Vec::new() };
        assert(r.entry_seq() =~= Seq::<(Seq<u8>, ItemView)>::empty());
        assert(r@ =~= Map::<Seq<Comp>, ItemView>::empty());
        assert(r.names() =~= Map::<Seq<Comp>, Seq<u8>>::empty());
        r
    }

    /// The number of entries.
    pub fn len(&self) -> (r: usize)
        ensures
            r == self.entry_seq().len(),
    {
        self.entries.len()
    }

    /// The entries, in path order.
    pub fn entries(&self) -> (r: &Vec<(Vec<u8>, StoreItem)>)
        ensures
            entry_views(r@) == self.entry_seq(),
    {
        &self.entries
    }

    /// Where `key` is, or where it would go.
    fn search(&self, key: &[u8]) -> (r: (bool, usize))
        requires
            self.wf(),
        ensures
            r.1 <= self.entry_seq().len(),
            r.0 ==> r.1 < self.entry_seq().len() && keys_of(self.entry_seq())[r.1 as int] == components(key@),
            !r.0 ==> forall|i: int| 0 <= i < r.1 ==> comps_lt(#[trigger] keys_of(self.entry_seq())[i], components(key@)),
            !r.0 ==> forall|i: int| r.1 <= i < self.entry_seq().len() ==> comps_lt(components(key@), #[trigger] keys_of(self.entry_seq())[i]),
    {
        let ghost es = self.entry_seq();
        let ghost ks = keys_of(es);
        let ghost kk = components(key@);
        let mut lo: usize = 0;
        let mut hi: usize = self.entries.len();
        while lo < hi
            invariant
                es == self.entry_seq(),
                ks == keys_of(es),
                kk == components(key@),
                entries_sorted(es),
                lo <= hi <= es.len(),
                es.len() == self.entries@.len(),
                forall|i: int| 0 <= i < lo ==> comps_lt(#[trigger] ks[i], kk),
                forall|i: int| hi <= i < es.len() ==> comps_lt(kk, #[trigger] ks[i]),
            decreases hi - lo,
        {
            let mid = lo + (hi - lo) / 2;
            let order = compare_keys(self.entries[mid].0.as_slice(), key);
            assert(es[mid as int].0 == self.entries@[mid as int].0@);
            assert(ks[mid as int] == components(es[mid as int].0));
            match order {
                KeyOrder::Same => {
                    return (true, mid);
                },
                KeyOrder::Before => {
                    proof {
                        assert forall|i: int| 0 <= i < mid + 1 implies comps_lt(#[trigger] ks[i], kk) by {
                            if i < mid {
                                assert(comps_lt(ks[i], ks[mid as int]));
                                lemma_comps_lt_trans(ks[i], ks[mid as int], kk);
                            }
                        }
                    }
                    lo = mid + 1;
                },
                KeyOrder::After => {
                    proof {
                        assert forall|i: int| mid <= i < es.len() implies comps_lt(kk, #[trigger] ks[i]) by {
                            if i > mid {
                                assert(comps_lt(ks[mid as int], ks[i]));
                                lemma_comps_lt_trans(kk, ks[mid as int], ks[i]);
                            }
                        }
                    }
                    hi = mid;
                },
            }
        }
        (false, lo)
    }

    /// The item stored under `key`, or under a name with the same components.
    pub fn get(&self, key: &[u8]) -> (r: Option<&StoreItem>)
        requires
            self.wf(),
        ensures
            match r {
                Some(it) => self@.contains_key(components(key@)) && self@[components(key@)] == it@,
                None => !self@.contains_key(components(key@)),
            },
    {
        let (found, idx) = self.search(key);
        proof {
            lemma_entries_map(self.entry_seq());
        }
        if found {
            assert(self.entry_seq()[idx as int] == entry_view(self.entries@[idx as int]));
            Some(&self.entries[idx].1)
        } else {
            proof {
                let es = self.entry_seq();
                if has_key(es, components(key@)) {
                    let i = choose|i: int| 0 <= i < es.len() && #[trigger] keys_of(es)[i] == components(key@);
                    lemma_comps_lt_irreflexive(components(key@));
                }
            }
            None
        }
    }

    /// Stores `item` under `key`, replacing the item of a name with the same
    /// components; that name is kept.
    pub fn insert(&mut self, key: Vec<u8>, item: StoreItem)
        requires
            old(self).wf(),
        ensures
            final(self).wf(),
            final(self)@ == old(self)@.insert(components(key@), item@),
            final(self).names() == if old(self).names().contains_key(components(key@)) {
                old(self).names()
            } else {
                old(self).names().insert(components(key@), key@)
            },
    {
        let (found, idx) = self.search(key.as_slice());
        let ghost es = self.entry_seq();
        proof {
            lemma_entries_map(es);
        }
        if found {
            proof {
                lemma_update_entry(es, idx as int, item@);
            }
            let (name, _old) = self.entries.remove(idx);
            self.entries.insert(idx, (name, item));
            assert(self.entry_seq() =~= es.update(idx as int, (es[idx as int].0, item@)));
        } else {
            let ghost e = (key@, item@);
            proof {
                lemma_insert_entry(es, idx as int, e);
            }
            self.entries.insert(idx, (key, item));
            assert(self.entry_seq() =~= es.insert(idx as int, e));
        }
    }

    /// Takes out the item stored under `key`, or under a name with the same components.
    pub fn remove(&mut self, key: &[u8]) -> (r: Option<StoreItem>)
        requires
            old(self).wf(),
        ensures
            final(self).wf(),
            final(self)@ == old(self)@.remove(components(key@)),
            final(self).names() == old(self).names().remove(components(key@)),
            match r {
                Some(it) => old(self)@.contains_key(components(key@)) && old(self)@[components(key@)] == it@,
                None => !old(self)@.contains_key(components(key@)),
            },
    {
        let (found, idx) = self.search(key);
        let ghost es = self.entry_seq();
        proof {
            lemma_entries_map(es);
        }
        if found {
            proof {
                lemma_remove_entry(es, idx as int);
            }
            let (_k, item) = self.entries.remove(idx);
            assert(self.entry_seq() =~= es.remove(idx as int));
            assert(es[idx as int] == entry_view((_k, item)));
            Some(item)
        } else {
            proof {
                if has_key(es, components(key@)) {
                    let i = choose|i: int| 0 <= i < es.len() && #[trigger] keys_of(es)[i] == components(key@);
                    lemma_comps_lt_irreflexive(components(key@));
                }
                assert(old(self)@.remove(components(key@)) =~= old(self)@);
                assert(old(self).names().remove(components(key@)) =~= old(self).names());
            }
            None
        }
    }

    /// Stores every entry of `other`, replacing the items under its keys; names
    /// already present are kept.
    pub fn extend(&mut self, other: StoreMap)
        requires
            old(self).wf(),
            other.wf(),
        ensures
            final(self).wf(),
            final(self)@ == old(self)@.union_prefer_right(other@),
            final(self).names() == other.names().union_prefer_right(old(self).names()),
    {
        let ghost oes = other.entry_seq();
        let mut rest = other.entries;
        proof {
            assert(oes.skip(oes.len() as int) =~= Seq::<(Seq<u8>, ItemView)>::empty());
            assert(entries_map(Seq::<(Seq<u8>, ItemView)>::empty()) =~= Map::<Seq<Comp>, ItemView>::empty());
            assert(names_map(Seq::<(Seq<u8>, ItemView)>::empty()) =~= Map::<Seq<Comp>, Seq<u8>>::empty());
            assert(old(self)@.union_prefer_right(Map::<Seq<Comp>, ItemView>::empty()) =~= old(self)@);
            assert(Map::<Seq<Comp>, Seq<u8>>::empty().union_prefer_right(old(self).names()) =~= old(self).names());
        }
        while rest.len() > 0
            invariant
                self.wf(),
                entries_sorted(oes),
                rest@.len() <= oes.len(),
                forall|i: int| 0 <= i < rest@.len() ==> entry_view(#[trigger] rest@[i]) == oes[i],
                self@ == old(self)@.union_prefer_right(entries_map(oes.skip(rest@.len() as int))),
                self.names() == names_map(oes.skip(rest@.len() as int)).union_prefer_right(old(self).names()),
            decreases rest@.len(),
        {
            let n = rest.len();
            let (key, item) = rest.pop().unwrap();
            proof {
                let tail = oes.skip(n as int);
                let tail2 = oes.skip(n - 1);
                let e = oes[n - 1];
                let ke = components(e.0);
                assert(entry_view(rest@.push((key, item))[n - 1]) == e);
                assert(tail2 =~= tail.insert(0, e));
                assert forall|i: int| 0 <= i < tail.len() implies #[trigger] keys_of(tail)[i] == keys_of(oes)[i + n] by {}
                assert forall|i: int, j: int| 0 <= i < j < tail.len() implies comps_lt(#[trigger] keys_of(tail)[i], #[trigger] keys_of(tail)[j]) by {
                    assert(keys_of(tail)[i] == keys_of(oes)[i + n]);
                    assert(keys_of(tail)[j] == keys_of(oes)[j + n]);
                }
                assert forall|i: int| 0 <= i < tail.len() implies comps_lt(ke, #[trigger] keys_of(tail)[i]) by {
                    assert(keys_of(oes)[n - 1] == ke);
                    assert(keys_of(tail)[i] == keys_of(oes)[i + n]);
                }
                lemma_insert_entry(tail, 0, e);
                lemma_entries_map(tail);
                assert(old(self)@.union_prefer_right(entries_map(tail).insert(ke, e.1))
                    =~= old(self)@.union_prefer_right(entries_map(tail)).insert(ke, e.1));
                let nt = names_map(tail);
                let on = old(self).names();
                let cur = nt.union_prefer_right(on);
                if on.contains_key(ke) {
                    assert(nt.insert(ke, e.0).union_prefer_right(on) =~= cur);
                } else {
                    assert(!nt.contains_key(ke));
                    assert(nt.insert(ke, e.0).union_prefer_right(on) =~= cur.insert(ke, e.0));
                }
            }
            self.insert(key, item);
        }
        proof {
            assert(oes.skip(0) == oes);
        }
    }
}

/// Inserts each entry in turn; a later entry replaces the item of an earlier
/// one with the same key.
pub open spec fn insert_all(ts: Seq<(Seq<u8>, ItemView)>) -> Map<Seq<Comp>, ItemView>
    decreases ts.len(),
{
    if ts.len() == 0 {
        Map::empty()
    } else {
        insert_all(ts.drop_last()).insert(components(ts.last().0), ts.last().1)
    }
}

/// The names that inserting each entry in turn leaves: each key keeps the
/// name it first came with.
pub open spec fn first_names(ts: Seq<(Seq<u8>, ItemView)>) -> Map<Seq<Comp>, Seq<u8>>
    decreases ts.len(),
{
    if ts.len() == 0 {
        Map::empty()
    } else {
        let m = first_names(ts.drop_last());
        let k = components(ts.last().0);
        if m.contains_key(k) {
            m
        } else {
            m.insert(k, ts.last().0)
        }
    }
}

/// A store line `sha timestamp name`, read as `read_one_line` reads it: split at
/// the first two spaces, the timestamp read as `i64::from_str` reads it.
/// `None` where that fails.
pub open spec fn parse_line_spec(line: Seq<u8>) -> Option<(Seq<u8>, ItemView)> {
    let i = byte_index(line, 32u8);
    if i >= line.len() {
        None
    } else {
        let rest = line.skip(i + 1);
        let j = byte_index(rest, 32u8);
        if j >= rest.len() {
            None
        } else {
            match parse_i64_spec(rest.take(j)) {
                None => None,
                Some(t) => Some((rest.skip(j + 1), ItemView { sha: line.take(i), timestamp: t, seen: false })),
            }
        }
    }
}

/// The entries that the lines `ls` of a store file hold, in order. Lines that
/// are not valid UTF-8 are skipped; `None` when another line is malformed.
pub open spec fn parse_lines_spec(ls: Seq<Seq<u8>>) -> Option<Seq<(Seq<u8>, ItemView)>>
    decreases ls.len(),
{
    if ls.len() == 0 {
        Some(seq![])
    } else {
        match parse_lines_spec(ls.drop_last()) {
            None => None,
            Some(ts) => if !vstd::utf8::valid_utf8(ls.last()) {
                Some(ts)
            } else {
                match parse_line_spec(ls.last()) {
                    None => None,
                    Some(t) => Some(ts.push(t)),
                }
            },
        }
    }
}

/// The line that stands for one entry: `sha timestamp name`.
pub open spec fn item_line(name: Seq<u8>, it: ItemView) -> Seq<u8> {
    it.sha + seq![32u8] + format_i64_spec(it.timestamp) + seq![32u8] + name
}

/// The lines of a store file: one for each entry that was seen, in order.
pub open spec fn seen_lines(es: Seq<(Seq<u8>, ItemView)>) -> Seq<Seq<u8>>
    decreases es.len(),
{
    if es.len() == 0 {
        seq![]
    } else if es.last().1.seen {
        seen_lines(es.drop_last()).push(item_line(es.last().0, es.last().1))
    } else {
        seen_lines(es.drop_last())
    }
}

/// Every entry that will be written has a name that is valid UTF-8.
pub open spec fn names_writable(es: Seq<(Seq<u8>, ItemView)>) -> bool {
    forall|i: int| 0 <= i < es.len() && (#[trigger] es[i]).1.seen ==> vstd::utf8::valid_utf8(es[i].0)
}

/// Reads one line of a store file: `sha timestamp name`; `None` where the line
/// has fewer than three space-separated parts or the timestamp is not a number.
pub fn read_one_line(line: &[u8]) -> (r: Option<(Vec<u8>, StoreItem)>)
    ensures
        match r {
            Some(t) => parse_line_spec(line@) == Some(entry_view(t)),
            None => parse_line_spec(line@).is_none(),
        },
{
    let n = line.len();
    let mut i: usize = 0;
    while i < n && line[i] != 32u8
        invariant
            i <= n == line@.len(),
            forall|k: int| 0 <= k < i ==> line@[k] != 32u8,
        decreases n - i,
    {
        i = i + 1;
    }
    proof {
        lemma_byte_index_at(line@, 32u8, i as int);
    }
    if i == n {
        return None;
    }
    let ghost rest = line@.skip(i + 1);
    let mut j: usize = i + 1;
    while j < n && line[j] != 32u8
        invariant
            i + 1 <= j <= n == line@.len(),
            rest == line@.skip(i + 1),
            forall|k: int| i + 1 <= k < j ==> line@[k] != 32u8,
        decreases n - j,
    {
        j = j + 1;
    }
    proof {
        assert forall|k: int| 0 <= k < j - (i + 1) implies rest[k] != 32u8 by {
            assert(rest[k] == line@[k + i + 1]);
        }
        if j < n {
            assert(rest[j - (i + 1)] == line@[j as int]);
        }
        lemma_byte_index_at(rest, 32u8, j - (i + 1));
    }
    if j == n {
        return None;
    }
    let ts = timestamp_from_str(&line[i + 1..j]);
    assert(line@.subrange(i + 1, j as int) == rest.take(j - (i + 1)));
    match ts {
        None => None,
        Some(t) => {
            let sha = copy_range(line, 0, i);
            let name = copy_range(line, j + 1, n);
            assert(sha@ == line@.take(i as int));
            assert(name@ == rest.skip(j - (i + 1) + 1));
            Some((name, StoreItem { sha, timestamp: t, seen: false }))
        },
    }
}

/// The store file: an entry for each file, in path order.
#[derive(Debug)]
pub struct Store(StoreMap);

impl View for Store {
    type V = Map<Seq<Comp>, ItemView>;

    open spec fn view(&self) -> Map<Seq<Comp>, ItemView> {
        entries_map(self.entry_seq())
    }
}

impl Store {
    /// The entries, in path order.
    pub closed spec fn entry_seq(&self) -> Seq<(Seq<u8>, ItemView)> {
        self.0.entry_seq()
    }

    /// The name that each key is spelled with.
    pub open spec fn names(&self) -> Map<Seq<Comp>, Seq<u8>> {
        names_map(self.entry_seq())
    }

    /// Keys are distinct and in path order.
    pub open spec fn wf(&self) -> bool {
        entries_sorted(self.entry_seq())
    }

    /// A store with no entries.
    pub fn empty() -> (r: Store)
        ensures
            r.wf(),
            r.entry_seq() == Seq::<(Seq<u8>, ItemView)>::empty(),
            r@ == Map::<Seq<Comp>, ItemView>::empty(),
            r.names() == Map::<Seq<Comp>, Seq<u8>>::empty(),
    {
        Store(StoreMap::new())
    }

    /// The entries.
    pub fn files(&self) -> (r: &StoreMap)
        ensures
            r.entry_seq() == self.entry_seq(),
    {
        &self.0
    }

    /// The entries, to change in place.
    pub fn files_mut(&mut self) -> (r: &mut StoreMap)
        ensures
            r.entry_seq() == old(self).entry_seq(),
            final(self).entry_seq() == final(r).entry_seq(),
    {
        &mut self.0
    }

    /// A store holding the entries of `files`.
    pub fn from_map(files: StoreMap) -> (r: Store)
        ensures
            r.entry_seq() == files.entry_seq(),
    {
        Store(files)
    }

    /// The entries of the store.
    pub fn into_map(self) -> (r: StoreMap)
        ensures
            r.entry_seq() == self.entry_seq(),
    {
        self.0
    }

    /// A store from entries inserted in turn, later ones replacing the items of
    /// earlier ones with the same key.
    pub fn from_entries(entries: Vec<(Vec<u8>, StoreItem)>) -> (r: Store)
        ensures
            r.wf(),
            r@ == insert_all(entry_views(entries@)),
            r.names() == first_names(entry_views(entries@)),
    {
        let ghost ts = entry_views(entries@);
        let mut map = StoreMap::new();
        let mut rest = reversed(entries);
        let mut k: usize = 0;
        let n = rest.len();
        proof {
            assert(ts.take(0) == Seq::<(Seq<u8>, ItemView)>::empty());
            assert(insert_all(Seq::<(Seq<u8>, ItemView)>::empty()) =~= Map::<Seq<Comp>, ItemView>::empty());
            assert(first_names(Seq::<(Seq<u8>, ItemView)>::empty()) =~= Map::<Seq<Comp>, Seq<u8>>::empty());
        }
        while rest.len() > 0
            invariant
                map.wf(),
                n == ts.len(),
                k + rest@.len() == n,
                forall|i: int| 0 <= i < rest@.len() ==> entry_view(#[trigger] rest@[i]) == ts[n - 1 - i],
                map@ == insert_all(ts.take(k as int)),
                map.names() == first_names(ts.take(k as int)),
            decreases rest@.len(),
        {
            let m = rest.len();
            let (key, item) = rest.pop().unwrap();
            proof {
                assert(entry_view(rest@.push((key, item))[m - 1]) == ts[k as int]);
                let t = ts.take(k + 1);
                assert(t.drop_last() == ts.take(k as int));
                assert(t.last() == ts[k as int]);
            }
            map.insert(key, item);
            k = k + 1;
        }
        proof {
            assert(ts.take(n as int) == ts);
        }
        Store(map)
    }

    /// Reads a store file: each line `sha timestamp name`, where lines that are
    /// not valid UTF-8 are skipped and a later line for a name replaces an
    /// earlier one. `None` where a line is malformed.
    pub fn parse(content: &[u8]) -> (r: Option<Store>)
        ensures
            r is Some <==> parse_lines_spec(lines_of(content@)) is Some,
            r matches Some(st) ==> st.wf() && st@ == insert_all(parse_lines_spec(lines_of(content@))->0)
                && st.names() == first_names(parse_lines_spec(lines_of(content@))->0),
    {
        let lines = split_lines(content);
        let ghost ls = lines_of(content@);
        let mut parsed: Vec<(Vec<u8>, StoreItem)> = Vec::new();
        let mut i: usize = 0;
        proof {
            assert(ls.take(0) == Seq::<Seq<u8>>::empty());
            assert(entry_views(parsed@) =~= Seq::<(Seq<u8>, ItemView)>::empty());
        }
        while i < lines.len()
            invariant
                byte_seqs(lines@) == ls,
                ls == lines_of(content@),
                i <= ls.len(),
                parse_lines_spec(ls.take(i as int)) == Some(entry_views(parsed@)),
            decreases ls.len() - i,
        {
            let line = lines[i].as_slice();
            assert(line@ == ls[i as int]);
            proof {
                let t = ls.take(i + 1);
                assert(t.drop_last() == ls.take(i as int));
                assert(t.last() == ls[i as int]);
            }
            if is_utf8(line) {
                match read_one_line(line) {
                    None => {
                        proof {
                            let t = ls.take(i + 1);
                            assert(t.drop_last() == ls.take(i as int));
                            assert(t.last() == ls[i as int]);
                            assert(parse_lines_spec(t).is_none());
                            lemma_parse_none_stays(ls, i + 1);
                        }
                        return None;
                    },
                    Some(entry) => {
                        let ghost before = entry_views(parsed@);
                        parsed.push(entry);
                        assert(entry_views(parsed@) =~= before.push(entry_view(entry)));
                    },
                }
            }
            i = i + 1;
        }
        proof {
            assert(ls.take(ls.len() as int) == ls);
        }
        Some(Store::from_entries(parsed))
    }

    /// Whether every seen entry has a name that is valid UTF-8.
    pub fn is_writable(&self) -> (r: bool)
        ensures
            r == names_writable(self.entry_seq()),
    {
        let es = self.0.entries();
        let mut i: usize = 0;
        while i < es.len()
            invariant
                entry_views(es@) == self.entry_seq(),
                i <= es@.len(),
                forall|k: int| 0 <= k < i && (#[trigger] self.entry_seq()[k]).1.seen ==> vstd::utf8::valid_utf8(self.entry_seq()[k].0),
            decreases es@.len() - i,
        {
            assert(self.entry_seq()[i as int] == entry_view(es@[i as int]));
            if es[i].1.seen && !is_utf8(es[i].0.as_slice()) {
                return false;
            }
            i = i + 1;
        }
        true
    }

    /// The store file: a line `sha timestamp name` for each seen entry, in path order.
    pub fn write(&self) -> (r: Vec<u8>)
        requires
            names_writable(self.entry_seq()),
        ensures
            r@ == render(seen_lines(self.entry_seq())),
    {
        let es = self.0.entries();
        let ghost s = self.entry_seq();
        let mut out: Vec<u8> = Vec::new();
        let mut i: usize = 0;
        proof {
            assert(s.take(0) == Seq::<(Seq<u8>, ItemView)>::empty());
            assert(render(Seq::<Seq<u8>>::empty()) == Seq::<u8>::empty());
        }
        while i < es.len()
            invariant
                entry_views(es@) == s,
                i <= es@.len(),
                out@ == render(seen_lines(s.take(i as int))),
            decreases es@.len() - i,
        {
            let ghost before = out@;
            proof {
                let t = s.take(i + 1);
                assert(t.drop_last() == s.take(i as int));
                assert(t.last() == s[i as int]);
                assert(s[i as int] == entry_view(es@[i as int]));
            }
            let (name, item) = (&es[i].0, &es[i].1);
            if item.seen {
                append_bytes(&mut out, item.sha.as_slice());
                out.push(32u8);
                let ts = timestamp_to_str(item.timestamp);
                append_bytes(&mut out, ts.as_slice());
                out.push(32u8);
                append_bytes(&mut out, name.as_slice());
                out.push(10u8);
                proof {
                    let line = item_line(name@, item@);
                    let prev = seen_lines(s.take(i as int));
                    crate::text::lemma_render_concat(prev, seq![line]);
                    crate::text::lemma_render_one(line);
                    assert(prev.push(line) == prev + seq![line]);
                    assert(out@ == before + line + seq![10u8]);
                }
            }
            i = i + 1;
        }
        proof {
            assert(s.take(s.len() as int) == s);
        }
        out
    }
}

/// The elements of `v` in reverse order.
fn reversed(v: Vec<(Vec<u8>, StoreItem)>) -> (r: Vec<(Vec<u8>, StoreItem)>)
    ensures
        r@.len() == v@.len(),
        forall|i: int| 0 <= i < r@.len() ==> #[trigger] r@[i] == v@[v@.len() - 1 - i],
{
    let ghost orig = v@;
    let mut v = v;
    let mut r: Vec<(Vec<u8>, StoreItem)> = Vec::new();
    while v.len() > 0
        invariant
            v@.len() + r@.len() == orig.len(),
            forall|i: int| 0 <= i < v@.len() ==> #[trigger] v@[i] == orig[i],
            forall|i: int| 0 <= i < r@.len() ==> #[trigger] r@[i] == orig[orig.len() - 1 - i],
        decreases v@.len(),
    {
        let x = v.pop().unwrap();
        r.push(x);
    }
    r
}

proof fn lemma_parse_none_stays(ls: Seq<Seq<u8>>, k: int)
    requires
        0 < k <= ls.len(),
        parse_lines_spec(ls.take(k)).is_none(),
    ensures
        parse_lines_spec(ls).is_none(),
    decreases ls.len() - k,
{
    if k < ls.len() {
        let t = ls.take(k + 1);
        assert(t.drop_last() == ls.take(k));
        lemma_parse_none_stays(ls, k + 1);
    } else {
        assert(ls.take(k) == ls);
    }
}

/// An entry that is written can be read back: its sha holds no space or newline,
/// its name no newline and does not end in `\r`, and both are valid UTF-8.
pub open spec fn entry_round_trips(name: Seq<u8>, it: ItemView) -> bool {
    &&& !it.sha.contains(32u8)
    &&& !it.sha.contains(10u8)
    &&& !name.contains(10u8)
    &&& !(name.len() > 0 && name.last() == 13u8)
    &&& vstd::utf8::valid_utf8(it.sha)
    &&& vstd::utf8::valid_utf8(name)
}

/// Every seen entry can be read back.
pub open spec fn seen_entries_round_trip(es: Seq<(Seq<u8>, ItemView)>) -> bool {
    forall|i: int| 0 <= i < es.len() && (#[trigger] es[i]).1.seen ==> entry_round_trips(es[i].0, es[i].1)
}

/// What a read gives back of the seen entries of a store: the same entries, unseen.
pub open spec fn seen_as_read(m: Map<Seq<Comp>, ItemView>) -> Map<Seq<Comp>, ItemView> {
    Map::new(
        |k: Seq<Comp>| m.contains_key(k) && m[k].seen,
        |k: Seq<Comp>| ItemView { sha: m[k].sha, timestamp: m[k].timestamp, seen: false },
    )
}

/// The names of the seen entries.
pub open spec fn seen_names(names: Map<Seq<Comp>, Seq<u8>>, m: Map<Seq<Comp>, ItemView>) -> Map<Seq<Comp>, Seq<u8>> {
    Map::new(
        |k: Seq<Comp>| m.contains_key(k) && m[k].seen,
        |k: Seq<Comp>| names[k],
    )
}

/// The seen entries, unseen, in order.
pub open spec fn read_back(es: Seq<(Seq<u8>, ItemView)>) -> Seq<(Seq<u8>, ItemView)>
    decreases es.len(),
{
    if es.len() == 0 {
        seq![]
    } else if es.last().1.seen {
        read_back(es.drop_last()).push(
            (es.last().0, ItemView { sha: es.last().1.sha, timestamp: es.last().1.timestamp, seen: false }),
        )
    } else {
        read_back(es.drop_last())
    }
}

proof fn lemma_format_bytes(t: i64)
    ensures
        forall|i: int| 0 <= i < format_i64_spec(t).len() ==>
            (is_digit(#[trigger] format_i64_spec(t)[i]) || format_i64_spec(t)[i] == 45u8),
        format_i64_spec(t).len() > 0,
{
    let f = format_i64_spec(t);
    if t < 0 {
        lemma_decimal_digits((-t) as nat);
        assert forall|i: int| 0 <= i < f.len() implies (is_digit(#[trigger] f[i]) || f[i] == 45u8) by {
            if i > 0 {
                assert(f[i] == decimal_digits((-t) as nat)[i - 1]);
            }
        }
    } else {
        lemma_decimal_digits(t as nat);
    }
}

/// The line of an entry that can be read back reads as that entry, unseen.
proof fn lemma_item_line(name: Seq<u8>, it: ItemView)
    requires
        entry_round_trips(name, it),
    ensures
        parse_line_spec(item_line(name, it)) == Some((name, ItemView { sha: it.sha, timestamp: it.timestamp, seen: false })),
        vstd::utf8::valid_utf8(item_line(name, it)),
        !item_line(name, it).contains(10u8),
        !(item_line(name, it).len() > 0 && item_line(name, it).last() == 13u8),
{
    let f = format_i64_spec(it.timestamp);
    lemma_format_bytes(it.timestamp);
    let line = item_line(name, it);
    let sha = it.sha;
    assert forall|j: int| 0 <= j < sha.len() implies line[j] != 32u8 by {
        assert(line[j] == sha[j]);
        if sha[j] == 32u8 {
            assert(sha.contains(32u8));
        }
    }
    assert(line[sha.len() as int] == 32u8);
    lemma_byte_index_at(line, 32u8, sha.len() as int);
    let rest = line.skip(sha.len() as int + 1);
    assert(rest == f + seq![32u8] + name);
    assert forall|j: int| 0 <= j < f.len() implies rest[j] != 32u8 by {
        assert(rest[j] == f[j]);
    }
    assert(rest[f.len() as int] == 32u8);
    lemma_byte_index_at(rest, 32u8, f.len() as int);
    assert(rest.take(f.len() as int) == f);
    assert(rest.skip(f.len() as int + 1) == name);
    assert(line.take(sha.len() as int) == sha);
    law_timestamp_text_round_trip(it.timestamp);
    // UTF-8
    assert forall|i: int| 0 <= i < f.len() implies #[trigger] f[i] < 128u8 by {}
    lemma_ascii_valid_utf8(f);
    lemma_ascii_valid_utf8(seq![32u8]);
    vstd::utf8::valid_utf8_concat(sha, seq![32u8]);
    vstd::utf8::valid_utf8_concat(sha + seq![32u8], f);
    vstd::utf8::valid_utf8_concat(sha + seq![32u8] + f, seq![32u8]);
    vstd::utf8::valid_utf8_concat(sha + seq![32u8] + f + seq![32u8], name);
    // no newline
    if line.contains(10u8) {
        let j = choose|j: int| 0 <= j < line.len() && line[j] == 10u8;
        if j < sha.len() {
            assert(sha[j] == 10u8);
            assert(sha.contains(10u8));
        } else if j > sha.len() + f.len() + 1 {
            assert(name[j - sha.len() - f.len() - 2] == 10u8);
            assert(name.contains(10u8));
        } else if j > sha.len() && j < sha.len() + f.len() + 1 {
            assert(f[j - sha.len() - 1] == 10u8);
        }
    }
    if name.len() == 0 {
        assert(line.last() == 32u8);
    } else {
        assert(line.last() == name.last());
    }
}

proof fn lemma_read_back_parses(es: Seq<(Seq<u8>, ItemView)>)
    requires
        seen_entries_round_trip(es),
    ensures
        parse_lines_spec(seen_lines(es)) == Some(read_back(es)),
        forall|i: int| 0 <= i < seen_lines(es).len() ==> !(#[trigger] seen_lines(es)[i]).contains(10u8),
        forall|i: int| 0 <= i < seen_lines(es).len() ==> !((#[trigger] seen_lines(es)[i]).len() > 0 && seen_lines(es)[i].last() == 13u8),
    decreases es.len(),
{
    if es.len() > 0 {
        let prev = es.drop_last();
        assert forall|i: int| 0 <= i < prev.len() && (#[trigger] prev[i]).1.seen implies entry_round_trips(prev[i].0, prev[i].1) by {
            assert(prev[i] == es[i]);
        }
        lemma_read_back_parses(prev);
        if es.last().1.seen {
            let e = es.last();
            assert(es[es.len() - 1] == e);
            lemma_item_line(e.0, e.1);
            let ls = seen_lines(es);
            assert(ls.drop_last() == seen_lines(prev));
            assert(ls.last() == item_line(e.0, e.1));
            assert forall|i: int| 0 <= i < ls.len() implies !(#[trigger] ls[i]).contains(10u8) by {
                if i < ls.len() - 1 {
                    assert(ls[i] == seen_lines(prev)[i]);
                }
            }
            assert forall|i: int| 0 <= i < ls.len() implies !((#[trigger] ls[i]).len() > 0 && ls[i].last() == 13u8) by {
                if i < ls.len() - 1 {
                    assert(ls[i] == seen_lines(prev)[i]);
                }
            }
        }
    }
}

proof fn lemma_read_back_map(es: Seq<(Seq<u8>, ItemView)>)
    requires
        entries_sorted(es),
    ensures
        insert_all(read_back(es)) == seen_as_read(entries_map(es)),
        first_names(read_back(es)) == seen_names(names_map(es), entries_map(es)),
    decreases es.len(),
{
    if es.len() == 0 {
        assert(entries_map(es) =~= Map::<Seq<Comp>, ItemView>::empty());
        assert(seen_as_read(entries_map(es)) =~= Map::<Seq<Comp>, ItemView>::empty());
        assert(seen_names(names_map(es), entries_map(es)) =~= Map::<Seq<Comp>, Seq<u8>>::empty());
        assert(read_back(es) == Seq::<(Seq<u8>, ItemView)>::empty());
        assert(insert_all(Seq::<(Seq<u8>, ItemView)>::empty()) == Map::<Seq<Comp>, ItemView>::empty());
        assert(first_names(Seq::<(Seq<u8>, ItemView)>::empty()) == Map::<Seq<Comp>, Seq<u8>>::empty());
    } else {
        let prev = es.drop_last();
        let e = es.last();
        let ke = components(e.0);
        assert(keys_of(prev) =~= keys_of(es).drop_last());
        lemma_read_back_map(prev);
        assert forall|i: int| 0 <= i < prev.len() implies comps_lt(#[trigger] keys_of(prev)[i], ke) by {
            assert(keys_of(es)[i] == keys_of(prev)[i]);
            assert(keys_of(es)[es.len() - 1] == ke);
        }
        lemma_insert_entry(prev, prev.len() as int, e);
        assert(prev.insert(prev.len() as int, e) == es);
        let m = entries_map(prev);
        let nm = names_map(prev);
        lemma_entries_map(prev);
        let e2 = ItemView { sha: e.1.sha, timestamp: e.1.timestamp, seen: false };
        if e.1.seen {
            let rb = read_back(es);
            assert(rb.drop_last() == read_back(prev));
            assert(rb.last() == (e.0, e2));
            assert(insert_all(rb) == insert_all(read_back(prev)).insert(ke, e2));
            assert(seen_as_read(m.insert(ke, e.1)) =~= seen_as_read(m).insert(ke, e2));
            assert(!seen_names(nm, m).contains_key(ke));
            assert(first_names(rb) == seen_names(nm, m).insert(ke, e.0));
            assert(seen_names(nm.insert(ke, e.0), m.insert(ke, e.1)) =~= seen_names(nm, m).insert(ke, e.0));
        } else {
            assert(seen_as_read(m.insert(ke, e.1)) =~= seen_as_read(m));
            assert(seen_names(nm.insert(ke, e.0), m.insert(ke, e.1)) =~= seen_names(nm, m));
        }
    }
}

/// Reading back what `write` wrote gives the entries that were seen, unseen:
/// where every seen entry can be read back, the file parses, and the store it
/// parses to holds exactly the seen entries of the store, with `seen` false,
/// under the same names.
pub proof fn law_write_then_read(s: Store)
    requires
        s.wf(),
        seen_entries_round_trip(s.entry_seq()),
    ensures
        parse_lines_spec(lines_of(render(seen_lines(s.entry_seq())))) == Some(read_back(s.entry_seq())),
        insert_all(read_back(s.entry_seq())) == seen_as_read(s@),
        first_names(read_back(s.entry_seq())) == seen_names(s.names(), s@),
{
    let es = s.entry_seq();
    lemma_read_back_parses(es);
    lemma_lines_of_render(seen_lines(es));
    lemma_read_back_map(es);
}

/// A store is determined by what it holds: two stores with the same items
/// under the same names hold them in the same order, so they write the same
/// file, however they were built.
pub proof fn law_store_order_depends_only_on_contents(a: Store, b: Store)
    requires
        a.wf(),
        b.wf(),
        a@ == b@,
        a.names() == b.names(),
    ensures
        a.entry_seq() == b.entry_seq(),
        render(seen_lines(a.entry_seq())) == render(seen_lines(b.entry_seq())),
{
    let ea = a.entry_seq();
    let eb = b.entry_seq();
    lemma_entries_map(ea);
    lemma_entries_map(eb);
    let ka = keys_of(ea);
    let kb = keys_of(eb);
    assert forall|k: Seq<Comp>| ka.to_set().contains(k) <==> kb.to_set().contains(k) by {
        if ka.to_set().contains(k) {
            let i = choose|i: int| 0 <= i < ka.len() && ka[i] == k;
            assert(a@.contains_key(k));
            assert(has_key(eb, k));
            let j = choose|j: int| 0 <= j < eb.len() && #[trigger] kb[j] == k;
        }
        if kb.to_set().contains(k) {
            let i = choose|i: int| 0 <= i < kb.len() && kb[i] == k;
            assert(b@.contains_key(k));
            assert(has_key(ea, k));
            let j = choose|j: int| 0 <= j < ea.len() && #[trigger] ka[j] == k;
        }
    }
    assert(ka.to_set() =~= kb.to_set());
    lemma_comps_sorted_unique(ka, kb);
    assert(ea.len() == ka.len() && eb.len() == kb.len());
    assert forall|i: int| 0 <= i < ea.len() implies ea[i] == eb[i] by {
        assert(ka[i] == kb[i]);
        assert(a@[ka[i]] == ea[i].1);
        assert(b@[kb[i]] == eb[i].1);
        assert(a.names()[ka[i]] == ea[i].0);
        assert(b.names()[kb[i]] == eb[i].0);
    }
    assert(ea =~= eb);
}

} // verus!
