//! Store keys are paths, ordered and identified as `std::path::Path` orders and
//! identifies them: by their components.
//!
//! A path splits at `/` into components: a leading `/` is the root, `..` is the
//! parent, a leading `.` of a relative path is the current directory, and
//! empty and other `.` components are dropped. Components order root, then
//! current directory, then parent, then names, and names compare byte-wise;
//! paths compare component by component. Two paths with the same components
//! are the same key (`a/b`, `a//b`, `a/./b` and `a/b/` are one key).

use vstd::prelude::*;
use crate::text::{byte_index, copy_range, lemma_byte_index_at, lemma_byte_index_bounds};

verus! {

/// A component of a path.
pub enum Comp {
    RootDir,
    CurDir,
    ParentDir,
    Normal(Seq<u8>),
}

/// Strict byte-wise lexicographic order.
pub open spec fn bytes_lt(a: Seq<u8>, b: Seq<u8>) -> bool
    decreases a.len(),
{
    if b.len() == 0 {
        false
    } else if a.len() == 0 {
        true
    } else if a[0] < b[0] {
        true
    } else if a[0] > b[0] {
        false
    } else {
        bytes_lt(a.drop_first(), b.drop_first())
    }
}

pub open spec fn comp_rank(c: Comp) -> int {
    match c {
        Comp::RootDir => 0,
        Comp::CurDir => 1,
        Comp::ParentDir => 2,
        Comp::Normal(_) => 3,
    }
}

/// The order of components: root, current directory, parent, then names byte-wise.
pub open spec fn comp_lt(a: Comp, b: Comp) -> bool {
    if comp_rank(a) != comp_rank(b) {
        comp_rank(a) < comp_rank(b)
    } else {
        match (a, b) {
            (Comp::Normal(x), Comp::Normal(y)) => bytes_lt(x, y),
            _ => false,
        }
    }
}

/// Lexicographic order of component sequences.
pub open spec fn comps_lt(a: Seq<Comp>, b: Seq<Comp>) -> bool
    decreases a.len(),
{
    if b.len() == 0 {
        false
    } else if a.len() == 0 {
        true
    } else if comp_lt(a[0], b[0]) {
        true
    } else if comp_lt(b[0], a[0]) {
        false
    } else {
        comps_lt(a.drop_first(), b.drop_first())
    }
}

/// The pieces of `p` between the `/` separators, empty ones included.
pub open spec fn split_segments(p: Seq<u8>) -> Seq<Seq<u8>>
    decreases p.len(),
{
    let i = byte_index(p, 47u8);
    proof {
        lemma_byte_index_bounds(p, 47u8);
    }
    if i >= p.len() {
        seq![p]
    } else {
        seq![p.take(i)] + split_segments(p.skip(i + 1))
    }
}

/// The component that a segment gives: none for an empty segment or for `.`
/// (unless it starts a relative path), the parent for `..`, a name otherwise.
pub open spec fn seg_comp(seg: Seq<u8>, first_relative: bool) -> Seq<Comp> {
    if seg.len() == 0 {
        seq![]
    } else if seg == seq![46u8] {
        if first_relative {
            seq![Comp::CurDir]
        } else {
            seq![]
        }
    } else if seg == seq![46u8, 46u8] {
        seq![Comp::ParentDir]
    } else {
        seq![Comp::Normal(seg)]
    }
}

/// The components of a run of segments, the first of which may start a
/// relative path.
pub open spec fn comps_of(segs: Seq<Seq<u8>>, first_relative: bool) -> Seq<Comp>
    decreases segs.len(),
{
    if segs.len() == 0 {
        seq![]
    } else {
        seg_comp(segs[0], first_relative) + comps_of(segs.drop_first(), false)
    }
}

/// The components of a path, as `Path::components` gives them.
pub open spec fn components(p: Seq<u8>) -> Seq<Comp> {
    if p.len() > 0 && p[0] == 47u8 {
        seq![Comp::RootDir] + comps_of(split_segments(p), false)
    } else {
        comps_of(split_segments(p), true)
    }
}

/// `a` sorts strictly before `b` as a path.
pub open spec fn path_lt(a: Seq<u8>, b: Seq<u8>) -> bool {
    comps_lt(components(a), components(b))
}

/// The component sequences are in strictly increasing order.
pub open spec fn comps_sorted(ks: Seq<Seq<Comp>>) -> bool {
    forall|i: int, j: int| 0 <= i < j < ks.len() ==> comps_lt(#[trigger] ks[i], #[trigger] ks[j])
}

pub proof fn lemma_bytes_lt_irreflexive(a: Seq<u8>)
    ensures
        !bytes_lt(a, a),
    decreases a.len(),
{
    if a.len() > 0 {
        lemma_bytes_lt_irreflexive(a.drop_first());
    }
}

pub proof fn lemma_bytes_lt_trans(a: Seq<u8>, b: Seq<u8>, c: Seq<u8>)
    requires
        bytes_lt(a, b),
        bytes_lt(b, c),
    ensures
        bytes_lt(a, c),
    decreases a.len(),
{
    if a.len() > 0 && b.len() > 0 && c.len() > 0 && a[0] == b[0] && b[0] == c[0] {
        lemma_bytes_lt_trans(a.drop_first(), b.drop_first(), c.drop_first());
    }
}

pub proof fn lemma_bytes_lt_total(a: Seq<u8>, b: Seq<u8>)
    ensures
        a == b || bytes_lt(a, b) || bytes_lt(b, a),
    decreases a.len(),
{
    if a.len() == 0 && b.len() == 0 {
        assert(a =~= b);
    } else if a.len() > 0 && b.len() > 0 && a[0] == b[0] {
        lemma_bytes_lt_total(a.drop_first(), b.drop_first());
        if a.drop_first() == b.drop_first() {
            assert(a =~= seq![a[0]] + a.drop_first());
            assert(b =~= seq![b[0]] + b.drop_first());
        }
    }
}

pub proof fn lemma_comp_lt_props(a: Comp, b: Comp, c: Comp)
    ensures
        !comp_lt(a, a),
        comp_lt(a, b) && comp_lt(b, c) ==> comp_lt(a, c),
        a == b || comp_lt(a, b) || comp_lt(b, a),
{
    match a {
        Comp::Normal(x) => {
            lemma_bytes_lt_irreflexive(x);
            match b {
                Comp::Normal(y) => {
                    lemma_bytes_lt_total(x, y);
                    match c {
                        Comp::Normal(z) => {
                            if bytes_lt(x, y) && bytes_lt(y, z) {
                                lemma_bytes_lt_trans(x, y, z);
                            }
                        },
                        _ => {},
                    }
                },
                _ => {},
            }
        },
        _ => {},
    }
}

pub proof fn lemma_comps_lt_irreflexive(a: Seq<Comp>)
    ensures
        !comps_lt(a, a),
    decreases a.len(),
{
    if a.len() > 0 {
        lemma_comp_lt_props(a[0], a[0], a[0]);
        lemma_comps_lt_irreflexive(a.drop_first());
    }
}

pub proof fn lemma_comps_lt_trans(a: Seq<Comp>, b: Seq<Comp>, c: Seq<Comp>)
    requires
        comps_lt(a, b),
        comps_lt(b, c),
    ensures
        comps_lt(a, c),
    decreases a.len(),
{
    if a.len() > 0 && b.len() > 0 && c.len() > 0 {
        lemma_comp_lt_props(a[0], b[0], c[0]);
        lemma_comp_lt_props(b[0], c[0], a[0]);
        lemma_comp_lt_props(c[0], a[0], b[0]);
        lemma_comp_lt_props(a[0], c[0], b[0]);
        lemma_comp_lt_props(b[0], a[0], c[0]);
        lemma_comp_lt_props(c[0], b[0], a[0]);
        if a[0] == b[0] && b[0] == c[0] {
            lemma_comps_lt_trans(a.drop_first(), b.drop_first(), c.drop_first());
        }
    }
}

pub proof fn lemma_comps_lt_total(a: Seq<Comp>, b: Seq<Comp>)
    ensures
        a == b || comps_lt(a, b) || comps_lt(b, a),
    decreases a.len(),
{
    if a.len() == 0 && b.len() == 0 {
        assert(a =~= b);
    } else if a.len() > 0 && b.len() > 0 {
        lemma_comp_lt_props(a[0], b[0], b[0]);
        if a[0] == b[0] {
            lemma_comps_lt_total(a.drop_first(), b.drop_first());
            if a.drop_first() == b.drop_first() {
                assert(a =~= seq![a[0]] + a.drop_first());
                assert(b =~= seq![b[0]] + b.drop_first());
            }
        }
    }
}

pub proof fn lemma_comps_lt_asym(a: Seq<Comp>, b: Seq<Comp>)
    requires
        comps_lt(a, b),
    ensures
        !comps_lt(b, a),
        a != b,
{
    lemma_comps_lt_irreflexive(a);
    if comps_lt(b, a) {
        lemma_comps_lt_trans(a, b, a);
    }
}

/// Path order is a strict total order on keys: no key comes before itself,
/// the order is transitive, and of two keys either one comes first or they
/// have the same components, never both.
pub proof fn law_path_order_is_total(a: Seq<u8>, b: Seq<u8>, c: Seq<u8>)
    ensures
        !path_lt(a, a),
        path_lt(a, b) && path_lt(b, c) ==> path_lt(a, c),
        components(a) == components(b) || path_lt(a, b) || path_lt(b, a),
        path_lt(a, b) ==> !path_lt(b, a) && components(a) != components(b),
{
    lemma_comps_lt_irreflexive(components(a));
    if path_lt(a, b) && path_lt(b, c) {
        lemma_comps_lt_trans(components(a), components(b), components(c));
    }
    lemma_comps_lt_total(components(a), components(b));
    if path_lt(a, b) {
        lemma_comps_lt_asym(components(a), components(b));
    }
}

/// Two component sequences sorted in order and holding the same sequences are equal.
pub proof fn lemma_comps_sorted_unique(a: Seq<Seq<Comp>>, b: Seq<Seq<Comp>>)
    requires
        comps_sorted(a),
        comps_sorted(b),
        a.to_set() == b.to_set(),
    ensures
        a == b,
    decreases a.len(),
{
    if a.len() == 0 {
        if b.len() > 0 {
            assert(b.to_set().contains(b[0]));
        }
        assert(a =~= b);
    } else {
        assert(a.to_set().contains(a[0]));
        assert(b.to_set().contains(a[0]));
        let jb = choose|j: int| 0 <= j < b.len() && b[j] == a[0];
        assert(b.to_set().contains(b[0]));
        let ja = choose|j: int| 0 <= j < a.len() && a[j] == b[0];
        if jb > 0 {
            assert(comps_lt(b[0], b[jb]));
            if ja > 0 {
                assert(comps_lt(a[0], a[ja]));
                lemma_comps_lt_asym(b[0], a[0]);
            } else {
                lemma_comps_lt_irreflexive(b[0]);
            }
        }
        assert(b[0] == a[0]);
        let a1 = a.drop_first();
        let b1 = b.drop_first();
        assert forall|x: Seq<Comp>| a1.to_set().contains(x) implies b1.to_set().contains(x) by {
            let i = choose|i: int| 0 <= i < a1.len() && a1[i] == x;
            assert(a[i + 1] == x);
            assert(comps_lt(a[0], x));
            assert(b.to_set().contains(x));
            let k = choose|k: int| 0 <= k < b.len() && b[k] == x;
            if k == 0 {
                lemma_comps_lt_irreflexive(x);
            }
            assert(b1[k - 1] == x);
        }
        assert forall|x: Seq<Comp>| b1.to_set().contains(x) implies a1.to_set().contains(x) by {
            let i = choose|i: int| 0 <= i < b1.len() && b1[i] == x;
            assert(b[i + 1] == x);
            assert(comps_lt(b[0], x));
            assert(a.to_set().contains(x));
            let k = choose|k: int| 0 <= k < a.len() && a[k] == x;
            if k == 0 {
                lemma_comps_lt_irreflexive(x);
            }
            assert(a1[k - 1] == x);
        }
        assert(a1.to_set() =~= b1.to_set());
        lemma_comps_sorted_unique(a1, b1);
        assert(a =~= seq![a[0]] + a1);
        assert(b =~= seq![b[0]] + b1);
    }
}

proof fn lemma_bytes_lt_skip(a: Seq<u8>, b: Seq<u8>, i: int)
    requires
        0 <= i <= a.len(),
        i <= b.len(),
        forall|k: int| 0 <= k < i ==> a[k] == b[k],
    ensures
        bytes_lt(a, b) == bytes_lt(a.skip(i), b.skip(i)),
    decreases i,
{
    if i > 0 {
        let a1 = a.drop_first();
        let b1 = b.drop_first();
        assert(a[0] == b[0]);
        assert forall|k: int| 0 <= k < i - 1 implies a1[k] == b1[k] by {
            assert(a[k + 1] == b[k + 1]);
        }
        lemma_bytes_lt_skip(a1, b1, i - 1);
        assert(a1.skip(i - 1) =~= a.skip(i));
        assert(b1.skip(i - 1) =~= b.skip(i));
    } else {
        assert(a.skip(0) == a);
        assert(b.skip(0) == b);
    }
}

proof fn lemma_comps_lt_skip(a: Seq<Comp>, b: Seq<Comp>, i: int)
    requires
        0 <= i <= a.len(),
        i <= b.len(),
        forall|k: int| 0 <= k < i ==> a[k] == b[k],
    ensures
        comps_lt(a, b) == comps_lt(a.skip(i), b.skip(i)),
    decreases i,
{
    if i > 0 {
        let a1 = a.drop_first();
        let b1 = b.drop_first();
        assert(a[0] == b[0]);
        lemma_comp_lt_props(a[0], a[0], a[0]);
        assert forall|k: int| 0 <= k < i - 1 implies a1[k] == b1[k] by {
            assert(a[k + 1] == b[k + 1]);
        }
        lemma_comps_lt_skip(a1, b1, i - 1);
        assert(a1.skip(i - 1) =~= a.skip(i));
        assert(b1.skip(i - 1) =~= b.skip(i));
    } else {
        assert(a.skip(0) == a);
        assert(b.skip(0) == b);
    }
}

/// The result of comparing two keys.
#[derive(Debug, Clone, Copy, PartialEq, Eq)]
pub enum KeyOrder {
    Before,
    Same,
    After,
}

/// A component of a path.
#[derive(Debug)]
pub enum PathComponent {
    RootDir,
    CurDir,
    ParentDir,
    Normal(Vec<u8>),
}

impl View for PathComponent {
    type V = Comp;

    open spec fn view(&self) -> Comp {
        match self {
            PathComponent::RootDir => Comp::RootDir,
            PathComponent::CurDir => Comp::CurDir,
            PathComponent::ParentDir => Comp::ParentDir,
            PathComponent::Normal(b) => Comp::Normal(b@),
        }
    }
}

pub open spec fn comp_views(v: Seq<PathComponent>) -> Seq<Comp> {
    Seq::new(v.len(), |i: int| v[i]@)
}

/// Adds to `out` the component that the segment `seg` gives.
fn push_segment(seg: Vec<u8>, first_relative: bool, out: &mut Vec<PathComponent>)
    ensures
        comp_views(final(out)@) == comp_views(old(out)@) + seg_comp(seg@, first_relative),
{
    let ghost before = comp_views(out@);
    if seg.len() == 0 {
        assert(before + seg_comp(seg@, first_relative) =~= before);
        return;
    }
    if seg.len() == 1 && seg[0] == 46u8 {
        assert(seg@ =~= seq![46u8]);
        if first_relative {
            out.push(PathComponent::CurDir);
            assert(comp_views(out@) =~= before + seq![Comp::CurDir]);
        } else {
            assert(before + seg_comp(seg@, first_relative) =~= before);
        }
        return;
    }
    if seg.len() == 2 && seg[0] == 46u8 && seg[1] == 46u8 {
        assert(seg@ =~= seq![46u8, 46u8]);
        out.push(PathComponent::ParentDir);
        assert(comp_views(out@) =~= before + seq![Comp::ParentDir]);
        return;
    }
    assert(seg@ != seq![46u8]) by {
        if seg@ == seq![46u8] {
            assert(seg@.len() == 1);
        }
    }
    assert(seg@ != seq![46u8, 46u8]) by {
        if seg@ == seq![46u8, 46u8] {
            assert(seg@.len() == 2);
        }
    }
    let ghost sv = seg@;
    out.push(PathComponent::Normal(seg));
    assert(comp_views(out@) =~= before + seq![Comp::Normal(sv)]);
}

/// The components of a path, as `Path::components` gives them.
pub fn path_components(p: &[u8]) -> (r: Vec<PathComponent>)
    ensures
        comp_views(r@) == components(p@),
{
    let n = p.len();
    let rooted = n > 0 && p[0] == 47u8;
    let mut out: Vec<PathComponent> = Vec::new();
    if rooted {
        out.push(PathComponent::RootDir);
    }
    let mut first: bool = !rooted;
    let mut start: usize = 0;
    let mut j: usize = 0;
    proof {
        assert(p@.skip(0) == p@);
        if rooted {
            assert(comp_views(out@) =~= seq![Comp::RootDir]);
        } else {
            assert(comp_views(out@) + comps_of(split_segments(p@), true) =~= comps_of(split_segments(p@), true));
        }
    }
    while j < n
        invariant
            n == p@.len(),
            start <= j <= n,
            forall|k: int| start <= k < j ==> p@[k] != 47u8,
            comp_views(out@) + comps_of(split_segments(p@.skip(start as int)), first) == components(p@),
        decreases n - j,
    {
        if p[j] == 47u8 {
            let ghost rest = p@.skip(start as int);
            let ghost ss = split_segments(rest);
            proof {
                lemma_byte_index_at(rest, 47u8, j - start);
                assert(rest.take(j - start) =~= p@.subrange(start as int, j as int));
                assert(rest.skip(j - start + 1) =~= p@.skip(j + 1));
                assert(ss == seq![p@.subrange(start as int, j as int)] + split_segments(p@.skip(j + 1)));
                assert(ss.drop_first() =~= split_segments(p@.skip(j + 1)));
                assert(ss[0] == p@.subrange(start as int, j as int));
            }
            let seg = copy_range(p, start, j);
            let ghost before = comp_views(out@);
            push_segment(seg, first, &mut out);
            proof {
                let tail = comps_of(split_segments(p@.skip(j + 1)), false);
                assert(comps_of(ss, first) == seg_comp(ss[0], first) + tail);
                assert(before + (seg_comp(ss[0], first) + tail) =~= (before + seg_comp(ss[0], first)) + tail);
            }
            start = j + 1;
            first = false;
        }
        j = j + 1;
    }
    let ghost rest = p@.skip(start as int);
    proof {
        lemma_byte_index_at(rest, 47u8, rest.len() as int);
        assert(split_segments(rest) == seq![rest]);
        assert(seq![rest].drop_first() =~= Seq::<Seq<u8>>::empty());
        assert(seq![rest][0] == rest);
        assert(comps_of(Seq::<Seq<u8>>::empty(), false) == Seq::<Comp>::empty());
        assert(comps_of(seq![rest], first) == seg_comp(rest, first) + comps_of(Seq::<Seq<u8>>::empty(), false));
    }
    let seg = copy_range(p, start, n);
    proof {
        assert(seg@ =~= rest);
    }
    push_segment(seg, first, &mut out);
    proof {
        assert(seg_comp(rest, first) + Seq::<Comp>::empty() =~= seg_comp(rest, first));
    }
    out
}

/// Compares two byte strings byte-wise.
fn compare_bytes(a: &[u8], b: &[u8]) -> (r: KeyOrder)
    ensures
        (r == KeyOrder::Before) == bytes_lt(a@, b@),
        (r == KeyOrder::Same) == (a@ == b@),
        (r == KeyOrder::After) == bytes_lt(b@, a@),
{
    let mut i: usize = 0;
    while i < a.len() && i < b.len()
        invariant
            i <= a@.len(),
            i <= b@.len(),
            forall|k: int| 0 <= k < i ==> a@[k] == b@[k],
        decreases a@.len() - i,
    {
        if a[i] != b[i] {
            proof {
                lemma_bytes_lt_skip(a@, b@, i as int);
                lemma_bytes_lt_skip(b@, a@, i as int);
                assert(a@.skip(i as int)[0] == a@[i as int]);
                assert(b@.skip(i as int)[0] == b@[i as int]);
            }
            if a[i] < b[i] {
                return KeyOrder::Before;
            } else {
                return KeyOrder::After;
            }
        }
        i = i + 1;
    }
    proof {
        lemma_bytes_lt_skip(a@, b@, i as int);
        lemma_bytes_lt_skip(b@, a@, i as int);
        lemma_bytes_lt_irreflexive(a@);
    }
    if a.len() == b.len() {
        assert(a@ =~= b@);
        KeyOrder::Same
    } else if a.len() < b.len() {
        KeyOrder::Before
    } else {
        KeyOrder::After
    }
}

fn component_rank(c: &PathComponent) -> (r: u8)
    ensures
        r as int == comp_rank(c@),
{
    match c {
        PathComponent::RootDir => 0u8,
        PathComponent::CurDir => 1u8,
        PathComponent::ParentDir => 2u8,
        PathComponent::Normal(_) => 3u8,
    }
}

/// Compares two components: root, current directory, parent, then names byte-wise.
fn compare_component(x: &PathComponent, y: &PathComponent) -> (r: KeyOrder)
    ensures
        (r == KeyOrder::Before) == comp_lt(x@, y@),
        (r == KeyOrder::Same) == (x@ == y@),
        (r == KeyOrder::After) == comp_lt(y@, x@),
{
    let rx = component_rank(x);
    let ry = component_rank(y);
    if rx < ry {
        KeyOrder::Before
    } else if ry < rx {
        KeyOrder::After
    } else {
        match (x, y) {
            (PathComponent::Normal(a), PathComponent::Normal(b)) => compare_bytes(a.as_slice(), b.as_slice()),
            _ => KeyOrder::Same,
        }
    }
}

/// Compares two component lists, component by component.
fn compare_components(a: &Vec<PathComponent>, b: &Vec<PathComponent>) -> (r: KeyOrder)
    ensures
        (r == KeyOrder::Before) == comps_lt(comp_views(a@), comp_views(b@)),
        (r == KeyOrder::Same) == (comp_views(a@) == comp_views(b@)),
        (r == KeyOrder::After) == comps_lt(comp_views(b@), comp_views(a@)),
{
    let ghost va = comp_views(a@);
    let ghost vb = comp_views(b@);
    let mut i: usize = 0;
    while i < a.len() && i < b.len()
        invariant
            va == comp_views(a@),
            vb == comp_views(b@),
            i <= a@.len(),
            i <= b@.len(),
            forall|k: int| 0 <= k < i ==> va[k] == vb[k],
        decreases a@.len() - i,
    {
        let o = compare_component(&a[i], &b[i]);
        assert(va[i as int] == a@[i as int]@);
        assert(vb[i as int] == b@[i as int]@);
        match o {
            KeyOrder::Same => {},
            _ => {
                proof {
                    lemma_comps_lt_skip(va, vb, i as int);
                    lemma_comps_lt_skip(vb, va, i as int);
                    assert(va.skip(i as int)[0] == va[i as int]);
                    assert(vb.skip(i as int)[0] == vb[i as int]);
                    lemma_comp_lt_props(va[i as int], vb[i as int], va[i as int]);
                }
                return o;
            },
        }
        i = i + 1;
    }
    proof {
        lemma_comps_lt_skip(va, vb, i as int);
        lemma_comps_lt_skip(vb, va, i as int);
        lemma_comps_lt_irreflexive(va);
    }
    if a.len() == b.len() {
        assert(va =~= vb);
        KeyOrder::Same
    } else if a.len() < b.len() {
        KeyOrder::Before
    } else {
        KeyOrder::After
    }
}

/// Compares two keys as paths: `Before` where `a` sorts first, `Same` where
/// they have the same components, `After` where `b` sorts first.
pub fn compare_keys(a: &[u8], b: &[u8]) -> (r: KeyOrder)
    ensures
        (r == KeyOrder::Before) == path_lt(a@, b@),
        (r == KeyOrder::Same) == (components(a@) == components(b@)),
        (r == KeyOrder::After) == path_lt(b@, a@),
{
    let ca = path_components(a);
    let cb = path_components(b);
    compare_components(&ca, &cb)
}

/// Names compare byte by byte as unsigned bytes: at the first position where
/// they differ, the name with the smaller byte comes first; a name comes
/// before every longer name that it begins.
pub proof fn law_name_order_is_byte_order(x: Seq<u8>, y: Seq<u8>, i: int)
    requires
        0 <= i <= x.len(),
        i <= y.len(),
        forall|k: int| 0 <= k < i ==> x[k] == y[k],
        i < x.len() && i < y.len() ==> x[i] != y[i],
        i == x.len() || i == y.len() || x[i] != y[i],
    ensures
        i < x.len() && i < y.len() ==> (bytes_lt(x, y) == (x[i] < y[i])),
        i == x.len() && i < y.len() ==> bytes_lt(x, y) && !bytes_lt(y, x),
    decreases i,
{
    if i > 0 {
        assert forall|k: int| 0 <= k < i - 1 implies x.drop_first()[k] == y.drop_first()[k] by {
            assert(x[k + 1] == y[k + 1]);
        }
        assert(x[0] == y[0]);
        law_name_order_is_byte_order(x.drop_first(), y.drop_first(), i - 1);
    }
}

/// A name with no `/` that is neither `.` nor `..` nor empty is a single
/// component: itself.
pub open spec fn plain_name(x: Seq<u8>) -> bool {
    &&& x.len() > 0
    &&& !x.contains(47u8)
    &&& x != seq![46u8]
    &&& x != seq![46u8, 46u8]
}

proof fn lemma_plain_name_components(x: Seq<u8>)
    requires
        plain_name(x),
    ensures
        components(x) == seq![Comp::Normal(x)],
{
    assert forall|k: int| 0 <= k < x.len() implies x[k] != 47u8 by {
        if x[k] == 47u8 {
            assert(x.contains(47u8));
        }
    }
    lemma_byte_index_at(x, 47u8, x.len() as int);
    assert(split_segments(x) == seq![x]);
    assert(seq![x].drop_first() =~= Seq::<Seq<u8>>::empty());
    assert(seq![x][0] == x);
    assert(comps_of(Seq::<Seq<u8>>::empty(), false) == Seq::<Comp>::empty());
    assert(comps_of(seq![x], true) == seg_comp(x, true) + comps_of(Seq::<Seq<u8>>::empty(), false));
    assert(seg_comp(x, true) + Seq::<Comp>::empty() =~= seq![Comp::Normal(x)]);
}

/// Two file names in one directory are ordered as store keys byte by byte, as
/// unsigned bytes (`Makefile` before `main.rs`), and a name before every
/// longer name that it begins; they are one key only when they are equal.
pub proof fn law_plain_names_order_byte_wise(x: Seq<u8>, y: Seq<u8>, i: int)
    requires
        plain_name(x),
        plain_name(y),
        0 <= i <= x.len(),
        i <= y.len(),
        forall|k: int| 0 <= k < i ==> x[k] == y[k],
        i == x.len() || i == y.len() || x[i] != y[i],
    ensures
        i < x.len() && i < y.len() ==> (path_lt(x, y) == (x[i] < y[i])) && (path_lt(y, x) == (y[i] < x[i])),
        i == x.len() && i < y.len() ==> path_lt(x, y) && !path_lt(y, x),
        (components(x) == components(y)) == (x == y),
{
    lemma_plain_name_components(x);
    lemma_plain_name_components(y);
    let cx = components(x);
    let cy = components(y);
    assert(cx[0] == Comp::Normal(x));
    assert(cy[0] == Comp::Normal(y));
    assert(cx.drop_first() =~= Seq::<Comp>::empty());
    assert(cy.drop_first() =~= Seq::<Comp>::empty());
    lemma_bytes_lt_irreflexive(x);
    if i < x.len() && i < y.len() {
        law_name_order_is_byte_order(x, y, i);
        assert forall|k: int| 0 <= k < i implies y[k] == x[k] by {}
        law_name_order_is_byte_order(y, x, i);
        lemma_comps_lt_irreflexive(Seq::<Comp>::empty());
    } else if i == x.len() && i < y.len() {
        law_name_order_is_byte_order(x, y, i);
    }
    if cx == cy {
        assert(cx[0] == cy[0]);
    }
}

} // verus!
