//! Orders the runs of status lines in a transcript.
//!
//! A status line begins with an uppercase ASCII letter followed by a space.
//! Each maximal run of status lines is written back in byte-wise order; every
//! other line passes through unchanged and in place.

use vstd::prelude::*;
use vstd::multiset::Multiset;
use crate::text::{append_bytes, byte_seqs, copy_range, is_utf8, lemma_lines_of_bytes, lemma_lines_of_render, lemma_render_concat, lemma_render_one, lines_of, render, split_lines, write_lines};

verus! {

/// A line that begins with an uppercase ASCII letter and a space.
pub open spec fn is_status_line(line: Seq<u8>) -> bool {
    line.len() > 1 && 65u8 <= line[0] <= 90u8 && line[1] == 32u8
}

/// Byte-wise lexicographic order (`<=`), the order of `String`'s `Ord`.
pub open spec fn bytes_le(a: Seq<u8>, b: Seq<u8>) -> bool
    decreases a.len(),
{
    if a.len() == 0 {
        true
    } else if b.len() == 0 {
        false
    } else if a[0] < b[0] {
        true
    } else if a[0] > b[0] {
        false
    } else {
        bytes_le(a.drop_first(), b.drop_first())
    }
}

/// Inserts `x` before the first element that is not below it.
pub open spec fn insert_sorted(x: Seq<u8>, s: Seq<Seq<u8>>) -> Seq<Seq<u8>>
    decreases s.len(),
{
    if s.len() == 0 {
        seq![x]
    } else if bytes_le(x, s[0]) {
        seq![x] + s
    } else {
        seq![s[0]] + insert_sorted(x, s.drop_first())
    }
}

/// The lines of `s` in byte-wise order.
pub open spec fn sort_lines(s: Seq<Seq<u8>>) -> Seq<Seq<u8>>
    decreases s.len(),
{
    if s.len() == 0 {
        seq![]
    } else {
        insert_sorted(s.last(), sort_lines(s.drop_last()))
    }
}

/// After reading `ls`: the lines already written, and the pending run of status lines.
pub open spec fn run_state(ls: Seq<Seq<u8>>) -> (Seq<Seq<u8>>, Seq<Seq<u8>>)
    decreases ls.len(),
{
    if ls.len() == 0 {
        (seq![], seq![])
    } else {
        let (written, pending) = run_state(ls.drop_last());
        let line = ls.last();
        if is_status_line(line) {
            (written, pending.push(line))
        } else {
            (written + sort_lines(pending) + seq![line], seq![])
        }
    }
}

/// The output lines for the input lines `ls`.
pub open spec fn ordered_lines(ls: Seq<Seq<u8>>) -> Seq<Seq<u8>> {
    run_state(ls).0 + sort_lines(run_state(ls).1)
}

/// Index of the first line that is not valid UTF-8, or `ls.len()`.
pub open spec fn first_invalid(ls: Seq<Seq<u8>>) -> int
    decreases ls.len(),
{
    if ls.len() == 0 {
        0
    } else if !vstd::utf8::valid_utf8(ls[0]) {
        0
    } else {
        1 + first_invalid(ls.drop_first())
    }
}

/// Invalid UTF-8 on a line of the input.
#[derive(Debug, Clone, Copy, PartialEq, Eq)]
pub struct InvalidLine {
    /// Index of the offending line.
    pub line: usize,
}

proof fn lemma_first_invalid_at(ls: Seq<Seq<u8>>, k: int)
    requires
        0 <= k <= ls.len(),
        forall|j: int| 0 <= j < k ==> vstd::utf8::valid_utf8(#[trigger] ls[j]),
        k < ls.len() ==> !vstd::utf8::valid_utf8(ls[k]),
    ensures
        first_invalid(ls) == k,
    decreases ls.len(),
{
    if ls.len() > 0 && k > 0 {
        assert forall|j: int| 0 <= j < k - 1 implies vstd::utf8::valid_utf8(#[trigger] ls.drop_first()[j]) by {
            assert(ls.drop_first()[j] == ls[j + 1]);
        }
        lemma_first_invalid_at(ls.drop_first(), k - 1);
    }
}

proof fn lemma_bytes_le_step(a: Seq<u8>, b: Seq<u8>, i: int)
    requires
        0 <= i < a.len(),
        i < b.len(),
        a[i] == b[i],
    ensures
        bytes_le(a.skip(i), b.skip(i)) == bytes_le(a.skip(i + 1), b.skip(i + 1)),
{
    assert(a.skip(i).drop_first() == a.skip(i + 1));
    assert(b.skip(i).drop_first() == b.skip(i + 1));
}

/// Byte-wise `a <= b`.
pub fn bytes_le_exec(a: &[u8], b: &[u8]) -> (r: bool)
    ensures
        r == bytes_le(a@, b@),
{
    let mut i: usize = 0;
    proof {
        assert(a@.skip(0) == a@);
        assert(b@.skip(0) == b@);
    }
    while i < a.len() && i < b.len()
        invariant
            i <= a@.len(),
            i <= b@.len(),
            bytes_le(a@, b@) == bytes_le(a@.skip(i as int), b@.skip(i as int)),
        decreases a@.len() - i,
    {
        if a[i] < b[i] {
            return true;
        }
        if a[i] > b[i] {
            return false;
        }
        proof {
            lemma_bytes_le_step(a@, b@, i as int);
        }
        i = i + 1;
    }
    i == a.len()
}

/// Whether `line` is a status line: an uppercase ASCII letter, then a space.
pub fn is_buffer_line(line: &[u8]) -> (r: bool)
    ensures
        r == is_status_line(line@),
{
    line.len() > 1 && 65u8 <= line[0] && line[0] <= 90u8 && line[1] == 32u8
}

proof fn lemma_insert_sorted_at(x: Seq<u8>, s: Seq<Seq<u8>>, p: int)
    requires
        0 <= p <= s.len(),
        forall|q: int| 0 <= q < p ==> !bytes_le(x, #[trigger] s[q]),
        p < s.len() ==> bytes_le(x, s[p]),
    ensures
        insert_sorted(x, s) == s.insert(p, x),
    decreases s.len(),
{
    if s.len() == 0 {
        assert(s.insert(p, x) =~= seq![x]);
    } else if p == 0 {
        assert(s.insert(p, x) =~= seq![x] + s);
    } else {
        assert(!bytes_le(x, s[0]));
        assert forall|q: int| 0 <= q < p - 1 implies !bytes_le(x, #[trigger] s.drop_first()[q]) by {
            assert(s.drop_first()[q] == s[q + 1]);
        }
        lemma_insert_sorted_at(x, s.drop_first(), p - 1);
        assert(seq![s[0]] + s.drop_first().insert(p - 1, x) =~= s.insert(p, x));
    }
}

/// Inserts `line` into the run `buf` before the first line that is not below it.
fn insert_line(buf: &mut Vec<Vec<u8>>, line: Vec<u8>)
    ensures
        byte_seqs(final(buf)@) == insert_sorted(line@, byte_seqs(old(buf)@)),
{
    let ghost s = byte_seqs(buf@);
    let mut p: usize = 0;
    while p < buf.len()
        invariant
            p <= buf@.len(),
            buf@ == old(buf)@,
            s == byte_seqs(buf@),
            forall|q: int| 0 <= q < p ==> !bytes_le(line@, #[trigger] s[q]),
        ensures
            p <= buf@.len(),
            buf@ == old(buf)@,
            forall|q: int| 0 <= q < p ==> !bytes_le(line@, #[trigger] s[q]),
            p < buf@.len() ==> bytes_le(line@, s[p as int]),
        decreases buf@.len() - p,
    {
        if bytes_le_exec(line.as_slice(), buf[p].as_slice()) {
            break;
        }
        p = p + 1;
    }
    proof {
        lemma_insert_sorted_at(line@, s, p as int);
        assert(byte_seqs(buf@.insert(p as int, line)) =~= s.insert(p as int, line@));
    }
    buf.insert(p, line);
}

/// Writes the run `buf`, each line followed by `\n`, and empties it.
fn flush_run(buf: &mut Vec<Vec<u8>>, output: &mut Vec<u8>)
    ensures
        final(output)@ == old(output)@ + render(byte_seqs(old(buf)@)),
        final(buf)@.len() == 0,
{
    write_lines(output, buf);
    buf.clear();
}

/// Copies `input` to `output` line by line, writing each maximal run of status
/// lines in byte-wise order and every other line unchanged; each line is
/// followed by `\n`. Lines are split as `BufRead::lines` splits them. At the
/// first line that is not valid UTF-8 it stops, keeping what it has written,
/// and reports that line.
pub fn process_input(input: &[u8], output: &mut Vec<u8>) -> (r: Result<(), InvalidLine>)
    ensures
        ({
            let ls = lines_of(input@);
            let k = first_invalid(ls);
            &&& 0 <= k <= ls.len()
            &&& (r is Ok <==> k == ls.len())
            &&& (r matches Err(e) ==> e.line == k)
            &&& final(output)@ == old(output)@ + (if k == ls.len() {
                render(ordered_lines(ls))
            } else {
                render(run_state(ls.take(k)).0)
            })
        }),
{
    let lines = split_lines(input);
    let ghost ls = lines_of(input@);
    let mut buf: Vec<Vec<u8>> = Vec::new();
    let mut i: usize = 0;
    proof {
        assert(ls.take(0) == Seq::<Seq<u8>>::empty());
        assert(render(Seq::<Seq<u8>>::empty()) == Seq::<u8>::empty());
        assert(old(output)@ + Seq::<u8>::empty() == old(output)@);
        assert(byte_seqs(buf@) == Seq::<Seq<u8>>::empty());
    }
    let mut invalid: bool = false;
    while i < lines.len()
        invariant_except_break
            !invalid,
        invariant
            byte_seqs(lines@) == ls,
            i <= ls.len(),
            forall|j: int| 0 <= j < i ==> vstd::utf8::valid_utf8(#[trigger] ls[j]),
            output@ == old(output)@ + render(run_state(ls.take(i as int)).0),
            byte_seqs(buf@) == sort_lines(run_state(ls.take(i as int)).1),
        ensures
            i <= ls.len(),
            forall|j: int| 0 <= j < i ==> vstd::utf8::valid_utf8(#[trigger] ls[j]),
            output@ == old(output)@ + render(run_state(ls.take(i as int)).0),
            byte_seqs(buf@) == sort_lines(run_state(ls.take(i as int)).1),
            invalid ==> i < ls.len() && !vstd::utf8::valid_utf8(ls[i as int]),
            !invalid ==> i == ls.len(),
        decreases ls.len() - i,
    {
        let line = lines[i].as_slice();
        assert(line@ == ls[i as int]);
        if !is_utf8(line) {
            invalid = true;
            break;
        }
        let ghost before = run_state(ls.take(i as int));
        proof {
            let t = ls.take(i + 1);
            assert(t.drop_last() == ls.take(i as int));
            assert(t.last() == ls[i as int]);
        }
        if is_buffer_line(line) {
            let copy = copy_range(line, 0, line.len());
            assert(line@.subrange(0, line@.len() as int) == line@);
            proof {
                assert(before.1.push(line@).drop_last() == before.1);
                assert(before.1.push(line@).last() == line@);
            }
            insert_line(&mut buf, copy);
        } else {
            flush_run(&mut buf, output);
            append_bytes(output, line);
            output.push(10u8);
            proof {
                lemma_render_concat(before.0 + sort_lines(before.1), seq![line@]);
                lemma_render_concat(before.0, sort_lines(before.1));
                lemma_render_one(line@);
                assert(byte_seqs(buf@) == Seq::<Seq<u8>>::empty());
                assert(sort_lines(Seq::<Seq<u8>>::empty()) == Seq::<Seq<u8>>::empty());
            }
        }
        i = i + 1;
    }
    if invalid {
        proof {
            lemma_first_invalid_at(ls, i as int);
        }
        return Err(InvalidLine { line: i });
    }
    proof {
        lemma_first_invalid_at(ls, ls.len() as int);
        assert(ls.take(ls.len() as int) == ls);
        lemma_render_concat(run_state(ls).0, sort_lines(run_state(ls).1));
    }
    flush_run(&mut buf, output);
    Ok(())
}

/// Every two lines of `s` are in byte-wise order.
pub open spec fn sorted_lines(s: Seq<Seq<u8>>) -> bool {
    forall|i: int, j: int| 0 <= i < j < s.len() ==> bytes_le(#[trigger] s[i], #[trigger] s[j])
}

/// Where `insert_sorted` puts `x`.
pub open spec fn insert_pos(x: Seq<u8>, s: Seq<Seq<u8>>) -> int
    decreases s.len(),
{
    if s.len() == 0 {
        0
    } else if bytes_le(x, s[0]) {
        0
    } else {
        1 + insert_pos(x, s.drop_first())
    }
}

pub proof fn lemma_bytes_le_total(a: Seq<u8>, b: Seq<u8>)
    ensures
        bytes_le(a, b) || bytes_le(b, a),
    decreases a.len(),
{
    if a.len() > 0 && b.len() > 0 && a[0] == b[0] {
        lemma_bytes_le_total(a.drop_first(), b.drop_first());
    }
}

pub proof fn lemma_bytes_le_trans(a: Seq<u8>, b: Seq<u8>, c: Seq<u8>)
    requires
        bytes_le(a, b),
        bytes_le(b, c),
    ensures
        bytes_le(a, c),
    decreases a.len(),
{
    if a.len() > 0 && b.len() > 0 && c.len() > 0 && a[0] == b[0] && b[0] == c[0] {
        lemma_bytes_le_trans(a.drop_first(), b.drop_first(), c.drop_first());
    }
}

proof fn lemma_insert_pos(x: Seq<u8>, s: Seq<Seq<u8>>)
    ensures
        0 <= insert_pos(x, s) <= s.len(),
        forall|q: int| 0 <= q < insert_pos(x, s) ==> !bytes_le(x, #[trigger] s[q]),
        insert_pos(x, s) < s.len() ==> bytes_le(x, s[insert_pos(x, s)]),
    decreases s.len(),
{
    if s.len() > 0 && !bytes_le(x, s[0]) {
        lemma_insert_pos(x, s.drop_first());
        assert forall|q: int| 0 <= q < insert_pos(x, s) implies !bytes_le(x, #[trigger] s[q]) by {
            if q > 0 {
                assert(s[q] == s.drop_first()[q - 1]);
            }
        }
    }
}

proof fn lemma_insert_keeps_sorted(x: Seq<u8>, s: Seq<Seq<u8>>, p: int)
    requires
        sorted_lines(s),
        0 <= p <= s.len(),
        forall|q: int| 0 <= q < p ==> !bytes_le(x, #[trigger] s[q]),
        p < s.len() ==> bytes_le(x, s[p]),
    ensures
        sorted_lines(s.insert(p, x)),
{
    let t = s.insert(p, x);
    assert forall|i: int, j: int| 0 <= i < j < t.len() implies bytes_le(#[trigger] t[i], #[trigger] t[j]) by {
        if i < p {
            if j < p {
                assert(t[i] == s[i] && t[j] == s[j]);
            } else if j == p {
                lemma_bytes_le_total(x, s[i]);
            } else {
                assert(t[j] == s[j - 1]);
                if i < j - 1 {
                    assert(bytes_le(s[i], s[j - 1]));
                }
            }
        } else if i == p {
            assert(t[j] == s[j - 1]);
            if j - 1 > p {
                assert(bytes_le(s[p], s[j - 1]));
                lemma_bytes_le_trans(x, s[p], s[j - 1]);
            }
        } else {
            assert(t[i] == s[i - 1] && t[j] == s[j - 1]);
        }
    }
}

/// Sorting keeps the lines and puts them in byte-wise order.
pub proof fn lemma_sort_lines(s: Seq<Seq<u8>>)
    ensures
        sort_lines(s).to_multiset() == s.to_multiset(),
        sorted_lines(sort_lines(s)),
        sort_lines(s).len() == s.len(),
    decreases s.len(),
{
    broadcast use vstd::seq_lib::group_to_multiset_ensures;

    if s.len() == 0 {
        assert(s.to_multiset() =~= Multiset::<Seq<u8>>::empty());
        assert(sort_lines(s).to_multiset() =~= Multiset::<Seq<u8>>::empty());
    } else {
        let prev = sort_lines(s.drop_last());
        lemma_sort_lines(s.drop_last());
        let p = insert_pos(s.last(), prev);
        lemma_insert_pos(s.last(), prev);
        lemma_insert_sorted_at(s.last(), prev, p);
        lemma_insert_keeps_sorted(s.last(), prev, p);
        assert(s.drop_last().push(s.last()) == s);
        vstd::seq_lib::to_multiset_insert(prev, p, s.last());
    }
}

/// The shape of the state after reading `ls`.
proof fn lemma_run_state(ls: Seq<Seq<u8>>)
    ensures
        ({
            let (w, p) = run_state(ls);
            &&& w.len() + p.len() == ls.len()
            &&& p == ls.subrange(w.len() as int, ls.len() as int)
            &&& forall|k: int| 0 <= k < p.len() ==> is_status_line(#[trigger] p[k])
            &&& forall|k: int| 0 <= k < w.len() && !is_status_line(ls[k]) ==> #[trigger] w[k] == ls[k]
            &&& forall|k: int| 0 <= k < w.len() && is_status_line(ls[k]) ==> is_status_line(#[trigger] w[k])
            &&& w.len() > 0 ==> !is_status_line(w.last())
            &&& forall|k: int| 0 <= k < w.len() - 1 && is_status_line(#[trigger] w[k]) && is_status_line(w[k + 1])
                ==> bytes_le(w[k], w[k + 1])
            &&& w.to_multiset().add(p.to_multiset()) == ls.to_multiset()
        }),
    decreases ls.len(),
{
    broadcast use vstd::seq_lib::group_to_multiset_ensures;
    broadcast use vstd::multiset::group_multiset_axioms;

    if ls.len() == 0 {
        assert(ls.to_multiset() =~= Multiset::<Seq<u8>>::empty());
        assert(Seq::<Seq<u8>>::empty().to_multiset() =~= Multiset::<Seq<u8>>::empty());
        assert(ls.subrange(0, 0) =~= Seq::<Seq<u8>>::empty());
        assert(Multiset::<Seq<u8>>::empty().add(Multiset::<Seq<u8>>::empty()) =~= Multiset::<Seq<u8>>::empty());
    } else {
        let prev = ls.drop_last();
        lemma_run_state(prev);
        let (w, p) = run_state(prev);
        let line = ls.last();
        assert(prev.push(line) == ls);
        if is_status_line(line) {
            assert(p.push(line) =~= ls.subrange(w.len() as int, ls.len() as int));
            assert forall|k: int| 0 <= k < w.len() && !is_status_line(ls[k]) implies #[trigger] w[k] == ls[k] by {
                assert(ls[k] == prev[k]);
            }
            assert forall|k: int| 0 <= k < w.len() && is_status_line(ls[k]) implies is_status_line(#[trigger] w[k]) by {
                assert(ls[k] == prev[k]);
            }
            assert forall|k: int| 0 <= k < p.push(line).len() implies is_status_line(#[trigger] p.push(line)[k]) by {
                if k < p.len() {
                    assert(p.push(line)[k] == p[k]);
                }
            }
            assert(w.to_multiset().add(p.push(line).to_multiset()) =~= ls.to_multiset());
        } else {
            let sp = sort_lines(p);
            lemma_sort_lines(p);
            let w2 = w + sp + seq![line];
            assert(run_state(ls).0 == w2);
            assert(run_state(ls).1 == Seq::<Seq<u8>>::empty());
            assert(w2.len() == ls.len());
            assert(ls.subrange(ls.len() as int, ls.len() as int) =~= Seq::<Seq<u8>>::empty());
            assert forall|k: int| 0 <= k < sp.len() implies is_status_line(#[trigger] sp[k]) by {
                assert(sp.to_multiset().count(sp[k]) > 0);
                assert(p.contains(sp[k]));
            }
            assert forall|k: int| 0 <= k < w2.len() && !is_status_line(ls[k]) implies #[trigger] w2[k] == ls[k] by {
                if k < w.len() {
                    assert(ls[k] == prev[k]);
                } else if k < w.len() + sp.len() {
                    assert(ls[k] == p[k - w.len()]);
                }
            }
            assert forall|k: int| 0 <= k < w2.len() && is_status_line(ls[k]) implies is_status_line(#[trigger] w2[k]) by {
                if k < w.len() {
                    assert(ls[k] == prev[k]);
                } else if k < w.len() + sp.len() {
                    assert(w2[k] == sp[k - w.len()]);
                }
            }
            assert forall|k: int| 0 <= k < w2.len() - 1 && is_status_line(#[trigger] w2[k]) && is_status_line(w2[k + 1])
                implies bytes_le(w2[k], w2[k + 1]) by {
                if k < w.len() - 1 {
                    assert(w2[k] == w[k] && w2[k + 1] == w[k + 1]);
                } else if k == w.len() - 1 {
                    assert(w2[k] == w.last());
                } else if k < w.len() + sp.len() - 1 {
                    assert(w2[k] == sp[k - w.len()] && w2[k + 1] == sp[k + 1 - w.len()]);
                } else {
                    assert(w2[k + 1] == line);
                }
            }
            vstd::seq_lib::lemma_multiset_commutative(w + sp, seq![line]);
            vstd::seq_lib::lemma_multiset_commutative(w, sp);
            assert(seq![line].to_multiset() =~= Multiset::<Seq<u8>>::empty().insert(line)) by {
                assert(Seq::<Seq<u8>>::empty().push(line) == seq![line]);
                assert(Seq::<Seq<u8>>::empty().to_multiset() =~= Multiset::<Seq<u8>>::empty());
            }
            assert(Seq::<Seq<u8>>::empty().to_multiset() =~= Multiset::<Seq<u8>>::empty());
            assert(w2.to_multiset().add(Seq::<Seq<u8>>::empty().to_multiset()) =~= ls.to_multiset());
        }
    }
}

/// The output holds exactly the input's lines: it is a permutation of them.
pub proof fn law_output_is_a_permutation(ls: Seq<Seq<u8>>)
    ensures
        ordered_lines(ls).to_multiset() == ls.to_multiset(),
{
    broadcast use vstd::multiset::group_multiset_axioms;

    lemma_run_state(ls);
    let (w, p) = run_state(ls);
    lemma_sort_lines(p);
    vstd::seq_lib::lemma_multiset_commutative(w, sort_lines(p));
}

/// Every line that is not a status line keeps its position; every status line
/// is replaced by a status line.
pub proof fn law_other_lines_stay_in_place(ls: Seq<Seq<u8>>)
    ensures
        ordered_lines(ls).len() == ls.len(),
        forall|k: int| 0 <= k < ls.len() && !is_status_line(ls[k]) ==> #[trigger] ordered_lines(ls)[k] == ls[k],
        forall|k: int| 0 <= k < ls.len() && is_status_line(ls[k]) ==> is_status_line(#[trigger] ordered_lines(ls)[k]),
{
    broadcast use vstd::seq_lib::group_to_multiset_ensures;

    lemma_run_state(ls);
    let (w, p) = run_state(ls);
    let sp = sort_lines(p);
    lemma_sort_lines(p);
    let out = ordered_lines(ls);
    assert forall|k: int| 0 <= k < sp.len() implies is_status_line(#[trigger] sp[k]) by {
        assert(sp.to_multiset().count(sp[k]) > 0);
        assert(p.contains(sp[k]));
    }
    assert forall|k: int| 0 <= k < ls.len() && !is_status_line(ls[k]) implies #[trigger] out[k] == ls[k] by {
        if k >= w.len() {
            assert(ls[k] == p[k - w.len()]);
        }
    }
    assert forall|k: int| 0 <= k < ls.len() && is_status_line(ls[k]) implies is_status_line(#[trigger] out[k]) by {
        if k >= w.len() {
            assert(out[k] == sp[k - w.len()]);
        }
    }
}

/// Two status lines next to each other in the output are in byte-wise order.
pub proof fn law_status_runs_are_sorted(ls: Seq<Seq<u8>>)
    ensures
        forall|k: int| 0 <= k < ordered_lines(ls).len() - 1 && is_status_line(#[trigger] ordered_lines(ls)[k])
            && is_status_line(ordered_lines(ls)[k + 1]) ==> bytes_le(ordered_lines(ls)[k], ordered_lines(ls)[k + 1]),
{
    lemma_run_state(ls);
    let (w, p) = run_state(ls);
    let sp = sort_lines(p);
    lemma_sort_lines(p);
    let out = ordered_lines(ls);
    assert forall|k: int| 0 <= k < out.len() - 1 && is_status_line(#[trigger] out[k]) && is_status_line(out[k + 1])
        implies bytes_le(out[k], out[k + 1]) by {
        if k < w.len() - 1 {
            assert(out[k] == w[k] && out[k + 1] == w[k + 1]);
        } else if k == w.len() - 1 {
            assert(out[k] == w.last());
        } else {
            assert(out[k] == sp[k - w.len()] && out[k + 1] == sp[k + 1 - w.len()]);
        }
    }
}

/// `ls[a..b]` is a maximal run of status lines.
pub open spec fn is_run(ls: Seq<Seq<u8>>, a: int, b: int) -> bool {
    &&& 0 <= a < b <= ls.len()
    &&& forall|k: int| a <= k < b ==> is_status_line(#[trigger] ls[k])
    &&& (a == 0 || !is_status_line(ls[a - 1]))
    &&& (b == ls.len() || !is_status_line(ls[b]))
}

/// A run that ends within the written lines is written sorted, in place.
proof fn lemma_runs_written(ls: Seq<Seq<u8>>)
    ensures
        forall|a: int, b: int| #[trigger] is_run(ls, a, b) && b <= run_state(ls).0.len()
            ==> run_state(ls).0.subrange(a, b) == sort_lines(ls.subrange(a, b)),
    decreases ls.len(),
{
    if ls.len() > 0 {
        let prev = ls.drop_last();
        lemma_runs_written(prev);
        lemma_run_state(prev);
        lemma_run_state(ls);
        let (w, p) = run_state(prev);
        let line = ls.last();
        let n = ls.len() as int;
        assert(prev.push(line) == ls);
        if w.len() > 0 {
            if is_status_line(prev[w.len() - 1]) {
                assert(is_status_line(w[w.len() - 1]));
            }
        }
        assert forall|a: int, b: int| #[trigger] is_run(ls, a, b) && b <= run_state(ls).0.len()
            implies run_state(ls).0.subrange(a, b) == sort_lines(ls.subrange(a, b)) by {
            let w2 = run_state(ls).0;
            if b <= w.len() {
                assert(is_run(prev, a, b)) by {
                    assert forall|k: int| a <= k < b implies is_status_line(#[trigger] prev[k]) by {
                        assert(prev[k] == ls[k]);
                    }
                    if a > 0 {
                        assert(prev[a - 1] == ls[a - 1]);
                    }
                    if b < prev.len() {
                        assert(prev[b] == ls[b]);
                    }
                }
                assert(w2.subrange(a, b) =~= w.subrange(a, b));
                assert(ls.subrange(a, b) =~= prev.subrange(a, b));
            } else {
                // The run is the pending one, just flushed before the line.
                assert(!is_status_line(line));
                assert(w2 == w + sort_lines(p) + seq![line]);
                assert(ls[n - 1] == line);
                assert(b <= n - 1);
                if a < w.len() {
                    assert(is_status_line(ls[w.len() - 1]));
                    assert(prev[w.len() - 1] == ls[w.len() - 1]);
                }
                if a > w.len() {
                    assert(is_status_line(ls[a - 1])) by {
                        assert(ls[a - 1] == prev[a - 1]);
                        assert(prev[a - 1] == p[a - 1 - w.len()]);
                    }
                }
                assert(a == w.len());
                if b < n - 1 {
                    assert(is_status_line(ls[b])) by {
                        assert(ls[b] == prev[b]);
                        assert(prev[b] == p[b - w.len()]);
                    }
                }
                assert(b == n - 1);
                lemma_sort_lines(p);
                assert(w2.subrange(a, b) =~= sort_lines(p));
                assert(ls.subrange(a, b) =~= p);
            }
        }
    }
}

/// Each maximal run of status lines is written, in its place, in byte-wise
/// order; with the law that sorting keeps the lines and orders them, each run
/// of the output is a sorted permutation of the run at the same place in the input.
pub proof fn law_each_run_is_sorted_in_place(ls: Seq<Seq<u8>>)
    ensures
        forall|a: int, b: int| #[trigger] is_run(ls, a, b) ==> ordered_lines(ls).subrange(a, b) == sort_lines(ls.subrange(a, b)),
{
    lemma_runs_written(ls);
    lemma_run_state(ls);
    let (w, p) = run_state(ls);
    lemma_sort_lines(p);
    let out = ordered_lines(ls);
    let n = ls.len() as int;
    if w.len() > 0 {
        if is_status_line(ls[w.len() - 1]) {
            assert(is_status_line(w[w.len() - 1]));
        }
    }
    assert forall|a: int, b: int| #[trigger] is_run(ls, a, b) implies out.subrange(a, b) == sort_lines(ls.subrange(a, b)) by {
        if b <= w.len() {
            assert(out.subrange(a, b) =~= w.subrange(a, b));
        } else {
            if a < w.len() {
                assert(is_status_line(ls[w.len() - 1]));
            }
            if a > w.len() {
                assert(ls[a - 1] == p[a - 1 - w.len()]);
            }
            assert(a == w.len());
            if b < n {
                assert(ls[b] == p[b - w.len()]);
            }
            assert(b == n);
            assert(out.subrange(a, b) =~= sort_lines(p));
            assert(ls.subrange(a, b) =~= p);
        }
    }
}

/// Sorting keeps the lines and puts them in byte-wise order.
pub proof fn law_sorting_orders_a_permutation(s: Seq<Seq<u8>>)
    ensures
        sort_lines(s).to_multiset() == s.to_multiset(),
        sorted_lines(sort_lines(s)),
{
    lemma_sort_lines(s);
}

pub proof fn lemma_bytes_le_antisym(a: Seq<u8>, b: Seq<u8>)
    requires
        bytes_le(a, b),
        bytes_le(b, a),
    ensures
        a == b,
    decreases a.len(),
{
    if a.len() == 0 {
        assert(b.len() == 0);
        assert(a =~= b);
    } else {
        lemma_bytes_le_antisym(a.drop_first(), b.drop_first());
        assert(a =~= seq![a[0]] + a.drop_first());
        assert(b =~= seq![b[0]] + b.drop_first());
    }
}

/// Two sorted sequences with the same lines are the same sequence.
proof fn lemma_sorted_unique(s1: Seq<Seq<u8>>, s2: Seq<Seq<u8>>)
    requires
        sorted_lines(s1),
        sorted_lines(s2),
        s1.to_multiset() == s2.to_multiset(),
    ensures
        s1 == s2,
    decreases s1.len(),
{
    broadcast use vstd::seq_lib::group_to_multiset_ensures;

    vstd::seq_lib::to_multiset_len(s1);
    vstd::seq_lib::to_multiset_len(s2);
    if s1.len() == 0 {
        assert(s2.len() == 0);
        assert(s1 =~= s2);
    } else {
        assert(s2.len() == s1.len());
        let x = s1[0];
        let y = s2[0];
        assert(s1.to_multiset().count(x) > 0);
        assert(s2.contains(x));
        let j = choose|j: int| 0 <= j < s2.len() && s2[j] == x;
        assert(s2.to_multiset().count(y) > 0);
        assert(s1.contains(y));
        let k = choose|k: int| 0 <= k < s1.len() && s1[k] == y;
        if j > 0 {
            assert(bytes_le(s2[0], s2[j]));
        } else {
            lemma_bytes_le_total(y, x);
        }
        if k > 0 {
            assert(bytes_le(s1[0], s1[k]));
        } else {
            lemma_bytes_le_total(x, y);
        }
        lemma_bytes_le_antisym(x, y);
        let t1 = s1.drop_first();
        let t2 = s2.drop_first();
        assert(s1.remove(0) == t1);
        assert(s2.remove(0) == t2);
        assert(t1.to_multiset() == s1.to_multiset().remove(x));
        assert(t2.to_multiset() == s2.to_multiset().remove(y));
        assert forall|a: int, b: int| 0 <= a < b < t1.len() implies bytes_le(#[trigger] t1[a], #[trigger] t1[b]) by {
            assert(t1[a] == s1[a + 1] && t1[b] == s1[b + 1]);
        }
        assert forall|a: int, b: int| 0 <= a < b < t2.len() implies bytes_le(#[trigger] t2[a], #[trigger] t2[b]) by {
            assert(t2[a] == s2[a + 1] && t2[b] == s2[b + 1]);
        }
        lemma_sorted_unique(t1, t2);
        assert(s1 =~= seq![x] + t1);
        assert(s2 =~= seq![y] + t2);
    }
}

/// Start of the run of status lines that holds position `k`.
pub open spec fn run_start(ls: Seq<Seq<u8>>, k: int) -> int
    decreases k,
{
    if k <= 0 || !is_status_line(ls[k - 1]) {
        k
    } else {
        run_start(ls, k - 1)
    }
}

/// End of the run of status lines that holds position `k`.
pub open spec fn run_end(ls: Seq<Seq<u8>>, k: int) -> int
    decreases ls.len() - k,
{
    if k >= ls.len() || !is_status_line(ls[k]) {
        k
    } else {
        run_end(ls, k + 1)
    }
}

proof fn lemma_run_start(ls: Seq<Seq<u8>>, k: int)
    requires
        0 <= k <= ls.len(),
    ensures
        0 <= run_start(ls, k) <= k,
        run_start(ls, k) == 0 || !is_status_line(ls[run_start(ls, k) - 1]),
        forall|j: int| run_start(ls, k) <= j < k ==> is_status_line(#[trigger] ls[j]),
    decreases k,
{
    if k > 0 && is_status_line(ls[k - 1]) {
        lemma_run_start(ls, k - 1);
    }
}

proof fn lemma_run_end(ls: Seq<Seq<u8>>, k: int)
    requires
        0 <= k <= ls.len(),
    ensures
        k <= run_end(ls, k) <= ls.len(),
        run_end(ls, k) == ls.len() || !is_status_line(ls[run_end(ls, k)]),
        forall|j: int| k <= j < run_end(ls, k) ==> is_status_line(#[trigger] ls[j]),
    decreases ls.len() - k,
{
    if k < ls.len() && is_status_line(ls[k]) {
        lemma_run_end(ls, k + 1);
    }
}

/// Inputs that differ only in the order of the lines within each run of
/// status lines give the same output: the order in which status lines
/// arrive does not matter.
pub proof fn law_output_ignores_order_within_runs(ls1: Seq<Seq<u8>>, ls2: Seq<Seq<u8>>)
    requires
        ls1.len() == ls2.len(),
        forall|k: int| 0 <= k < ls1.len() ==> is_status_line(#[trigger] ls1[k]) == is_status_line(ls2[k]),
        forall|k: int| 0 <= k < ls1.len() && !is_status_line(ls1[k]) ==> #[trigger] ls1[k] == ls2[k],
        forall|a: int, b: int| #[trigger] is_run(ls1, a, b) ==> ls1.subrange(a, b).to_multiset() == ls2.subrange(a, b).to_multiset(),
    ensures
        ordered_lines(ls1) == ordered_lines(ls2),
{
    let o1 = ordered_lines(ls1);
    let o2 = ordered_lines(ls2);
    law_other_lines_stay_in_place(ls1);
    law_other_lines_stay_in_place(ls2);
    law_each_run_is_sorted_in_place(ls1);
    law_each_run_is_sorted_in_place(ls2);
    assert forall|k: int| 0 <= k < o1.len() implies o1[k] == o2[k] by {
        if !is_status_line(ls1[k]) {
            assert(o1[k] == ls1[k]);
            assert(o2[k] == ls2[k]);
        } else {
            lemma_run_start(ls1, k);
            lemma_run_end(ls1, k);
            let a = run_start(ls1, k);
            let b = run_end(ls1, k);
            assert(is_status_line(ls1[k]));
            assert(b > k);
            assert(is_run(ls1, a, b));
            assert(is_run(ls2, a, b)) by {
                assert forall|j: int| a <= j < b implies is_status_line(#[trigger] ls2[j]) by {
                    assert(is_status_line(ls1[j]));
                }
                if a > 0 {
                    assert(!is_status_line(ls1[a - 1]));
                }
                if b < ls1.len() {
                    assert(!is_status_line(ls1[b]));
                }
            }
            let r1 = ls1.subrange(a, b);
            let r2 = ls2.subrange(a, b);
            lemma_sort_lines(r1);
            lemma_sort_lines(r2);
            lemma_sorted_unique(sort_lines(r1), sort_lines(r2));
            assert(o1.subrange(a, b) == o2.subrange(a, b));
            assert(o1[k] == o1.subrange(a, b)[k - a]);
            assert(o2[k] == o2.subrange(a, b)[k - a]);
        }
    }
    assert(o1 =~= o2);
}

/// Ordering the output again changes nothing: the output's runs are already
/// sorted, and every other line is where it was.
pub proof fn law_ordering_is_idempotent(ls: Seq<Seq<u8>>)
    ensures
        ordered_lines(ordered_lines(ls)) == ordered_lines(ls),
{
    let o = ordered_lines(ls);
    law_other_lines_stay_in_place(ls);
    law_each_run_is_sorted_in_place(ls);
    assert forall|k: int| 0 <= k < o.len() implies is_status_line(#[trigger] o[k]) == is_status_line(ls[k]) by {
        if !is_status_line(ls[k]) {
            assert(o[k] == ls[k]);
        }
    }
    assert forall|a: int, b: int| #[trigger] is_run(o, a, b) implies o.subrange(a, b).to_multiset() == ls.subrange(a, b).to_multiset() by {
        assert(is_run(ls, a, b)) by {
            assert forall|k: int| a <= k < b implies is_status_line(#[trigger] ls[k]) by {
                assert(is_status_line(o[k]));
            }
            if a > 0 {
                assert(!is_status_line(o[a - 1]));
            }
            if b < ls.len() {
                assert(!is_status_line(o[b]));
            }
        }
        lemma_sort_lines(ls.subrange(a, b));
    }
    law_output_ignores_order_within_runs(o, ls);
}

/// Running the sorter on its own output gives that output again: for an input
/// without `\r` whose lines are all valid UTF-8, the output reads back as the
/// ordered lines, all valid UTF-8, and ordering them again writes the same text.
pub proof fn law_sorting_twice_changes_nothing(input: Seq<u8>)
    requires
        !input.contains(13u8),
        first_invalid(lines_of(input)) == lines_of(input).len(),
    ensures
        ({
            let out = ordered_lines(lines_of(input));
            &&& lines_of(render(out)) == out
            &&& first_invalid(out) == out.len()
            &&& render(ordered_lines(lines_of(render(out)))) == render(out)
        }),
{
    broadcast use vstd::seq_lib::group_to_multiset_ensures;

    let ls = lines_of(input);
    let out = ordered_lines(ls);
    lemma_lines_of_bytes(input);
    law_output_is_a_permutation(ls);
    lemma_first_invalid_valid(ls);
    assert forall|k: int| 0 <= k < out.len() implies ls.contains(#[trigger] out[k]) by {
        assert(out.to_multiset().count(out[k]) > 0);
    }
    assert forall|k: int| 0 <= k < out.len() implies !(#[trigger] out[k]).contains(10u8)
        && !out[k].contains(13u8) && vstd::utf8::valid_utf8(out[k]) by {
        assert(ls.contains(out[k]));
        let j = choose|j: int| 0 <= j < ls.len() && ls[j] == out[k];
        assert(!ls[j].contains(10u8));
        assert(!ls[j].contains(13u8));
    }
    assert forall|k: int| 0 <= k < out.len() implies !((#[trigger] out[k]).len() > 0 && out[k].last() == 13u8) by {
        if out[k].len() > 0 && out[k].last() == 13u8 {
            assert(out[k][out[k].len() - 1] == 13u8);
            assert(out[k].contains(13u8));
        }
    }
    lemma_lines_of_render(out);
    lemma_first_invalid_at(out, out.len() as int);
    law_ordering_is_idempotent(ls);
}

/// Where no line is invalid, every line is valid UTF-8.
proof fn lemma_first_invalid_valid(ls: Seq<Seq<u8>>)
    requires
        first_invalid(ls) == ls.len(),
    ensures
        forall|j: int| 0 <= j < ls.len() ==> vstd::utf8::valid_utf8(#[trigger] ls[j]),
    decreases ls.len(),
{
    if ls.len() > 0 {
        assert(vstd::utf8::valid_utf8(ls[0]));
        lemma_first_invalid_valid(ls.drop_first());
        assert forall|j: int| 0 <= j < ls.len() implies vstd::utf8::valid_utf8(#[trigger] ls[j]) by {
            if j > 0 {
                assert(ls[j] == ls.drop_first()[j - 1]);
            }
        }
    }
}

/// Lines compare byte by byte as unsigned bytes: at the first position where
/// they differ, the line with the smaller byte comes first (so `M` (77) comes
/// before `m` (109)).
pub proof fn law_line_order_is_byte_order(a: Seq<u8>, b: Seq<u8>, i: int)
    requires
        0 <= i < a.len(),
        i < b.len(),
        forall|k: int| 0 <= k < i ==> a[k] == b[k],
        a[i] != b[i],
    ensures
        bytes_le(a, b) == (a[i] < b[i]),
        bytes_le(b, a) == (b[i] < a[i]),
    decreases i,
{
    if i > 0 {
        assert forall|k: int| 0 <= k < i - 1 implies a.drop_first()[k] == b.drop_first()[k] by {
            assert(a[k + 1] == b[k + 1]);
        }
        assert(a[0] == b[0]);
        law_line_order_is_byte_order(a.drop_first(), b.drop_first(), i - 1);
    }
}

/// A line comes before every line that it begins, and not after a longer one.
pub proof fn law_prefix_comes_first(a: Seq<u8>, b: Seq<u8>)
    requires
        a.len() <= b.len(),
        forall|k: int| 0 <= k < a.len() ==> a[k] == b[k],
    ensures
        bytes_le(a, b),
        a.len() < b.len() ==> !bytes_le(b, a),
    decreases a.len(),
{
    if a.len() > 0 {
        assert forall|k: int| 0 <= k < a.len() - 1 implies a.drop_first()[k] == b.drop_first()[k] by {
            assert(a[k + 1] == b[k + 1]);
        }
        assert(a[0] == b[0]);
        law_prefix_comes_first(a.drop_first(), b.drop_first());
    }
}

} // verus!
