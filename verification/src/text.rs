//! Byte-level text utilities shared by the store format and the line sorter.

use vstd::prelude::*;

verus! {

/// The byte contents of each vector in `v`.
pub open spec fn byte_seqs(v: Seq<Vec<u8>>) -> Seq<Seq<u8>> {
    Seq::new(v.len(), |i: int| v[i]@)
}

pub proof fn lemma_byte_seqs_push(v: Seq<Vec<u8>>, x: Vec<u8>)
    ensures
        byte_seqs(v.push(x)) == byte_seqs(v).push(x@),
{
    assert(byte_seqs(v.push(x)) =~= byte_seqs(v).push(x@));
}

/// Index of the first `c` in `b`, or `b.len()` when there is none.
pub open spec fn byte_index(b: Seq<u8>, c: u8) -> int
    decreases b.len(),
{
    if b.len() == 0 {
        0
    } else if b[0] == c {
        0
    } else {
        1 + byte_index(b.drop_first(), c)
    }
}

/// A line without its terminator: a trailing `\r` is dropped as well.
pub open spec fn strip_cr(line: Seq<u8>) -> Seq<u8> {
    if line.len() > 0 && line.last() == 13u8 {
        line.drop_last()
    } else {
        line
    }
}

/// Each line followed by `\n`.
pub open spec fn render(ls: Seq<Seq<u8>>) -> Seq<u8>
    decreases ls.len(),
{
    if ls.len() == 0 {
        seq![]
    } else {
        render(ls.drop_last()) + ls.last() + seq![10u8]
    }
}

pub proof fn lemma_render_concat(a: Seq<Seq<u8>>, b: Seq<Seq<u8>>)
    ensures
        render(a + b) == render(a) + render(b),
    decreases b.len(),
{
    if b.len() == 0 {
        assert(a + b == a);
        assert(render(b) == Seq::<u8>::empty());
        assert(render(a) + render(b) == render(a));
    } else {
        lemma_render_concat(a, b.drop_last());
        assert((a + b).drop_last() == a + b.drop_last());
        assert((a + b).last() == b.last());
        assert(render(a) + render(b.drop_last()) + b.last() + seq![10u8]
            == render(a) + (render(b.drop_last()) + b.last() + seq![10u8]));
    }
}

pub proof fn lemma_render_one(x: Seq<u8>)
    ensures
        render(seq![x]) == x + seq![10u8],
{
    assert(seq![x].drop_last() == Seq::<Seq<u8>>::empty());
    assert(render(Seq::<Seq<u8>>::empty()) == Seq::<u8>::empty());
    assert(Seq::<u8>::empty() + x == x);
}

/// Writes each line of `ls` followed by `\n` to `out`.
pub fn write_lines(out: &mut Vec<u8>, ls: &Vec<Vec<u8>>)
    ensures
        final(out)@ == old(out)@ + render(byte_seqs(ls@)),
{
    let ghost s = byte_seqs(ls@);
    let mut i: usize = 0;
    while i < ls.len()
        invariant
            i <= ls@.len(),
            s == byte_seqs(ls@),
            out@ == old(out)@ + render(s.take(i as int)),
        decreases ls@.len() - i,
    {
        append_bytes(out, ls[i].as_slice());
        out.push(10u8);
        proof {
            let t = s.take(i + 1);
            assert(t.drop_last() == s.take(i as int));
            assert(t.last() == s[i as int]);
        }
        i = i + 1;
    }
    proof {
        assert(s.take(s.len() as int) == s);
    }
}

/// Bytes below 128 are valid UTF-8.
pub proof fn lemma_ascii_valid_utf8(b: Seq<u8>)
    requires
        forall|i: int| 0 <= i < b.len() ==> #[trigger] b[i] < 128u8,
    ensures
        vstd::utf8::valid_utf8(b),
    decreases b.len(),
{
    if b.len() > 0 {
        lemma_ascii_valid_utf8(b.drop_first());
        let one = seq![b[0]];
        assert(vstd::utf8::pop_first_scalar(one) =~= Seq::<u8>::empty());
        assert(vstd::utf8::valid_utf8(Seq::<u8>::empty()));
        assert(vstd::utf8::valid_utf8(one));
        vstd::utf8::valid_utf8_concat(one, b.drop_first());
        assert(one + b.drop_first() == b);
    }
}

pub proof fn lemma_render_front(ls: Seq<Seq<u8>>)
    requires
        ls.len() > 0,
    ensures
        render(ls) == ls[0] + seq![10u8] + render(ls.drop_first()),
{
    lemma_render_concat(seq![ls[0]], ls.drop_first());
    lemma_render_one(ls[0]);
    assert(seq![ls[0]] + ls.drop_first() == ls);
}

/// Lines without a newline and not ending in `\r`, each written with `\n`, read back as themselves.
pub proof fn lemma_lines_of_render(ls: Seq<Seq<u8>>)
    requires
        forall|i: int| 0 <= i < ls.len() ==> !(#[trigger] ls[i]).contains(10u8),
        forall|i: int| 0 <= i < ls.len() ==> !((#[trigger] ls[i]).len() > 0 && ls[i].last() == 13u8),
    ensures
        lines_of(render(ls)) == ls,
    decreases ls.len(),
{
    if ls.len() == 0 {
        assert(render(ls) == Seq::<u8>::empty());
        assert(lines_of(Seq::<u8>::empty()) == Seq::<Seq<u8>>::empty());
        assert(ls == Seq::<Seq<u8>>::empty());
    } else {
        let x = ls[0];
        let rest = ls.drop_first();
        assert forall|i: int| 0 <= i < rest.len() implies !(#[trigger] rest[i]).contains(10u8) by {
            assert(rest[i] == ls[i + 1]);
        }
        assert forall|i: int| 0 <= i < rest.len() implies !((#[trigger] rest[i]).len() > 0 && rest[i].last() == 13u8) by {
            assert(rest[i] == ls[i + 1]);
        }
        lemma_lines_of_render(rest);
        lemma_render_front(ls);
        let b = x + seq![10u8] + render(rest);
        assert forall|j: int| 0 <= j < x.len() implies b[j] != 10u8 by {
            assert(b[j] == x[j]);
            if x[j] == 10u8 {
                assert(x.contains(10u8));
            }
        }
        assert(b[x.len() as int] == 10u8);
        lemma_byte_index_at(b, 10u8, x.len() as int);
        assert(b.take(x.len() as int) == x);
        assert(strip_cr(x) == x);
        assert(b.skip(x.len() as int + 1) == render(rest));
        assert(ls == seq![x] + rest);
    }
}

/// The lines of `b` hold no `\n`, and no `\r` where `b` holds none.
pub proof fn lemma_lines_of_bytes(b: Seq<u8>)
    ensures
        forall|i: int| 0 <= i < lines_of(b).len() ==> !(#[trigger] lines_of(b)[i]).contains(10u8),
        !b.contains(13u8) ==> forall|i: int| 0 <= i < lines_of(b).len() ==> !(#[trigger] lines_of(b)[i]).contains(13u8),
    decreases b.len(),
{
    if b.len() > 0 {
        let i = byte_index(b, 10u8);
        lemma_byte_index_bounds(b, 10u8);
        let ls = lines_of(b);
        if i >= b.len() {
            assert(ls == seq![b]);
            assert(!b.contains(10u8)) by {
                if b.contains(10u8) {
                    let j = choose|j: int| 0 <= j < b.len() && b[j] == 10u8;
                }
            }
        } else {
            let first = strip_cr(b.take(i));
            let rest = b.skip(i + 1);
            lemma_lines_of_bytes(rest);
            assert(ls == seq![first] + lines_of(rest));
            assert(!first.contains(10u8)) by {
                if first.contains(10u8) {
                    let j = choose|j: int| 0 <= j < first.len() && first[j] == 10u8;
                    assert(b[j] == 10u8);
                }
            }
            if !b.contains(13u8) {
                assert(!rest.contains(13u8)) by {
                    if rest.contains(13u8) {
                        let j = choose|j: int| 0 <= j < rest.len() && rest[j] == 13u8;
                        assert(b[j + i + 1] == 13u8);
                    }
                }
                assert(!first.contains(13u8)) by {
                    if first.contains(13u8) {
                        let j = choose|j: int| 0 <= j < first.len() && first[j] == 13u8;
                        assert(b[j] == 13u8);
                    }
                }
            }
            assert forall|k: int| 0 <= k < ls.len() implies !(#[trigger] ls[k]).contains(10u8) by {
                if k > 0 {
                    assert(ls[k] == lines_of(rest)[k - 1]);
                }
            }
            if !b.contains(13u8) {
                assert forall|k: int| 0 <= k < ls.len() implies !(#[trigger] ls[k]).contains(13u8) by {
                    if k > 0 {
                        assert(ls[k] == lines_of(rest)[k - 1]);
                    }
                }
            }
        }
    }
}

/// The lines of `b`, split as `BufRead::lines` splits them: at each `\n`, with a
/// `\r` just before the `\n` removed, and a last line without `\n` kept as it is
/// when it is not empty.
pub open spec fn lines_of(b: Seq<u8>) -> Seq<Seq<u8>>
    decreases b.len(),
{
    if b.len() == 0 {
        seq![]
    } else {
        let i = byte_index(b, 10u8);
        proof {
            lemma_byte_index_bounds(b, 10u8);
        }
        if i >= b.len() {
            seq![b]
        } else {
            seq![strip_cr(b.take(i))] + lines_of(b.skip(i + 1))
        }
    }
}

pub proof fn lemma_byte_index_bounds(b: Seq<u8>, c: u8)
    ensures
        0 <= byte_index(b, c) <= b.len(),
        forall|k: int| 0 <= k < byte_index(b, c) ==> b[k] != c,
        byte_index(b, c) < b.len() ==> b[byte_index(b, c)] == c,
    decreases b.len(),
{
    if b.len() > 0 && b[0] != c {
        lemma_byte_index_bounds(b.drop_first(), c);
        assert forall|k: int| 0 <= k < byte_index(b, c) implies b[k] != c by {
            if k > 0 {
                assert(b.drop_first()[k - 1] == b[k]);
            }
        }
    }
}

/// The first `c` is where it is: at `k` when `b[k]` is `c` and no byte before is.
pub proof fn lemma_byte_index_at(b: Seq<u8>, c: u8, k: int)
    requires
        0 <= k <= b.len(),
        forall|j: int| 0 <= j < k ==> b[j] != c,
        k < b.len() ==> b[k] == c,
    ensures
        byte_index(b, c) == k,
    decreases b.len(),
{
    if b.len() > 0 && k > 0 {
        assert forall|j: int| 0 <= j < k - 1 implies b.drop_first()[j] != c by {
            assert(b.drop_first()[j] == b[j + 1]);
        }
        lemma_byte_index_at(b.drop_first(), c, k - 1);
    }
}

/// Copies `s[start..end]` into a fresh vector.
pub fn copy_range(s: &[u8], start: usize, end: usize) -> (r: Vec<u8>)
    requires
        start <= end <= s@.len(),
    ensures
        r@ == s@.subrange(start as int, end as int),
{
    let mut r: Vec<u8> = Vec::new();
    let mut i: usize = start;
    while i < end
        invariant
            start <= i <= end <= s@.len(),
            r@ == s@.subrange(start as int, i as int),
        decreases end - i,
    {
        r.push(s[i]);
        i = i + 1;
    }
    r
}

/// Whether `a` and `b` hold the same bytes.
pub fn bytes_equal(a: &[u8], b: &[u8]) -> (r: bool)
    ensures
        r == (a@ == b@),
{
    if a.len() != b.len() {
        return false;
    }
    let mut i: usize = 0;
    while i < a.len()
        invariant
            a@.len() == b@.len(),
            i <= a@.len(),
            forall|k: int| 0 <= k < i ==> a@[k] == b@[k],
        decreases a@.len() - i,
    {
        if a[i] != b[i] {
            return false;
        }
        i = i + 1;
    }
    assert(a@ =~= b@);
    true
}

/// Appends the bytes of `b` to `out`.
pub fn append_bytes(out: &mut Vec<u8>, b: &[u8])
    ensures
        final(out)@ == old(out)@ + b@,
{
    let mut i: usize = 0;
    while i < b.len()
        invariant
            i <= b@.len(),
            out@ == old(out)@ + b@.take(i as int),
        decreases b@.len() - i,
    {
        out.push(b[i]);
        i = i + 1;
        proof {
            assert(b@.take(i as int) == b@.take(i - 1).push(b@[i - 1]));
        }
    }
    proof {
        assert(b@.take(b@.len() as int) == b@);
    }
}

/// Whether `b` is well-formed UTF-8.
///
/// Trusted: calls `std::str::from_utf8`, which returns `Ok` exactly when its
/// argument is valid UTF-8; the contract restates that with vstd's `valid_utf8`.
#[verifier::external_body]
pub(crate) fn is_utf8(b: &[u8]) -> (r: bool)
    ensures
        r == vstd::utf8::valid_utf8(b@),
{
    std::str::from_utf8(b).is_ok()
}

/// Splits `input` into lines as `BufRead::lines` does.
pub fn split_lines(input: &[u8]) -> (r: Vec<Vec<u8>>)
    ensures
        byte_seqs(r@) == lines_of(input@),
{
    let mut out: Vec<Vec<u8>> = Vec::new();
    let mut start: usize = 0;
    let mut j: usize = 0;
    let n = input.len();
    proof {
        assert(input@.skip(0) == input@);
        assert(byte_seqs(out@) =~= Seq::<Seq<u8>>::empty());
    }
    while j < n
        invariant
            n == input@.len(),
            start <= j <= n,
            forall|k: int| start <= k < j ==> input@[k] != 10u8,
            lines_of(input@) == byte_seqs(out@) + lines_of(input@.skip(start as int)),
        decreases n - j,
    {
        if input[j] == 10u8 {
            let ghost rest = input@.skip(start as int);
            proof {
                lemma_byte_index_at(rest, 10u8, j - start);
                assert(rest.take(j - start) == input@.subrange(start as int, j as int));
                assert(rest.skip(j - start + 1) == input@.skip(j + 1));
            }
            let mut end = j;
            if end > start && input[end - 1] == 13u8 {
                end = end - 1;
            }
            let line = copy_range(input, start, end);
            proof {
                assert(line@ == strip_cr(rest.take(j - start)));
            }
            let ghost before = byte_seqs(out@);
            proof { lemma_byte_seqs_push(out@, line); }
            out.push(line);
            proof {
                assert(byte_seqs(out@) == before.push(line@));
                assert(before + lines_of(rest) == before.push(line@) + lines_of(input@.skip(j + 1)));
            }
            start = j + 1;
        }
        j = j + 1;
    }
    let ghost rest = input@.skip(start as int);
    if start < n {
        proof {
            lemma_byte_index_at(rest, 10u8, rest.len() as int);
            assert(rest.len() > 0);
        }
        let line = copy_range(input, start, n);
        let ghost before = byte_seqs(out@);
        proof { lemma_byte_seqs_push(out@, line); }
        out.push(line);
        proof {
            assert(line@ == rest);
            assert(byte_seqs(out@) == before.push(line@));
            assert(before + lines_of(rest) == before.push(line@));
        }
    } else {
        proof {
            assert(rest.len() == 0);
            assert(byte_seqs(out@) + lines_of(rest) == byte_seqs(out@));
        }
    }
    out
}

/// The characters that the ASCII bytes `b` stand for.
pub open spec fn ascii_chars(b: Seq<u8>) -> Seq<char> {
    Seq::new(b.len(), |i: int| b[i] as char)
}

/// Whether the string `s` is exactly the ASCII text `lit`.
pub fn str_is(s: &str, lit: &[u8]) -> (r: bool)
    requires
        forall|i: int| 0 <= i < lit@.len() ==> #[trigger] lit@[i] < 128u8,
    ensures
        r == (s@ == ascii_chars(lit@)),
{
    let b = s.as_bytes();
    let r = bytes_equal(b, lit);
    proof {
        let a = ascii_chars(lit@);
        assert(vstd::utf8::is_ascii_chars(a)) by {
            assert forall|i: int| 0 <= i < a.len() implies '\0' <= #[trigger] a[i] <= '\u{7f}' by {
                assert(lit@[i] < 128u8);
            }
        }
        vstd::utf8::is_ascii_chars_encode_utf8(a);
        assert forall|i: int| 0 <= i < a.len() implies #[trigger] vstd::utf8::encode_utf8(a)[i] == lit@[i] by {
            assert(a[i] as u8 == vstd::utf8::encode_utf8(a)[i]);
            assert(a[i] == lit@[i] as char);
        }
        assert(vstd::utf8::encode_utf8(a) =~= lit@);
        vstd::utf8::encode_utf8_decode_utf8(a);
        vstd::utf8::encode_utf8_decode_utf8(s@);
        if s@ == a {
            assert(b@ == lit@);
        }
        if b@ == lit@ {
            assert(s@ == a);
        }
    }
    r
}

} // verus!
