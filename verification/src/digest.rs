//! File content hashes: SHA-1, written in lower-case hex.

use vstd::prelude::*;
use sha1::Digest;

verus! {

/// The SHA-1 digest of `data`, as the `sha1` crate computes it.
pub uninterp spec fn sha1_digest(data: Seq<u8>) -> Seq<u8>;

/// The SHA-1 digest of `data`.
///
/// Trusted: calls `sha1::Sha1::digest`. The contract names the result as a
/// function of the data alone, and states its length: SHA-1's output is 20 bytes.
#[verifier::external_body]
fn sha1_bytes(data: &[u8]) -> (r: Vec<u8>)
    ensures
        r@ == sha1_digest(data@),
        r@.len() == 20,
{
    sha1::Sha1::digest(data).to_vec()
}

/// The lower-case hex digit for `n`, below 16.
pub open spec fn hex_digit(n: int) -> u8 {
    if n < 10 {
        (48 + n) as u8
    } else {
        (87 + n) as u8
    }
}

/// `b` in lower-case hex, two digits for each byte, as `format!("{:02x}")` writes them.
pub open spec fn hex_lower(b: Seq<u8>) -> Seq<u8>
    decreases b.len(),
{
    if b.len() == 0 {
        seq![]
    } else {
        hex_lower(b.drop_last()) + seq![hex_digit(b.last() as int / 16), hex_digit(b.last() as int % 16)]
    }
}

/// Every byte is a lower-case hex digit: `0`-`9` or `a`-`f`.
pub open spec fn all_lower_hex(b: Seq<u8>) -> bool {
    forall|i: int| 0 <= i < b.len() ==> (48u8 <= #[trigger] b[i] <= 57u8 || 97u8 <= b[i] <= 102u8)
}

/// Hex text has two lower-case hex digits for each byte.
pub proof fn lemma_hex_lower(b: Seq<u8>)
    ensures
        hex_lower(b).len() == 2 * b.len(),
        all_lower_hex(hex_lower(b)),
    decreases b.len(),
{
    if b.len() > 0 {
        let p = b.drop_last();
        lemma_hex_lower(p);
        let h = hex_lower(b);
        let hp = hex_lower(p);
        let x = b.last() as int;
        assert(h == hp + seq![hex_digit(x / 16), hex_digit(x % 16)]);
        assert forall|i: int| 0 <= i < h.len() implies (48u8 <= #[trigger] h[i] <= 57u8 || 97u8 <= h[i] <= 102u8) by {
            if i < hp.len() {
                assert(h[i] == hp[i]);
            }
        }
    }
}

fn hex_digit_exec(n: u8) -> (r: u8)
    requires
        n < 16,
    ensures
        r == hex_digit(n as int),
{
    if n < 10 {
        48u8 + n
    } else {
        87u8 + n
    }
}

/// `b` in lower-case hex.
pub fn to_hex(b: &[u8]) -> (r: Vec<u8>)
    ensures
        r@ == hex_lower(b@),
{
    let mut out: Vec<u8> = Vec::new();
    let mut i: usize = 0;
    proof {
        assert(b@.take(0) == Seq::<u8>::empty());
    }
    while i < b.len()
        invariant
            i <= b@.len(),
            out@ == hex_lower(b@.take(i as int)),
        decreases b@.len() - i,
    {
        let x = b[i];
        let hi = hex_digit_exec(x / 16);
        let lo = hex_digit_exec(x % 16);
        out.push(hi);
        out.push(lo);
        proof {
            let t = b@.take(i + 1);
            assert(t.drop_last() == b@.take(i as int));
            assert(t.last() == x);
            assert(out@ =~= hex_lower(t));
        }
        i = i + 1;
    }
    proof {
        assert(b@.take(b@.len() as int) == b@);
    }
    out
}

/// The SHA-1 of `data` in lower-case hex, as the store records it.
pub fn sha1_hex(data: &[u8]) -> (r: Vec<u8>)
    ensures
        r@ == hex_lower(sha1_digest(data@)),
        r@.len() == 40,
        all_lower_hex(r@),
{
    let digest = sha1_bytes(data);
    proof {
        lemma_hex_lower(digest@);
    }
    to_hex(digest.as_slice())
}

} // verus!
