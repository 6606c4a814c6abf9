//! Decimal text for timestamps, as `i64::from_str` reads it and `Display` writes it.

use vstd::prelude::*;

verus! {

pub open spec fn is_digit(c: u8) -> bool {
    48u8 <= c <= 57u8
}

pub open spec fn all_digits(d: Seq<u8>) -> bool {
    forall|i: int| 0 <= i < d.len() ==> is_digit(#[trigger] d[i])
}

/// The number that the decimal digits `d` denote.
pub open spec fn digits_value(d: Seq<u8>) -> int
    decreases d.len(),
{
    if d.len() == 0 {
        0
    } else {
        digits_value(d.drop_last()) * 10 + (d.last() - 48)
    }
}

/// What `i64::from_str` gives for `s`: an optional `+` or `-`, then one or more
/// decimal digits, denoting a value in range.
pub open spec fn parse_i64_spec(s: Seq<u8>) -> Option<i64> {
    if s.len() == 0 {
        None
    } else {
        let signed = s[0] == 45u8 || s[0] == 43u8;
        let d = if signed {
            s.drop_first()
        } else {
            s
        };
        if d.len() == 0 || !all_digits(d) {
            None
        } else {
            let v = if s[0] == 45u8 {
                -digits_value(d)
            } else {
                digits_value(d)
            };
            if i64::MIN <= v <= i64::MAX {
                Some(v as i64)
            } else {
                None
            }
        }
    }
}

/// The decimal digits of `n`, without leading zeros.
pub open spec fn decimal_digits(n: nat) -> Seq<u8>
    decreases n,
{
    if n < 10 {
        seq![(48 + n) as u8]
    } else {
        decimal_digits(n / 10) + seq![(48 + n % 10) as u8]
    }
}

/// `t` as `Display` writes it.
pub open spec fn format_i64_spec(t: i64) -> Seq<u8> {
    if t < 0 {
        seq![45u8] + decimal_digits((-t) as nat)
    } else {
        decimal_digits(t as nat)
    }
}

proof fn lemma_digits_value_prefix(d: Seq<u8>, k: int)
    requires
        0 <= k <= d.len(),
        all_digits(d),
    ensures
        digits_value(d.take(k)) <= digits_value(d),
        0 <= digits_value(d.take(k)),
    decreases d.len() - k,
{
    if k < d.len() {
        lemma_digits_value_prefix(d, k + 1);
        assert(d.take(k + 1).drop_last() == d.take(k));
    } else {
        assert(d.take(k) == d);
    }
    lemma_digits_value_nonneg(d.take(k));
}

proof fn lemma_digits_value_nonneg(d: Seq<u8>)
    requires
        all_digits(d),
    ensures
        0 <= digits_value(d),
    decreases d.len(),
{
    if d.len() > 0 {
        lemma_digits_value_nonneg(d.drop_last());
    }
}

pub proof fn lemma_decimal_digits(n: nat)
    ensures
        decimal_digits(n).len() > 0,
        all_digits(decimal_digits(n)),
        digits_value(decimal_digits(n)) == n,
    decreases n,
{
    if n >= 10 {
        lemma_decimal_digits(n / 10);
        let d = decimal_digits(n);
        assert(d.drop_last() == decimal_digits(n / 10));
        assert(d.last() == (48 + n % 10) as u8);
        assert(n == (n / 10) * 10 + n % 10);
        assert(d.last() - 48 == n % 10);
        assert(digits_value(d) == digits_value(d.drop_last()) * 10 + (d.last() - 48));
    } else {
        let d = decimal_digits(n);
        assert(d.drop_last() =~= Seq::<u8>::empty());
        assert(d.last() - 48 == n);
        assert(digits_value(d) == digits_value(d.drop_last()) * 10 + (d.last() - 48));
        assert forall|i: int| 0 <= i < d.len() implies is_digit(#[trigger] d[i]) by {
            if i < d.len() - 1 {
                assert(d[i] == decimal_digits(n / 10)[i]);
            }
        }
    }
}

/// Reading back a written timestamp gives the timestamp.
pub proof fn law_timestamp_text_round_trip(t: i64)
    ensures
        parse_i64_spec(format_i64_spec(t)) == Some(t),
{
    let s = format_i64_spec(t);
    if t < 0 {
        let n = (-t) as nat;
        lemma_decimal_digits(n);
        assert(s.drop_first() == decimal_digits(n));
    } else {
        let n = t as nat;
        lemma_decimal_digits(n);
        assert(is_digit(s[0]));
    }
}

/// Decimal digits without leading zeros.
pub open spec fn canonical_digits(d: Seq<u8>) -> bool {
    d.len() > 0 && all_digits(d) && (d[0] != 48u8 || d.len() == 1)
}

/// Text as `Display` writes an `i64`: an optional `-`, then decimal digits
/// without leading zeros, and never `-0`.
pub open spec fn canonical_i64_text(s: Seq<u8>) -> bool {
    if s.len() > 0 && s[0] == 45u8 {
        canonical_digits(s.drop_first()) && s.drop_first() != seq![48u8]
    } else {
        canonical_digits(s)
    }
}

proof fn lemma_digits_value_positive(d: Seq<u8>)
    requires
        d.len() > 0,
        all_digits(d),
        d[0] != 48u8,
    ensures
        digits_value(d) >= 1,
    decreases d.len(),
{
    if d.len() > 1 {
        let p = d.drop_last();
        assert(p[0] == d[0]);
        assert forall|i: int| 0 <= i < p.len() implies is_digit(#[trigger] p[i]) by {
            assert(p[i] == d[i]);
        }
        lemma_digits_value_positive(p);
        assert(is_digit(d[d.len() - 1]));
        let vp = digits_value(p);
        assert(digits_value(d) == vp * 10 + (d.last() - 48));
        assert(vp * 10 >= 10) by (nonlinear_arith)
            requires
                vp >= 1,
        ;
    } else {
        assert(d.drop_last() =~= Seq::<u8>::empty());
        assert(is_digit(d[0]));
        assert(d.last() == d[0]);
        assert(digits_value(d) == digits_value(d.drop_last()) * 10 + (d.last() - 48));
    }
}

/// Digits without leading zeros are the digits of their value.
pub proof fn lemma_canonical_digits(d: Seq<u8>)
    requires
        canonical_digits(d),
    ensures
        decimal_digits(digits_value(d) as nat) == d,
        digits_value(d) >= 0,
    decreases d.len(),
{
    lemma_digits_value_nonneg(d);
    let c = d.last();
    assert(is_digit(d[d.len() - 1]));
    if d.len() == 1 {
        assert(d.drop_last() =~= Seq::<u8>::empty());
        assert(digits_value(d.drop_last()) == 0);
        assert(digits_value(d) == digits_value(d.drop_last()) * 10 + (c - 48));
        assert(digits_value(d) == c - 48);
        assert(decimal_digits(digits_value(d) as nat) =~= d);
    } else {
        let p = d.drop_last();
        assert(p[0] == d[0]);
        assert forall|i: int| 0 <= i < p.len() implies is_digit(#[trigger] p[i]) by {
            assert(p[i] == d[i]);
        }
        lemma_canonical_digits(p);
        lemma_digits_value_positive(p);
        let v = digits_value(d);
        let vp = digits_value(p);
        assert(v == vp * 10 + (c - 48));
        assert(v / 10 == vp && v % 10 == c - 48) by (nonlinear_arith)
            requires
                v == vp * 10 + (c - 48),
                0 <= c - 48 < 10,
        ;
        assert(v >= 10);
        assert(decimal_digits(v as nat) == decimal_digits((v / 10) as nat) + seq![(48 + v % 10) as u8]);
        assert(d =~= p + seq![c]);
    }
}

/// Writing back a timestamp read from text as `Display` writes it gives the
/// text: canonical decimal text in range round-trips.
pub proof fn law_canonical_text_round_trip(s: Seq<u8>)
    requires
        canonical_i64_text(s),
        parse_i64_spec(s) is Some,
    ensures
        format_i64_spec(parse_i64_spec(s)->0) == s,
{
    if s[0] == 45u8 {
        let d = s.drop_first();
        lemma_canonical_digits(d);
        if d.len() == 1 {
            assert(d[0] != 48u8) by {
                if d[0] == 48u8 {
                    assert(d =~= seq![48u8]);
                }
            }
        }
        lemma_digits_value_positive(d);
        assert(s =~= seq![45u8] + d);
    } else {
        lemma_canonical_digits(s);
        assert(is_digit(s[0]));
    }
}

/// Parses a timestamp as `i64::from_str` does; `None` where it returns an error.
pub fn timestamp_from_str(s: &[u8]) -> (r: Option<i64>)
    ensures
        r == parse_i64_spec(s@),
{
    if s.len() == 0 {
        return None;
    }
    let first = s[0];
    let start: usize = if first == 45u8 || first == 43u8 { 1 } else { 0 };
    if start == s.len() {
        return None;
    }
    let ghost d = if start == 1 { s@.drop_first() } else { s@ };
    assert(d == s@.skip(start as int));
    let mut acc: i128 = 0;
    let mut i: usize = start;
    while i < s.len()
        invariant
            start <= i <= s@.len(),
            d == s@.skip(start as int),
            s@.len() > 0,
            first == s@[0],
            start <= 1,
            (start == 1) == (first == 45u8 || first == 43u8),
            acc == digits_value(d.take(i - start)),
            0 <= acc <= 9223372036854775808,
            forall|j: int| 0 <= j < i - start ==> is_digit(#[trigger] d[j]),
        decreases s@.len() - i,
    {
        let c = s[i];
        if c < 48u8 || c > 57u8 {
            proof {
                assert(d[i - start] == c);
                assert(!is_digit(d[i - start]));
                assert(!all_digits(d));
                if start == 1 {
                    assert(s@.drop_first() =~= d);
                } else {
                    assert(s@ =~= d);
                }
                assert(parse_i64_spec(s@).is_none());
            }
            return None;
        }
        proof {
            let t = d.take(i - start + 1);
            assert(t.drop_last() == d.take(i - start));
            assert(t.last() == c);
        }
        acc = acc * 10 + (c - 48u8) as i128;
        i = i + 1;
        if acc > 9223372036854775808 {
            proof {
                if start == 1 {
                    assert(s@.drop_first() =~= d);
                } else {
                    assert(s@ =~= d);
                }
                if all_digits(d) {
                    lemma_digits_value_prefix(d, i - start);
                    assert(digits_value(d) > 9223372036854775808);
                }
                assert(parse_i64_spec(s@).is_none());
            }
            return None;
        }
    }
    proof {
        assert(d.take(i - start) == d);
        if start == 1 {
            assert(s@.drop_first() =~= d);
        } else {
            assert(s@ =~= d);
        }
    }
    let v: i128 = if first == 45u8 { -acc } else { acc };
    if v < -9223372036854775808 || v > 9223372036854775807 {
        return None;
    }
    Some(v as i64)
}

fn push_digits(out: &mut Vec<u8>, n: u64)
    ensures
        final(out)@ == old(out)@ + decimal_digits(n as nat),
    decreases n,
{
    if n >= 10 {
        push_digits(out, n / 10);
    }
    out.push(48u8 + (n % 10) as u8);
    proof {
        if n >= 10 {
            assert(old(out)@ + decimal_digits(n as nat) == old(out)@ + decimal_digits((n / 10) as nat) + seq![(48 + n % 10) as u8]);
        } else {
            assert(decimal_digits(n as nat) == seq![(48 + n) as u8]);
        }
    }
}

/// Writes a timestamp in decimal, as `Display` does.
pub fn timestamp_to_str(t: i64) -> (r: Vec<u8>)
    ensures
        r@ == format_i64_spec(t),
{
    let mut out: Vec<u8> = Vec::new();
    if t < 0 {
        out.push(45u8);
        let n: u64 = (-(t as i128)) as u64;
        push_digits(&mut out, n);
    } else {
        push_digits(&mut out, t as u64);
        assert(out@ == Seq::<u8>::empty() + decimal_digits(t as nat));
    }
    out
}

} // verus!
