//! Decimal ASCII numbers as they stand on the wire: no sign but a leading
//! `-`, no leading zeros, and no `-0`. Every number has exactly one text.

use vstd::prelude::*;

verus! {

/// ASCII `0` to `9`.
pub open spec fn is_digit(b: u8) -> bool {
    48 <= b <= 57
}

/// The decimal text of a natural number.
pub open spec fn digits(n: nat) -> Seq<u8>
    decreases n,
{
    if n < 10 {
        seq![(48 + n) as u8]
    } else {
        digits(n / 10).push((48 + n % 10) as u8)
    }
}

/// The decimal text of an integer: `-` and the magnitude below zero.
pub open spec fn signed_digits(i: int) -> Seq<u8> {
    if i < 0 {
        seq![45u8] + digits((-i) as nat)
    } else {
        digits(i as nat)
    }
}

/// The number that a run of digits stands for, read left to right.
pub open spec fn value(s: Seq<u8>) -> nat
    decreases s.len(),
{
    if s.len() == 0 {
        0
    } else {
        (value(s.drop_last()) * 10 + (s.last() - 48)) as nat
    }
}

/// A nonempty run of digits without a leading zero, `0` itself excepted.
pub open spec fn canonical(s: Seq<u8>) -> bool {
    &&& s.len() > 0
    &&& forall|i: int| 0 <= i < s.len() ==> is_digit(#[trigger] s[i])
    &&& (s[0] == 48 ==> s.len() == 1)
}

/// The text of a number is canonical, and reads back as that number.
pub proof fn lemma_digits_value(n: nat)
    ensures
        canonical(digits(n)),
        value(digits(n)) == n,
        (digits(n)[0] == 48) <==> n == 0,
    decreases n,
{
    if n < 10 {
        assert(digits(n).drop_last() =~= Seq::<u8>::empty());
        assert(value(Seq::<u8>::empty()) == 0);
        assert(digits(n).last() == 48 + n);
    } else {
        lemma_digits_value(n / 10);
        let t = digits(n / 10);
        let s = digits(n);
        assert(s.drop_last() =~= t);
        assert(s.last() == 48 + n % 10);
        assert(value(s) == value(t) * 10 + (s.last() - 48));
        assert(s[0] == t[0]);
        assert forall|i: int| 0 <= i < s.len() implies is_digit(#[trigger] s[i]) by {
            if i < t.len() {
                assert(s[i] == t[i]);
            }
        }
    }
}

/// Digits that do not start with `0` stand for a number above zero.
proof fn lemma_value_positive(s: Seq<u8>)
    requires
        s.len() > 0,
        forall|i: int| 0 <= i < s.len() ==> is_digit(#[trigger] s[i]),
        s[0] != 48,
    ensures
        value(s) >= 1,
    decreases s.len(),
{
    if s.len() == 1 {
        assert(s.drop_last() =~= Seq::<u8>::empty());
        assert(s.last() == s[0]);
    } else {
        let t = s.drop_last();
        assert(t[0] == s[0]);
        assert forall|i: int| 0 <= i < t.len() implies is_digit(#[trigger] t[i]) by {
            assert(t[i] == s[i]);
        }
        lemma_value_positive(t);
        assert(is_digit(s[s.len() - 1]));
    }
}

/// A canonical text is the text of the number it stands for.
pub proof fn lemma_canonical_digits(s: Seq<u8>)
    requires
        canonical(s),
    ensures
        digits(value(s)) == s,
    decreases s.len(),
{
    let t = s.drop_last();
    let d = s.last();
    assert(is_digit(s[s.len() - 1]));
    if s.len() == 1 {
        assert(t =~= Seq::<u8>::empty());
        assert(value(t) == 0);
        assert(digits(value(s)) =~= s);
    } else {
        assert(t[0] == s[0]);
        assert forall|i: int| 0 <= i < t.len() implies is_digit(#[trigger] t[i]) by {
            assert(t[i] == s[i]);
        }
        lemma_value_positive(t);
        lemma_canonical_digits(t);
        let v = value(s);
        assert(v == value(t) * 10 + (d - 48));
        assert(v / 10 == value(t));
        assert(v % 10 == d - 48);
        assert(digits(v) =~= s);
    }
}

/// Two numbers with the same text are the same number.
pub proof fn lemma_digits_injective(a: nat, b: nat)
    requires
        digits(a) == digits(b),
    ensures
        a == b,
{
    lemma_digits_value(a);
    lemma_digits_value(b);
}

/// Two integers with the same text are the same integer.
pub proof fn lemma_signed_digits_injective(a: int, b: int)
    requires
        signed_digits(a) == signed_digits(b),
    ensures
        a == b,
{
    let sa = signed_digits(a);
    let sb = signed_digits(b);
    if a < 0 {
        lemma_digits_value((-a) as nat);
        assert(sa[0] == 45);
        if b < 0 {
            assert(sa.subrange(1, sa.len() as int) =~= digits((-a) as nat));
            assert(sb.subrange(1, sb.len() as int) =~= digits((-b) as nat));
            lemma_digits_injective((-a) as nat, (-b) as nat);
        } else {
            lemma_digits_value(b as nat);
            assert(is_digit(digits(b as nat)[0]));
        }
    } else {
        lemma_digits_value(a as nat);
        assert(is_digit(digits(a as nat)[0]));
        if b < 0 {
            assert(sb[0] == 45);
        } else {
            lemma_digits_injective(a as nat, b as nat);
        }
    }
}

/// The text of an integer holds digits and `-` only, and is never empty.
pub proof fn lemma_signed_digits_bytes(i: int)
    ensures
        signed_digits(i).len() > 0,
        forall|k: int|
            0 <= k < signed_digits(i).len() ==> {
                let b = #[trigger] signed_digits(i)[k];
                is_digit(b) || b == 45
            },
{
    if i < 0 {
        lemma_digits_value((-i) as nat);
        let d = digits((-i) as nat);
        assert forall|k: int| 0 <= k < signed_digits(i).len() implies {
            let b = #[trigger] signed_digits(i)[k];
            is_digit(b) || b == 45
        } by {
            if k > 0 {
                assert(signed_digits(i)[k] == d[k - 1]);
            }
        }
    } else {
        lemma_digits_value(i as nat);
    }
}

/// Reading digits left to right never makes the number smaller.
pub proof fn lemma_value_prefix(s: Seq<u8>, k: int)
    requires
        0 <= k <= s.len(),
        forall|i: int| 0 <= i < s.len() ==> is_digit(#[trigger] s[i]),
    ensures
        value(s.subrange(0, k)) <= value(s),
    decreases s.len() - k,
{
    if k == s.len() {
        assert(s.subrange(0, k) =~= s);
    } else {
        let t = s.drop_last();
        assert(t.subrange(0, k) =~= s.subrange(0, k));
        assert forall|i: int| 0 <= i < t.len() implies is_digit(#[trigger] t[i]) by {
            assert(t[i] == s[i]);
        }
        lemma_value_prefix(t, k);
        assert(is_digit(s[s.len() - 1]));
    }
}

/// A nonempty start of a canonical text is canonical.
pub proof fn lemma_canonical_prefix(s: Seq<u8>, k: int)
    requires
        canonical(s),
        0 < k <= s.len(),
    ensures
        canonical(s.subrange(0, k)),
        value(s.subrange(0, k)) <= value(s),
{
    let p = s.subrange(0, k);
    assert forall|i: int| 0 <= i < p.len() implies is_digit(#[trigger] p[i]) by {
        assert(p[i] == s[i]);
    }
    assert(p[0] == s[0]);
    lemma_value_prefix(s, k);
}

/// Appends the decimal text of `n`.
pub fn push_decimal(out: &mut Vec<u8>, n: u64)
    ensures
        final(out)@ == old(out)@ + digits(n as nat),
    decreases n,
{
    if n >= 10 {
        push_decimal(out, n / 10);
    }
    let d: u8 = (n % 10) as u8;
    out.push(48 + d);
    proof {
        if n >= 10 {
            assert(final(out)@ =~= old(out)@ + digits(n as nat));
        } else {
            assert(final(out)@ =~= old(out)@ + digits(n as nat));
        }
    }
}

/// Reads `s[from..to]` as the canonical text of a number that fits in 64
/// bits. `None` means that it is the text of no such number.
fn parse_decimal(s: &[u8], from: usize, to: usize) -> (r: Option<u64>)
    requires
        from <= to <= s.len(),
    ensures
        match r {
            Some(n) => s@.subrange(from as int, to as int) == digits(n as nat),
            None => forall|n: nat|
                n <= u64::MAX ==> s@.subrange(from as int, to as int) != #[trigger] digits(n),
        },
{
    let ghost text = s@.subrange(from as int, to as int);
    if from == to {
        proof {
            assert forall|n: nat| n <= u64::MAX implies text != #[trigger] digits(n) by {
                lemma_digits_value(n);
            }
        }
        return None;
    }
    if s[from] == 48 && to - from > 1 {
        proof {
            assert(text[0] == 48);
            assert forall|n: nat| n <= u64::MAX implies text != #[trigger] digits(n) by {
                lemma_digits_value(n);
            }
        }
        return None;
    }
    let mut acc: u64 = 0;
    let mut i: usize = from;
    while i < to
        invariant
            from <= i <= to <= s.len(),
            text == s@.subrange(from as int, to as int),
            forall|k: int| 0 <= k < i - from ==> is_digit(#[trigger] text[k]),
            acc == value(text.subrange(0, i - from)),
        decreases to - i,
    {
        let b: u8 = s[i];
        if b < 48 || b > 57 {
            proof {
                assert(text[i - from] == b);
                assert forall|n: nat| n <= u64::MAX implies text != #[trigger] digits(n) by {
                    lemma_digits_value(n);
                    if text == digits(n) {
                        assert(is_digit(text[i - from]));
                    }
                }
            }
            return None;
        }
        let d: u64 = (b - 48) as u64;
        let ghost next = text.subrange(0, i - from + 1);
        proof {
            assert(text[i - from] == b);
            assert(next.drop_last() =~= text.subrange(0, i - from));
            assert(next.last() == b);
            assert(value(next) == acc * 10 + d);
        }
        if acc > (u64::MAX - d) / 10 {
            proof {
                assert(value(next) > u64::MAX);
                assert forall|n: nat| n <= u64::MAX implies text != #[trigger] digits(n) by {
                    lemma_digits_value(n);
                    if text == digits(n) {
                        lemma_value_prefix(text, i - from + 1);
                    }
                }
            }
            return None;
        }
        acc = acc * 10 + d;
        i = i + 1;
    }
    proof {
        assert(text.subrange(0, i - from) =~= text);
        assert(canonical(text));
        lemma_canonical_digits(text);
    }
    Some(acc)
}

/// A start of an integer's text, other than nothing and a lone `-`, is the
/// text of an integer between zero and that integer.
pub proof fn lemma_signed_prefix(p: Seq<u8>, i: int) -> (j: int)
    requires
        p.is_prefix_of(signed_digits(i)),
        p.len() > 0,
        p != seq![45u8],
    ensures
        p == signed_digits(j),
        i >= 0 ==> 0 <= j <= i,
        i < 0 ==> i <= j < 0,
{
    let s = signed_digits(i);
    assert(p == s.subrange(0, p.len() as int));
    if i >= 0 {
        lemma_digits_value(i as nat);
        lemma_canonical_prefix(s, p.len() as int);
        lemma_canonical_digits(p);
        value(p) as int
    } else {
        let d = digits((-i) as nat);
        lemma_digits_value((-i) as nat);
        assert(p[0] == s[0]);
        if p.len() == 1 {
            assert(p =~= seq![45u8]);
        }
        let q = p.skip(1);
        assert(q =~= d.subrange(0, q.len() as int)) by {
            assert forall|k: int| 0 <= k < q.len() implies q[k] == d[k] by {
                assert(p[k + 1] == s[k + 1]);
            }
        }
        lemma_canonical_prefix(d, q.len() as int);
        lemma_canonical_digits(q);
        assert(q[0] == d[0]);
        lemma_value_positive(q);
        let j = -(value(q) as int);
        assert(signed_digits(j) =~= p);
        j
    }
}

/// Reads `s` as the text of an integer between `lo` and `hi`. `None` means
/// that it is the text of no integer in that range.
pub fn read_number(s: &[u8], lo: i128, hi: i128) -> (r: Option<i128>)
    requires
        -(u64::MAX as int) <= lo <= hi <= u64::MAX as int,
    ensures
        match r {
            Some(i) => lo <= i <= hi && s@ == signed_digits(i as int),
            None => forall|i: int| lo <= i <= hi ==> s@ != #[trigger] signed_digits(i),
        },
{
    let negative: bool = s.len() > 0 && s[0] == 45;
    let from: usize = if negative { 1 } else { 0 };
    let magnitude = parse_decimal(s, from, s.len());
    let ghost text = s@.subrange(from as int, s.len() as int);
    proof {
        assert forall|i: int| #![trigger signed_digits(i)] s@ == signed_digits(i) implies (i < 0
            <==> negative) && text == digits(
            (if i < 0 {
                -i
            } else {
                i
            }) as nat,
        ) by {
            if i < 0 {
                lemma_digits_value((-i) as nat);
                assert(signed_digits(i)[0] == 45);
                assert(text =~= digits((-i) as nat));
            } else {
                lemma_digits_value(i as nat);
                assert(is_digit(digits(i as nat)[0]));
                assert(text =~= digits(i as nat));
            }
        }
    }
    match magnitude {
        None => None,
        Some(m) => {
            let i: i128 = if negative { -(m as i128) } else { m as i128 };
            proof {
                lemma_digits_value(m as nat);
                assert forall|k: int| lo <= k <= hi && s@ == #[trigger] signed_digits(k) implies k
                    == i by {
                    let mk = (if k < 0 {
                        -k
                    } else {
                        k
                    }) as nat;
                    lemma_digits_injective(mk, m as nat);
                }
            }
            if negative && m == 0 {
                None
            } else if lo <= i && i <= hi {
                proof {
                    if negative {
                        assert(s@ =~= seq![45u8] + text);
                    } else {
                        assert(s@ =~= text);
                    }
                }
                Some(i)
            } else {
                None
            }
        },
    }
}

/// The number that a text holds in canonical decimal form, where it fits
/// in 64 bits.
pub open spec fn number_of(s: Seq<u8>) -> Option<u64> {
    if canonical(s) && value(s) <= u64::MAX {
        Some(value(s) as u64)
    } else {
        None
    }
}

/// Reads `s` as the canonical decimal text of a number of 64 bits.
pub fn read_u64(s: &[u8]) -> (r: Option<u64>)
    ensures
        r == number_of(s@),
{
    let r = parse_decimal(s, 0, s.len());
    proof {
        assert(s@.subrange(0, s@.len() as int) =~= s@);
        match r {
            Some(n) => {
                lemma_digits_value(n as nat);
            },
            None => {
                if canonical(s@) && value(s@) <= u64::MAX {
                    lemma_canonical_digits(s@);
                }
            },
        }
    }
    r
}

/// The text of a number has no more characters than the number counts,
/// one at least.
pub proof fn lemma_digits_len(n: nat)
    ensures
        1 <= digits(n).len(),
        digits(n).len() <= n || digits(n).len() == 1,
    decreases n,
{
    if n >= 10 {
        lemma_digits_len(n / 10);
    }
}

} // verus!
