//! Decimal notation for unsigned integers over ASCII bytes: the textual
//! form used by the write-ahead log for TTLs and by the wire protocol for
//! lengths and counts.
use vstd::prelude::*;

verus! {

/// True for the ASCII bytes `'0'` through `'9'`.
pub open spec fn is_digit(b: u8) -> bool {
    0x30 <= b <= 0x39
}

/// The canonical decimal notation of `n`, most significant digit first,
/// without leading zeroes.
pub open spec fn dec_bytes(n: nat) -> Seq<u8>
    decreases n,
{
    if n < 10 {
        seq![(0x30 + n) as u8]
    } else {
        dec_bytes(n / 10).push((0x30 + n % 10) as u8)
    }
}

/// The numeric value of a run of ASCII digits, read most significant
/// first. Leading zeroes are permitted and do not change the value.
pub open spec fn dec_val(s: Seq<u8>) -> nat
    decreases s.len(),
{
    if s.len() == 0 {
        0nat
    } else {
        (dec_val(s.drop_last()) * 10 + (if is_digit(s.last()) {
            (s.last() - 0x30) as nat
        } else {
            0nat
        })) as nat
    }
}

/// True when every byte of `s` is an ASCII digit.
pub open spec fn all_digits(s: Seq<u8>) -> bool {
    forall|i: int| 0 <= i < s.len() ==> is_digit(#[trigger] s[i])
}

/// The canonical decimal notation consists of digits only, is never empty,
/// and reads back as the number it was made from.
pub proof fn lemma_dec_bytes_roundtrip(n: nat)
    ensures
        dec_bytes(n).len() >= 1,
        all_digits(dec_bytes(n)),
        dec_val(dec_bytes(n)) == n,
    decreases n,
{
    if n < 10 {
        let s = dec_bytes(n);
        assert(s =~= seq![(0x30 + n) as u8]);
        assert(s.drop_last() =~= Seq::<u8>::empty());
        assert(dec_val(s.drop_last()) == 0);
        assert(s.last() == (0x30 + n) as u8);
        assert(is_digit(s.last()));
        assert(dec_val(s) == (s.last() - 0x30) as nat);
    } else {
        lemma_dec_bytes_roundtrip(n / 10);
        let s = dec_bytes(n);
        assert(s == dec_bytes(n / 10).push((0x30 + n % 10) as u8));
        assert(s.drop_last() =~= dec_bytes(n / 10));
        assert(s.last() == (0x30 + n % 10) as u8);
        assert(is_digit(s.last()));
        assert(dec_val(s) == dec_val(s.drop_last()) * 10 + (s.last() - 0x30) as nat);
        assert(dec_val(s) == (n / 10) * 10 + n % 10);
        assert((n / 10) * 10 + n % 10 == n) by (nonlinear_arith);
        assert forall|i: int| 0 <= i < s.len() implies is_digit(s[i]) by {
            if i < s.len() - 1 {
                assert(s[i] == dec_bytes(n / 10)[i]);
            }
        }
    }
}

/// Appending further digits never decreases the value a digit run reads as.
pub proof fn lemma_dec_val_prefix_le(s: Seq<u8>, i: int)
    requires
        0 <= i <= s.len(),
        all_digits(s),
    ensures
        dec_val(s.subrange(0, i)) <= dec_val(s),
    decreases s.len() - i,
{
    if i < s.len() {
        lemma_dec_val_prefix_le(s, i + 1);
        let p = s.subrange(0, i + 1);
        assert(p.drop_last() =~= s.subrange(0, i));
        assert(dec_val(p.drop_last()) <= dec_val(p.drop_last()) * 10) by (nonlinear_arith);
    } else {
        assert(s.subrange(0, i) =~= s);
    }
}

/// Converts `n` to its canonical decimal notation.
pub fn u64_to_dec(n: u64) -> (r: Vec<u8>)
    ensures
        r@ == dec_bytes(n as nat),
{
    let mut low: Vec<u8> = Vec::new();
    let ghost mut ordered: Seq<u8> = Seq::empty();
    let mut m = n;
    loop
        invariant_except_break
            ordered.len() > 0 ==> m > 0,
        invariant
            low@.len() == ordered.len(),
            forall|j: int| 0 <= j < low@.len() ==> low@[j] == ordered[low@.len() - 1 - j],
            ordered.len() > 0 ==> dec_bytes(n as nat) == (if m > 0 {
                dec_bytes(m as nat) + ordered
            } else {
                ordered
            }),
            ordered.len() == 0 ==> m == n,
        ensures
            dec_bytes(n as nat) == ordered,
            low@.len() == ordered.len(),
            forall|j: int| 0 <= j < low@.len() ==> low@[j] == ordered[low@.len() - 1 - j],
        decreases m,
    {
        let ghost m0 = m;
        let ghost ord0 = ordered;
        let d = (m % 10) as u8 + 0x30;
        low.push(d);
        proof {
            ordered = seq![d] + ord0;
            assert(m0 >= 10 ==> dec_bytes(m0 as nat) =~= dec_bytes((m0 / 10) as nat) + seq![d]);
            assert(m0 < 10 ==> dec_bytes(m0 as nat) =~= seq![d]);
            if ord0.len() == 0 {
                if m0 < 10 {
                    assert(dec_bytes(n as nat) =~= ordered);
                } else {
                    assert(dec_bytes(n as nat) =~= dec_bytes((m0 / 10) as nat) + ordered);
                }
            } else {
                if m0 < 10 {
                    assert(dec_bytes(n as nat) =~= ordered);
                } else {
                    assert(dec_bytes((m0 / 10) as nat) + seq![d] + ord0 =~= dec_bytes(
                        (m0 / 10) as nat,
                    ) + ordered);
                    assert(dec_bytes(n as nat) =~= dec_bytes((m0 / 10) as nat) + ordered);
                }
            }
        }
        m = m / 10;
        if m == 0 {
            break ;
        }
    }
    proof {
        assert(dec_bytes(n as nat) == ordered);
    }
    let mut r: Vec<u8> = Vec::new();
    let mut idx = low.len();
    while idx > 0
        invariant
            idx <= low.len(),
            low@.len() == ordered.len(),
            forall|j: int| 0 <= j < low@.len() ==> low@[j] == ordered[low@.len() - 1 - j],
            r@ =~= ordered.subrange(0, low@.len() - idx),
        decreases idx,
    {
        idx = idx - 1;
        r.push(low[idx]);
        proof {
            assert(r@ =~= ordered.subrange(0, low@.len() - idx));
        }
    }
    proof {
        assert(ordered.subrange(0, ordered.len() as int) =~= ordered);
    }
    r
}

/// Reads a run of ASCII digits as an unsigned integer. Returns the value
/// exactly when the run is non-empty, all digits, and the value fits in
/// 64 bits.
pub fn parse_u64(s: &[u8]) -> (r: Option<u64>)
    ensures
        match r {
            Some(v) => s@.len() > 0 && all_digits(s@) && v as nat == dec_val(s@),
            None => s@.len() == 0 || !all_digits(s@) || dec_val(s@) > u64::MAX,
        },
{
    let n = s.len();
    if n == 0 {
        return None;
    }
    let mut v: u64 = 0;
    let mut i: usize = 0;
    while i < n
        invariant
            0 <= i <= n,
            n == s@.len(),
            all_digits(s@.subrange(0, i as int)),
            v as nat == dec_val(s@.subrange(0, i as int)),
        decreases n - i,
    {
        let b = s[i];
        if b < 0x30 || b > 0x39 {
            return None;
        }
        let d = (b - 0x30) as u64;
        if v > (u64::MAX - d) / 10 {
            proof {
                let p = s@.subrange(0, i + 1);
                assert(p.drop_last() =~= s@.subrange(0, i as int));
                assert(p.last() == b);
                assert(dec_val(p) == v * 10 + d);
                assert(v * 10 + d > u64::MAX) by (nonlinear_arith)
                    requires
                        v > (u64::MAX - d) / 10,
                        d <= 9,
                ;
                if all_digits(s@) {
                    lemma_dec_val_prefix_le(s@, i + 1);
                }
            }
            return None;
        }
        proof {
            assert(v * 10 + d <= u64::MAX) by (nonlinear_arith)
                requires
                    v <= (u64::MAX - d) / 10,
                    d <= 9,
            ;
            let p = s@.subrange(0, i + 1);
            assert(p.drop_last() =~= s@.subrange(0, i as int));
            assert(p.last() == b);
        }
        v = v * 10 + d;
        i = i + 1;
    }
    proof {
        assert(s@.subrange(0, n as int) =~= s@);
    }
    Some(v)
}

} // verus!
