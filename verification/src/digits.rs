//! Decimal rendering and parsing of integers as ASCII bytes, and the
//! byte-lexicographic order facts that the key schema relies on.
use vstd::prelude::*;

verus! {

/// 10 to the power `w`.
pub open spec fn pow10(w: nat) -> nat
    decreases w,
{
    if w == 0 {
        1
    } else {
        10 * pow10((w - 1) as nat)
    }
}

pub proof fn lemma_pow10_12()
    ensures
        pow10(12) == 1000_000_000_000,
{
    reveal_with_fuel(pow10, 13);
}

/// The decimal digits of `n`, exactly `w` of them, most significant first,
/// as ASCII bytes. Digits beyond the width are dropped.
pub open spec fn pad_digits(n: nat, w: nat) -> Seq<u8>
    decreases w,
{
    if w == 0 {
        Seq::empty()
    } else {
        pad_digits(n / 10, (w - 1) as nat).push((48 + n % 10) as u8)
    }
}

/// The decimal digits of `n`, as many as `n` has, most significant first.
pub open spec fn dec_digits(n: nat) -> Seq<u8>
    decreases n,
{
    if n < 10 {
        seq![(48 + n) as u8]
    } else {
        dec_digits(n / 10).push((48 + n % 10) as u8)
    }
}

/// Every byte of `s` is an ASCII decimal digit.
pub open spec fn all_digits(s: Seq<u8>) -> bool {
    forall|i: int| 0 <= i < s.len() ==> 48 <= #[trigger] s[i] <= 57
}

/// The numeric value of a digit string (most significant first).
pub open spec fn digits_val(s: Seq<u8>) -> nat
    decreases s.len(),
{
    if s.len() == 0 {
        0
    } else {
        (digits_val(s.drop_last()) * 10 + (s.last() - 48)) as nat
    }
}

/// Strict byte-lexicographic order: `a` comes before `b`.
pub open spec fn lex_lt(a: Seq<u8>, b: Seq<u8>) -> bool
    decreases a.len() + b.len(),
{
    if b.len() == 0 {
        false
    } else if a.len() == 0 {
        true
    } else if a[0] < b[0] {
        true
    } else if a[0] > b[0] {
        false
    } else {
        lex_lt(a.drop_first(), b.drop_first())
    }
}

pub proof fn lemma_pad_digits_len(n: nat, w: nat)
    ensures
        pad_digits(n, w).len() == w,
        all_digits(pad_digits(n, w)),
    decreases w,
{
    if w > 0 {
        lemma_pad_digits_len(n / 10, (w - 1) as nat);
    }
}

/// A fixed-width rendering parses back to the value it was made from.
pub proof fn lemma_pad_digits_val(n: nat, w: nat)
    requires
        n < pow10(w),
    ensures
        digits_val(pad_digits(n, w)) == n,
    decreases w,
{
    if w == 0 {
    } else {
        let s = pad_digits(n, w);
        assert(s.drop_last() =~= pad_digits(n / 10, (w - 1) as nat));
        assert(n / 10 < pow10((w - 1) as nat)) by {
            if n / 10 >= pow10((w - 1) as nat) {
                assert(n >= 10 * pow10((w - 1) as nat)) by (nonlinear_arith)
                    requires
                        n / 10 >= pow10((w - 1) as nat),
                ;
            }
        }
        lemma_pad_digits_val(n / 10, (w - 1) as nat);
    }
}

pub proof fn lemma_dec_digits_val(n: nat)
    ensures
        digits_val(dec_digits(n)) == n,
        all_digits(dec_digits(n)),
        dec_digits(n).len() >= 1,
    decreases n,
{
    if n < 10 {
        assert(dec_digits(n).drop_last() =~= Seq::<u8>::empty());
        assert(dec_digits(n)[0] == (48 + n) as u8);
        assert(dec_digits(n).last() == (48 + n) as u8);
        assert((48 + n) as u8 == 48 + n);
        assert(digits_val(Seq::<u8>::empty()) == 0);
        assert(digits_val(dec_digits(n)) == (digits_val(Seq::<u8>::empty()) * 10 + (dec_digits(
            n,
        ).last() - 48)) as nat);
    } else {
        assert(dec_digits(n).drop_last() =~= dec_digits(n / 10));
        assert(dec_digits(n).last() == (48 + n % 10) as u8);
        assert((48 + n % 10) as u8 == 48 + n % 10);
        lemma_dec_digits_val(n / 10);
        assert(digits_val(dec_digits(n)) == ((n / 10) * 10 + n % 10) as nat);
        assert(n / 10 * 10 + n % 10 == n) by (nonlinear_arith);
        let s = dec_digits(n / 10);
        let d = (48 + n % 10) as u8;
        assert forall|i: int| 0 <= i < s.push(d).len() implies 48 <= #[trigger] s.push(d)[i]
            <= 57 by {
            if i < s.len() {
                assert(s.push(d)[i] == s[i]);
            } else {
                assert(s.push(d)[i] == d);
            }
        }
    }
}

/// Appending one byte each to two equal sequences orders them by that byte.
proof fn lemma_lex_push_lt(s: Seq<u8>, x: u8, y: u8)
    requires
        x < y,
    ensures
        lex_lt(s.push(x), s.push(y)),
    decreases s.len(),
{
    if s.len() == 0 {
        assert(s.push(x)[0] == x);
        assert(s.push(y)[0] == y);
    } else {
        lemma_lex_push_lt(s.drop_first(), x, y);
        assert(s.push(x).drop_first() =~= s.drop_first().push(x));
        assert(s.push(y).drop_first() =~= s.drop_first().push(y));
    }
}

/// Appending one byte each to two equal-length ordered sequences keeps the order.
proof fn lemma_lex_push_keeps(a: Seq<u8>, b: Seq<u8>, x: u8, y: u8)
    requires
        a.len() == b.len(),
        lex_lt(a, b),
    ensures
        lex_lt(a.push(x), b.push(y)),
    decreases a.len(),
{
    if a.len() > 0 {
        if a[0] == b[0] {
            lemma_lex_push_keeps(a.drop_first(), b.drop_first(), x, y);
            assert(a.push(x).drop_first() =~= a.drop_first().push(x));
            assert(b.push(y).drop_first() =~= b.drop_first().push(y));
        }
    }
}

/// Equal-width decimal renderings order byte-lexicographically as the numbers do.
pub proof fn lemma_pad_digits_lt(a: nat, b: nat, w: nat)
    requires
        a < b,
        b < pow10(w),
    ensures
        lex_lt(pad_digits(a, w), pad_digits(b, w)),
    decreases w,
{
    let da = (48 + a % 10) as u8;
    let db = (48 + b % 10) as u8;
    assert(b / 10 < pow10((w - 1) as nat)) by (nonlinear_arith)
        requires
            b < pow10(w),
            w > 0,
            pow10(w) == 10 * pow10((w - 1) as nat),
    ;
    if a / 10 == b / 10 {
        assert(a % 10 < b % 10) by (nonlinear_arith)
            requires
                a < b,
                a / 10 == b / 10,
        ;
        lemma_lex_push_lt(pad_digits(a / 10, (w - 1) as nat), da, db);
        assert(pad_digits(a, w) =~= pad_digits(a / 10, (w - 1) as nat).push(da));
    } else {
        assert(a / 10 < b / 10) by (nonlinear_arith)
            requires
                a < b,
                a / 10 != b / 10,
        ;
        lemma_pad_digits_lt(a / 10, b / 10, (w - 1) as nat);
        lemma_pad_digits_len(a / 10, (w - 1) as nat);
        lemma_pad_digits_len(b / 10, (w - 1) as nat);
        lemma_lex_push_keeps(
            pad_digits(a / 10, (w - 1) as nat),
            pad_digits(b / 10, (w - 1) as nat),
            da,
            db,
        );
    }
}

/// Two equal-length ordered sequences stay ordered under any suffixes.
pub proof fn lemma_lex_append(a: Seq<u8>, b: Seq<u8>, u: Seq<u8>, v: Seq<u8>)
    requires
        a.len() == b.len(),
        lex_lt(a, b),
    ensures
        lex_lt(a + u, b + v),
    decreases a.len(),
{
    if a.len() > 0 {
        assert((a + u)[0] == a[0]);
        assert((b + v)[0] == b[0]);
        if a[0] == b[0] {
            lemma_lex_append(a.drop_first(), b.drop_first(), u, v);
            assert((a + u).drop_first() =~= a.drop_first() + u);
            assert((b + v).drop_first() =~= b.drop_first() + v);
        }
    }
}

/// Appends the `w`-digit decimal rendering of `n` to `out`.
pub fn push_pad_digits(n: u64, w: usize, out: &mut Vec<u8>)
    ensures
        final(out)@ == old(out)@ + pad_digits(n as nat, w as nat),
    decreases w,
{
    if w == 0 {
        assert(out@ =~= out@ + pad_digits(n as nat, 0));
    } else {
        push_pad_digits(n / 10, w - 1, out);
        out.push(48 + (n % 10) as u8);
        assert(out@ =~= old(out)@ + pad_digits(n as nat, w as nat));
    }
}

/// Appends the decimal rendering of `n` (no padding) to `out`.
pub fn push_dec_u64(n: u64, out: &mut Vec<u8>)
    ensures
        final(out)@ == old(out)@ + dec_digits(n as nat),
    decreases n,
{
    if n < 10 {
        out.push(48 + n as u8);
        assert(out@ =~= old(out)@ + dec_digits(n as nat));
    } else {
        push_dec_u64(n / 10, out);
        out.push(48 + (n % 10) as u8);
        assert(out@ =~= old(out)@ + dec_digits(n as nat));
    }
}

/// What parsing a `u64` from decimal bytes yields.
pub open spec fn spec_parse_u64(s: Seq<u8>) -> Option<u64> {
    if s.len() > 0 && all_digits(s) && digits_val(s) <= u64::MAX {
        Some(digits_val(s) as u64)
    } else {
        None
    }
}

/// What parsing a `u128` from decimal bytes yields.
pub open spec fn spec_parse_u128(s: Seq<u8>) -> Option<u128> {
    if s.len() > 0 && all_digits(s) && digits_val(s) <= u128::MAX {
        Some(digits_val(s) as u128)
    } else {
        None
    }
}

/// The value of a digit string grows (weakly) with every digit appended.
proof fn lemma_digits_val_prefix(s: Seq<u8>, i: int)
    requires
        0 <= i <= s.len(),
        all_digits(s),
    ensures
        digits_val(s.take(i)) <= digits_val(s),
    decreases s.len() - i,
{
    if i < s.len() {
        assert(s.take(i + 1).drop_last() =~= s.take(i));
        assert(s.take(i + 1).last() == s[i]);
        assert(digits_val(s.take(i + 1)) >= digits_val(s.take(i))) by (nonlinear_arith)
            requires
                digits_val(s.take(i + 1)) == (digits_val(s.take(i)) * 10 + (s[i] - 48)) as nat,
                48 <= s[i] <= 57,
        ;
        lemma_digits_val_prefix(s, i + 1);
        assert(s.take(s.len() as int) =~= s);
    } else {
        assert(s.take(i) =~= s);
    }
}

/// Parses an unsigned 64-bit integer from ASCII decimal bytes.
pub fn parse_u64_dec(s: &[u8]) -> (r: Option<u64>)
    ensures
        r == spec_parse_u64(s@),
{
    if s.len() == 0 {
        return None;
    }
    let mut acc: u64 = 0;
    let mut i: usize = 0;
    while i < s.len()
        invariant
            0 <= i <= s@.len(),
            all_digits(s@.take(i as int)),
            acc == digits_val(s@.take(i as int)),
        decreases s@.len() - i,
    {
        let c = s[i];
        if c < 48 || c > 57 {
            return None;
        }
        let d = (c - 48) as u64;
        proof {
            assert(s@.take(i as int + 1).drop_last() =~= s@.take(i as int));
            assert(s@.take(i as int + 1).last() == s@[i as int]);
            assert(digits_val(s@.take(i as int + 1)) == acc * 10 + d);
        }
        if acc > (u64::MAX - d) / 10 {
            proof {
                assert(digits_val(s@.take(i as int + 1)) > u64::MAX) by (nonlinear_arith)
                    requires
                        digits_val(s@.take(i as int + 1)) == acc * 10 + d,
                        acc > (u64::MAX - d) / 10,
                        d <= 9,
                ;
                if all_digits(s@) {
                    lemma_digits_val_prefix(s@, i as int + 1);
                }
            }
            return None;
        }
        proof {
            assert(acc * 10 + d <= u64::MAX) by (nonlinear_arith)
                requires
                    acc <= (u64::MAX - d) / 10,
                    d <= 9,
            ;
        }
        acc = acc * 10 + d;
        i = i + 1;
    }
    proof {
        assert(s@.take(i as int) =~= s@);
    }
    Some(acc)
}

/// Parses an unsigned 128-bit integer from ASCII decimal bytes.
pub fn parse_u128_dec(s: &[u8]) -> (r: Option<u128>)
    ensures
        r == spec_parse_u128(s@),
{
    if s.len() == 0 {
        return None;
    }
    let mut acc: u128 = 0;
    let mut i: usize = 0;
    while i < s.len()
        invariant
            0 <= i <= s@.len(),
            all_digits(s@.take(i as int)),
            acc == digits_val(s@.take(i as int)),
        decreases s@.len() - i,
    {
        let c = s[i];
        if c < 48 || c > 57 {
            return None;
        }
        let d = (c - 48) as u128;
        proof {
            assert(s@.take(i as int + 1).drop_last() =~= s@.take(i as int));
            assert(s@.take(i as int + 1).last() == s@[i as int]);
            assert(digits_val(s@.take(i as int + 1)) == acc * 10 + d);
        }
        if acc > (u128::MAX - d) / 10 {
            proof {
                assert(digits_val(s@.take(i as int + 1)) > u128::MAX) by (nonlinear_arith)
                    requires
                        digits_val(s@.take(i as int + 1)) == acc * 10 + d,
                        acc > (u128::MAX - d) / 10,
                        d <= 9,
                ;
                if all_digits(s@) {
                    lemma_digits_val_prefix(s@, i as int + 1);
                }
            }
            return None;
        }
        proof {
            assert(acc * 10 + d <= u128::MAX) by (nonlinear_arith)
                requires
                    acc <= (u128::MAX - d) / 10,
                    d <= 9,
            ;
        }
        acc = acc * 10 + d;
        i = i + 1;
    }
    proof {
        assert(s@.take(i as int) =~= s@);
    }
    Some(acc)
}


/// Nothing precedes itself.
pub proof fn lemma_lex_irrefl(a: Seq<u8>)
    ensures
        !lex_lt(a, a),
    decreases a.len(),
{
    if a.len() > 0 {
        lemma_lex_irrefl(a.drop_first());
    }
}

/// The order is transitive.
pub proof fn lemma_lex_trans(a: Seq<u8>, b: Seq<u8>, c: Seq<u8>)
    requires
        lex_lt(a, b),
        lex_lt(b, c),
    ensures
        lex_lt(a, c),
    decreases a.len() + b.len() + c.len(),
{
    if a.len() > 0 && b.len() > 0 && c.len() > 0 {
        if a[0] == b[0] && b[0] == c[0] {
            lemma_lex_trans(a.drop_first(), b.drop_first(), c.drop_first());
        }
    }
}

/// Any two distinct byte strings are ordered one way or the other.
pub proof fn lemma_lex_total(a: Seq<u8>, b: Seq<u8>)
    requires
        a != b,
    ensures
        lex_lt(a, b) || lex_lt(b, a),
    decreases a.len() + b.len(),
{
    if a.len() == 0 {
        if b.len() == 0 {
            assert(a =~= b);
        }
    } else if b.len() == 0 {
    } else {
        if a[0] == b[0] {
            assert(a.drop_first() != b.drop_first()) by {
                if a.drop_first() == b.drop_first() {
                    assert(a.drop_first().len() == a.len() - 1);
                    assert(b.drop_first().len() == b.len() - 1);
                    assert(a.len() == b.len());
                    assert forall|j: int| 0 <= j < a.len() implies a[j] == b[j] by {
                        if j > 0 {
                            assert(a[j] == a.drop_first()[j - 1]);
                            assert(b[j] == b.drop_first()[j - 1]);
                        }
                    }
                    assert(a =~= b);
                }
            }
            lemma_lex_total(a.drop_first(), b.drop_first());
        }
    }
}

/// On equal prefixes of length `i`, the order is decided by the suffixes.
pub proof fn lemma_lex_skip(a: Seq<u8>, b: Seq<u8>, i: int)
    requires
        0 <= i <= a.len(),
        i <= b.len(),
        forall|j: int| 0 <= j < i ==> a[j] == b[j],
    ensures
        lex_lt(a, b) == lex_lt(a.skip(i), b.skip(i)),
    decreases i,
{
    if i > 0 {
        lemma_lex_skip(a.drop_first(), b.drop_first(), i - 1);
        assert(a.drop_first().skip(i - 1) =~= a.skip(i));
        assert(b.drop_first().skip(i - 1) =~= b.skip(i));
    } else {
        assert(a.skip(0) =~= a);
        assert(b.skip(0) =~= b);
    }
}

/// Compares two byte strings lexicographically.
pub fn bytes_lt(a: &[u8], b: &[u8]) -> (r: bool)
    ensures
        r == lex_lt(a@, b@),
{
    let short: usize = if a.len() < b.len() {
        a.len()
    } else {
        b.len()
    };
    let mut i: usize = 0;
    while i < short
        invariant
            0 <= i <= short,
            short == if a@.len() < b@.len() {
                a@.len()
            } else {
                b@.len()
            },
            forall|j: int| 0 <= j < i ==> a@[j] == b@[j],
        decreases short - i,
    {
        let x = a[i];
        let y = b[i];
        if x != y {
            proof {
                lemma_lex_skip(a@, b@, i as int);
                assert(a@.skip(i as int)[0] == a@[i as int]);
                assert(b@.skip(i as int)[0] == b@[i as int]);
            }
            return x < y;
        }
        i = i + 1;
    }
    proof {
        lemma_lex_skip(a@, b@, short as int);
        if a@.len() == b@.len() {
            assert(a@.skip(short as int) =~= Seq::<u8>::empty());
            assert(b@.skip(short as int) =~= Seq::<u8>::empty());
        } else if a@.len() < b@.len() {
            assert(a@.skip(short as int) =~= Seq::<u8>::empty());
            assert(b@.skip(short as int).len() > 0);
        } else {
            assert(b@.skip(short as int) =~= Seq::<u8>::empty());
        }
    }
    a.len() < b.len()
}

} // verus!
