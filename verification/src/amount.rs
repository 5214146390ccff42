use vstd::prelude::*;

use crate::errors::Error;

verus! {

/// True of the ASCII code of a decimal digit.
pub open spec fn is_digit(b: u8) -> bool {
    48 <= b <= 57
}

/// True of the two accepted decimal separators, `.` and `,`.
pub open spec fn is_sep(b: u8) -> bool {
    b == 46 || b == 44
}

/// True when the text opens with an explicit `+` or `-`.
pub open spec fn has_sign(s: Seq<u8>) -> bool {
    s.len() > 0 && (s[0] == 43 || s[0] == 45)
}

/// True when the text denotes a negative value.
pub open spec fn is_neg(s: Seq<u8>) -> bool {
    s.len() > 0 && s[0] == 45
}

/// The digits-and-separator part of the text, after any sign.
pub open spec fn body(s: Seq<u8>) -> Seq<u8> {
    if has_sign(s) {
        s.drop_first()
    } else {
        s
    }
}

/// A valid body is made of digits and at most one decimal separator, with at
/// least one digit.
pub open spec fn valid_body(b: Seq<u8>) -> bool {
    &&& forall|i: int| 0 <= i < b.len() ==> is_digit(b[i]) || is_sep(b[i])
    &&& forall|i: int, j: int| 0 <= i < j < b.len() && is_sep(b[i]) ==> !is_sep(b[j])
    &&& exists|i: int| 0 <= i < b.len() && is_digit(b[i])
}

/// The accepted textual forms: an optional sign, digits, and at most one
/// decimal separator, which may be either `.` or `,`.
pub open spec fn valid_amount(s: Seq<u8>) -> bool {
    valid_body(body(s))
}

/// Index of the first decimal separator, or the length when there is none.
pub open spec fn sep_pos(b: Seq<u8>) -> int
    decreases b.len(),
{
    if b.len() == 0 {
        0
    } else if is_sep(b[0]) {
        0
    } else {
        1 + sep_pos(b.drop_first())
    }
}

/// The digits before the separator (the whole-unit part).
pub open spec fn int_digits(b: Seq<u8>) -> Seq<u8> {
    b.take(sep_pos(b))
}

/// The digits after the separator (the fractional part).
pub open spec fn frac_digits(b: Seq<u8>) -> Seq<u8> {
    if sep_pos(b) < b.len() {
        b.skip(sep_pos(b) + 1)
    } else {
        Seq::empty()
    }
}

/// Value of a digit string read in base ten.
pub open spec fn digits_val(ds: Seq<u8>) -> nat
    decreases ds.len(),
{
    if ds.len() == 0 {
        0
    } else {
        digits_val(ds.drop_last()) * 10 + (ds.last() - 48) as nat
    }
}

/// Ten to the `k`.
pub open spec fn pow10(k: nat) -> nat
    decreases k,
{
    if k == 0 {
        1
    } else {
        10 * pow10((k - 1) as nat)
    }
}

/// Cents contributed by the fractional digits: the value of the first two
/// (the second taken as zero when absent), plus one more cent when the third
/// digit rounds the value up, half away from zero.
pub open spec fn frac_cents(fd: Seq<u8>) -> nat {
    let two: nat = if fd.len() >= 2 {
        digits_val(fd.take(2))
    } else if fd.len() == 1 {
        digits_val(fd) * 10
    } else {
        0
    };
    let carry: nat = if fd.len() >= 3 && fd[2] >= 53 {
        1
    } else {
        0
    };
    two + carry
}

/// Minor units denoted by the unsigned part of a valid body.
pub open spec fn magnitude_cents(b: Seq<u8>) -> nat {
    digits_val(int_digits(b)) * 100 + frac_cents(frac_digits(b))
}

/// The value denoted by a valid amount string, in signed minor units.
pub open spec fn amount_of(s: Seq<u8>) -> int {
    if is_neg(s) {
        -(magnitude_cents(body(s)) as int)
    } else {
        magnitude_cents(body(s)) as int
    }
}

/// True when the denoted value is representable as a signed 64-bit integer.
pub open spec fn amount_fits(s: Seq<u8>) -> bool {
    i64::MIN <= amount_of(s) <= i64::MAX
}

/// A digit string's value is below ten to its length.
proof fn lemma_digits_val_upper(ds: Seq<u8>)
    requires
        forall|i: int| 0 <= i < ds.len() ==> is_digit(ds[i]),
    ensures
        digits_val(ds) < pow10(ds.len()),
    decreases ds.len(),
{
    if ds.len() > 0 {
        lemma_digits_val_upper(ds.drop_last());
    }
}

/// A digit string that opens with a nonzero digit has a value of at least ten
/// to one less than its length.
proof fn lemma_digits_val_lower(ds: Seq<u8>)
    requires
        ds.len() > 0,
        ds[0] != 48,
        forall|i: int| 0 <= i < ds.len() ==> is_digit(ds[i]),
    ensures
        digits_val(ds) >= pow10((ds.len() - 1) as nat),
    decreases ds.len(),
{
    if ds.len() > 1 {
        lemma_digits_val_lower(ds.drop_last());
    }
}

/// Leading zeros do not change a digit string's value.
proof fn lemma_digits_val_strip(ds: Seq<u8>, z: int)
    requires
        0 <= z <= ds.len(),
        forall|i: int| 0 <= i < z ==> ds[i] == 48,
    ensures
        digits_val(ds.skip(z)) == digits_val(ds),
    decreases ds.len(),
{
    if z == 0 {
        assert(ds.skip(0) =~= ds);
    } else if z == ds.len() {
        assert(ds.skip(z) =~= Seq::<u8>::empty());
        assert(ds.drop_last() =~= ds.take(ds.len() - 1));
        lemma_digits_val_strip(ds.drop_last(), z - 1);
        assert(ds.drop_last().skip(z - 1) =~= Seq::<u8>::empty());
    } else {
        lemma_digits_val_strip(ds.drop_last(), z);
        assert(ds.skip(z).drop_last() =~= ds.drop_last().skip(z));
    }
}

/// `pow10` is monotone.
proof fn lemma_pow10_mono(a: nat, b: nat)
    requires
        a <= b,
    ensures
        pow10(a) <= pow10(b),
    decreases b,
{
    if a < b {
        lemma_pow10_mono(a, (b - 1) as nat);
    }
}

/// Concrete values of `pow10` that the parser's bounds rest on.
proof fn lemma_pow10_values()
    ensures
        pow10(16) == 0x2386f26fc10000,
        pow10(17) == 0x16345785d8a0000,
{
    assert(pow10(0) == 1);
    assert(pow10(1) == 10);
    assert(pow10(2) == 100);
    assert(pow10(3) == 1000);
    assert(pow10(4) == 10000);
    assert(pow10(5) == 100000);
    assert(pow10(6) == 1000000);
    assert(pow10(7) == 10000000);
    assert(pow10(8) == 100000000);
    assert(pow10(9) == 1000000000);
    assert(pow10(10) == 10000000000);
    assert(pow10(11) == 100000000000);
    assert(pow10(12) == 1000000000000);
    assert(pow10(13) == 10000000000000);
    assert(pow10(14) == 100000000000000);
    assert(pow10(15) == 1000000000000000);
    assert(pow10(16) == 10000000000000000);
    assert(pow10(17) == 100000000000000000);
}

/// Values of one- and two-digit strings.
proof fn lemma_digits_val_small(a: u8, b: u8)
    requires
        is_digit(a),
        is_digit(b),
    ensures
        digits_val(seq![a]) == (a - 48) as nat,
        digits_val(seq![a, b]) == (a - 48) * 10 + (b - 48),
{
    reveal_with_fuel(digits_val, 3);
    assert(seq![a, b].drop_last() =~= seq![a]);
    assert(seq![a].drop_last() =~= Seq::<u8>::empty());
}

/// The first separator stands at `k` when nothing before `k` is one and
/// either `k` is the length or `b[k]` is one.
proof fn lemma_sep_pos_at(b: Seq<u8>, k: int)
    requires
        0 <= k <= b.len(),
        forall|i: int| 0 <= i < k ==> !is_sep(b[i]),
        k < b.len() ==> is_sep(b[k]),
    ensures
        sep_pos(b) == k,
    decreases b.len(),
{
    if k > 0 {
        lemma_sep_pos_at(b.drop_first(), k - 1);
    }
}

/// Checks the grammar: returns the index of the decimal separator (or the
/// text's length when there is none) when the text is a well-formed amount.
#[verifier::loop_isolation(false)]
#[verifier::rlimit(30)]
fn find_shape(text: &[u8], start: usize) -> (r: Option<usize>)
    requires
        start == if has_sign(text@) { 1int } else { 0int },
    ensures
        match r {
            Some(si) => valid_body(body(text@)) && start <= si <= text@.len() && sep_pos(
                body(text@),
            ) == si - start && (forall|i: int| start <= i < si ==> is_digit(text@[i])) && (forall|
                i: int,
            | si < i < text@.len() ==> is_digit(text@[i])),
            None => !valid_body(body(text@)),
        },
{
    let n: usize = text.len();
    assert(body(text@) =~= text@.skip(start as int));

    // Locate the first separator.
    let mut si: usize = start;
    while si < n && !(text[si] == 46 || text[si] == 44)
        invariant
            start <= si <= n,
            forall|i: int| start <= i < si ==> !is_sep(text@[i]),
        decreases n - si,
    {
        si += 1;
    }
    proof {
        lemma_sep_pos_at(body(text@), si - start);
    }

    // Everything outside the separator must be a digit.
    let mut j: usize = start;
    while j < si
        invariant
            start <= j <= si <= n,
            forall|i: int| start <= i < j ==> is_digit(text@[i]),
        decreases si - j,
    {
        if text[j] < 48 || text[j] > 57 {
            proof {
                let bi = j - start;
                assert(body(text@)[bi] == text@[j as int]);
                assert(!valid_body(body(text@)));
            }
            return None;
        }
        j += 1;
    }
    if si < n {
        let mut j2: usize = si + 1;
        while j2 < n
            invariant
                si + 1 <= j2 <= n,
                si < n,
                forall|i: int| si + 1 <= i < j2 ==> is_digit(text@[i]),
            decreases n - j2,
        {
            if text[j2] < 48 || text[j2] > 57 {
                proof {
                    let b = body(text@);
                    let bi = j2 - start;
                    let bs = si - start;
                    assert(b[bi] == text@[j2 as int]);
                    assert(b[bs] == text@[si as int]);
                    assert(!valid_body(b));
                }
                return None;
            }
            j2 += 1;
        }
    }

    // At least one digit must be present.
    if si == start && (si == n || si + 1 == n) {
        proof {
            let b = body(text@);
            assert forall|i: int| 0 <= i < b.len() implies !is_digit(b[i]) by {
                assert(b[i] == text@[i + start]);
            }
            assert(!valid_body(b));
        }
        return None;
    }
    proof {
        let b = body(text@);
        assert forall|i: int| 0 <= i < b.len() implies is_digit(b[i]) || is_sep(b[i]) by {
            assert(b[i] == text@[i + start]);
        }
        assert forall|i: int, j: int| 0 <= i < j < b.len() && is_sep(b[i]) implies !is_sep(
            b[j],
        ) by {
            assert(b[i] == text@[i + start]);
            assert(b[j] == text@[j + start]);
        }
        if si > start {
            assert(is_digit(b[0]) && 0 < b.len());
        } else {
            assert(is_digit(b[si + 1 - start]) && 0 <= si + 1 - start < b.len());
        }
        assert(valid_body(b));
    }
    Some(si)
}

/// Computes the minor units of a well-formed amount's unsigned part; `None`
/// when even the whole-unit part exceeds the 64-bit range.
#[verifier::loop_isolation(false)]
#[verifier::rlimit(60)]
fn magnitude(text: &[u8], start: usize, si: usize) -> (r: Option<u64>)
    requires
        start == if has_sign(text@) { 1int } else { 0int },
        valid_body(body(text@)),
        start <= si <= text@.len(),
        sep_pos(body(text@)) == si - start,
        forall|i: int| start <= i < si ==> is_digit(text@[i]),
        forall|i: int| si < i < text@.len() ==> is_digit(text@[i]),
    ensures
        match r {
            Some(m) => m == magnitude_cents(body(text@)),
            None => magnitude_cents(body(text@)) > 0x8000_0000_0000_0000,
        },
{
    let n: usize = text.len();
    proof {
        let b = body(text@);
        assert(b =~= text@.skip(start as int));
        assert(int_digits(b) =~= text@.subrange(start as int, si as int));
        if si < n {
            assert(frac_digits(b) =~= text@.subrange(si + 1, n as int));
        } else {
            assert(frac_digits(b) =~= Seq::<u8>::empty());
        }
        lemma_pow10_values();
    }

    // Strip leading zeros of the whole-unit part; bound its width.
    let mut z: usize = start;
    while z < si && text[z] == 48
        invariant
            start <= z <= si <= n,
            forall|i: int| start <= i < z ==> text@[i] == 48,
        decreases si - z,
    {
        z += 1;
    }
    proof {
        lemma_digits_val_strip(text@.subrange(start as int, si as int), z - start);
        assert(text@.subrange(start as int, si as int).skip(z - start) =~= text@.subrange(
            z as int,
            si as int,
        ));
    }
    if si - z > 17 {
        // The whole-unit part alone exceeds the 64-bit range.
        proof {
            let sig = text@.subrange(z as int, si as int);
            lemma_digits_val_lower(sig);
            lemma_pow10_mono(17, (sig.len() - 1) as nat);
            assert(digits_val(int_digits(body(text@))) >= pow10(17));
        }
        return None;
    }

    // Accumulate the whole-unit digits.
    let ghost seg = text@.subrange(z as int, si as int);
    let mut acc: u64 = 0;
    let mut k: usize = z;
    while k < si
        invariant
            z <= k <= si,
            acc == digits_val(seg.take(k - z)),
        decreases si - k,
    {
        proof {
            lemma_digits_val_upper(seg.take(k - z));
            lemma_pow10_mono((k - z) as nat, 16);
            assert(seg.take(k + 1 - z).drop_last() =~= seg.take(k - z));
            assert(seg.take(k + 1 - z).last() == text@[k as int]);
        }
        acc = acc * 10 + (text[k] - 48) as u64;
        k += 1;
    }
    proof {
        assert(seg.take(si - z) =~= seg);
        lemma_digits_val_upper(seg);
        lemma_pow10_mono((seg.len()) as nat, 17);
        assert(acc == digits_val(int_digits(body(text@))));
        assert(acc < 0x16345785d8a0000);
    }

    // The first two fractional digits, and the half-away-from-zero carry.
    let mut f2: u64 = 0;
    let mut carry: u64 = 0;
    if si < n {
        let flen: usize = n - si - 1;
        if flen >= 1 {
            f2 = (text[si + 1] - 48) as u64 * 10;
        }
        if flen >= 2 {
            f2 = f2 + (text[si + 2] - 48) as u64;
        }
        if flen >= 3 && text[si + 3] >= 53 {
            carry = 1;
        }
        proof {
            let fd = frac_digits(body(text@));
            if flen >= 1 {
                lemma_digits_val_small(text@[si + 1], if flen >= 2 {
                    text@[si + 2]
                } else {
                    48
                });
            }
            if flen >= 2 {
                assert(fd.take(2) =~= seq![text@[si + 1], text@[si + 2]]);
            } else if flen == 1 {
                assert(fd =~= seq![text@[si + 1]]);
            }
            assert(f2 + carry == frac_cents(fd));
        }
    }

    let m: u64 = acc * 100 + f2 + carry;
    assert(m == magnitude_cents(body(text@)));
    Some(m)
}

/// Parses a textual monetary amount into integer minor units: the denoted
/// value is multiplied by one hundred and rounded to the nearest integer,
/// half away from zero. Both `.` and `,` are accepted as the decimal
/// separator and mean the same. Text that does not fit the grammar, or
/// denotes a value outside the signed 64-bit range, is rejected.
pub fn parse_amount(text: &[u8]) -> (r: Result<i64, Error>)
    ensures
        r is Ok <==> valid_amount(text@) && amount_fits(text@),
        r is Ok ==> r->Ok_0 == amount_of(text@),
        r is Err ==> (r->Err_0 matches Error::MalformedAmount(c) && c@ == text@),
{
    let n: usize = text.len();
    let start: usize = if n > 0 && (text[0] == 43 || text[0] == 45) {
        1
    } else {
        0
    };
    let neg: bool = n > 0 && text[0] == 45;
    let si: usize = match find_shape(text, start) {
        Some(si) => si,
        None => {
            return Err(Error::MalformedAmount(vstd::slice::slice_to_vec(text)));
        },
    };
    let m: u64 = match magnitude(text, start, si) {
        Some(m) => m,
        None => {
            return Err(Error::MalformedAmount(vstd::slice::slice_to_vec(text)));
        },
    };
    if !neg {
        if m <= 0x7fff_ffff_ffff_ffff {
            Ok(m as i64)
        } else {
            Err(Error::MalformedAmount(vstd::slice::slice_to_vec(text)))
        }
    } else {
        if m < 0x8000_0000_0000_0000 {
            Ok(-(m as i64))
        } else if m == 0x8000_0000_0000_0000 {
            Ok(i64::MIN)
        } else {
            Err(Error::MalformedAmount(vstd::slice::slice_to_vec(text)))
        }
    }
}

/// Rounding half away from zero of the ratio `num / den`, for a nonnegative
/// numerator and a positive denominator.
pub open spec fn round_half_up(num: int, den: int) -> int
    recommends
        0 <= num,
        0 < den,
{
    (2 * num + den) / (2 * den)
}

/// `pow10` turns sums of exponents into products.
proof fn lemma_pow10_add(a: nat, b: nat)
    ensures
        pow10(a + b) == pow10(a) * pow10(b),
    decreases a,
{
    if a > 0 {
        lemma_pow10_add((a - 1) as nat, b);
        let x = pow10((a - 1) as nat);
        let y = pow10(b);
        assert((a + b - 1) as nat == (a - 1) as nat + b);
        assert(pow10(a + b) == 10 * pow10((a + b - 1) as nat));
        assert(pow10(a + b) == 10 * (x * y));
        assert(10 * (x * y) == (10 * x) * y) by (nonlinear_arith);
        assert(pow10(a) == 10 * x);
        assert(pow10(a + b) == pow10(a) * pow10(b));
    } else {
        assert(pow10(a + b) == pow10(b));
        assert(pow10(a) == 1);
    }
}

/// Concatenating digit strings: the left part shifts by the right's width.
proof fn lemma_digits_val_split(a: Seq<u8>, c: Seq<u8>)
    ensures
        digits_val(a + c) == digits_val(a) * pow10(c.len()) + digits_val(c),
    decreases c.len(),
{
    assert((digits_val(a) as int) * (pow10(c.len()) as int) >= 0) by (nonlinear_arith);
    if c.len() == 0 {
        assert(a + c =~= a);
        assert(pow10(c.len()) == 1);
        assert(digits_val(c) == 0);
        assert(digits_val(a + c) == digits_val(a));
        assert(digits_val(a) * pow10(c.len()) + digits_val(c) == digits_val(a))
            by (nonlinear_arith)
            requires
                pow10(c.len()) == 1,
                digits_val(c) == 0,
        ;
    } else {
        lemma_digits_val_split(a, c.drop_last());
        assert((a + c).drop_last() =~= a + c.drop_last());
        assert((a + c).last() == c.last());
        let da = digits_val(a) as int;
        let dc = digits_val(c.drop_last()) as int;
        let dl = (c.last() - 48) as nat as int;
        let pl = pow10((c.len() - 1) as nat) as int;
        assert(digits_val(a + c) == digits_val((a + c).drop_last()) * 10 + ((a + c).last()
            - 48) as nat);
        assert(digits_val(a + c.drop_last()) == da * pl + dc);
        assert(digits_val(a + c) == (da * pl + dc) * 10 + dl);
        assert(pow10(c.len()) == 10 * pow10((c.len() - 1) as nat));
        assert((da * pl + dc) * 10 == da * (10 * pl) + dc * 10) by (nonlinear_arith);
        assert(digits_val(c) == dc * 10 + dl);
        assert(digits_val(a + c) == da * (10 * pl) + dc * 10 + dl);
        assert(digits_val(a) * pow10(c.len()) + digits_val(c) == da * (10 * pl) + dc * 10 + dl)
            by (nonlinear_arith)
            requires
                pow10(c.len()) == 10 * pl,
                da == digits_val(a) as int,
                digits_val(c) == dc * 10 + dl,
                0 <= dc,
                0 <= dl,
                0 <= pl,
        ;
    }
}

/// The value that `parse_amount` assigns is the rounding, half away from
/// zero, of the denoted real value times one hundred: the ratio of
/// `100 * (whole * pow10(k) + fraction)` to `pow10(k)`, where `k` is the
/// number of fractional digits, carried by the sign.
pub proof fn lemma_amount_rounds(s: Seq<u8>)
    requires
        valid_amount(s),
    ensures
        ({
            let b = body(s);
            let k = frac_digits(b).len();
            let num = 100 * (digits_val(int_digits(b)) * pow10(k) + digits_val(frac_digits(b)));
            amount_of(s) == if is_neg(s) {
                -round_half_up(num as int, pow10(k) as int)
            } else {
                round_half_up(num as int, pow10(k) as int)
            }
        }),
{
    lemma_magnitude_rounds(body(s));
}

/// The magnitude computed by the parser is the half-away-from-zero rounding
/// of the unsigned value times one hundred.
#[verifier::rlimit(100)]
proof fn lemma_magnitude_rounds(b: Seq<u8>)
    requires
        valid_body(b),
    ensures
        ({
            let k = frac_digits(b).len();
            let num = 100 * (digits_val(int_digits(b)) * pow10(k) + digits_val(frac_digits(b)));
            magnitude_cents(b) == round_half_up(num as int, pow10(k) as int)
        }),
{
    let fd = frac_digits(b);
    let k = fd.len() as int;
    let sp = sep_pos(b);
    assert(0 <= sp <= b.len()) by {
        lemma_sep_pos_le(b);
    }
    assert forall|i: int| 0 <= i < fd.len() implies is_digit(fd[i]) by {
        assert(fd[i] == b[sp + 1 + i]);
        assert(is_digit(b[sp]) || is_sep(b[sp]));
        if is_sep(b[sp + 1 + i]) {
            lemma_sep_pos_sep(b);
            assert(is_sep(b[sp]));
        }
    }
    let i0 = digits_val(int_digits(b)) as int;
    assert((digits_val(int_digits(b)) as int) * (pow10(fd.len()) as int) >= 0) by (nonlinear_arith);
    let kn = fd.len();
    let gnum: int = (100 * (digits_val(int_digits(b)) * pow10(kn) + digits_val(fd))) as int;
    let den: int = pow10(kn) as int;
    if k == 0 {
        assert(digits_val(fd) == 0);
        assert(den == 1);
        assert(gnum == 100 * i0) by (nonlinear_arith)
            requires
                gnum == (100 * (digits_val(int_digits(b)) * pow10(kn) + digits_val(fd))) as int,
                pow10(kn) == 1,
                digits_val(fd) == 0,
                i0 == digits_val(int_digits(b)) as int,
        ;
        vstd::arithmetic::div_mod::lemma_fundamental_div_mod_converse_div(
            2 * gnum + 1,
            2,
            100 * i0,
            1,
        );
        assert(round_half_up(gnum, den) == 100 * i0);
        assert(magnitude_cents(b) == i0 * 100);
    } else if k == 1 {
        lemma_digits_val_upper(fd);
        let f = digits_val(fd) as int;
        assert(frac_cents(fd) == f * 10);
        assert(pow10(0) == 1);
        assert(den == 10);
        assert(2 * gnum + 10 == (100 * i0 + 10 * f) * 20 + 10) by (nonlinear_arith)
            requires
                gnum == (100 * (digits_val(int_digits(b)) * pow10(kn) + digits_val(fd))) as int,
                pow10(kn) == 10,
                i0 == digits_val(int_digits(b)) as int,
                f == digits_val(fd) as int,
        ;
        vstd::arithmetic::div_mod::lemma_fundamental_div_mod_converse_div(
            2 * gnum + 10,
            20,
            100 * i0 + 10 * f,
            10,
        );
        assert(round_half_up(gnum, den) == 100 * i0 + 10 * f);
        assert(magnitude_cents(b) == i0 * 100 + f * 10);
    } else if k == 2 {
        lemma_digits_val_upper(fd);
        let f = digits_val(fd) as int;
        assert(fd.take(2) =~= fd);
        assert(pow10(0) == 1);
        assert(pow10(1) == 10);
        assert(den == 100);
        assert(2 * gnum + 100 == (100 * i0 + f) * 200 + 100) by (nonlinear_arith)
            requires
                gnum == (100 * (digits_val(int_digits(b)) * pow10(kn) + digits_val(fd))) as int,
                pow10(kn) == 100,
                i0 == digits_val(int_digits(b)) as int,
                f == digits_val(fd) as int,
        ;
        vstd::arithmetic::div_mod::lemma_fundamental_div_mod_converse_div(
            2 * gnum + 100,
            200,
            100 * i0 + f,
            100,
        );
        assert(round_half_up(gnum, den) == 100 * i0 + f);
        assert(magnitude_cents(b) == i0 * 100 + f);
    } else {
        // Three or more fractional digits: only the third decides the carry.
        let f2s = fd.take(2);
        let rs = fd.skip(2);
        assert(fd =~= f2s + rs);
        lemma_digits_val_split(f2s, rs);
        let f2 = digits_val(f2s) as int;
        let r = digits_val(rs) as int;
        let p = pow10((k - 2) as nat) as int;
        let q = pow10((k - 3) as nat) as int;
        assert(p == 10 * q);
        lemma_pow10_mono(0, (k - 3) as nat);
        assert(q >= 1);
        lemma_pow10_add(2, (k - 2) as nat);
        assert(pow10(0) == 1);
        assert(pow10(1) == 10);
        assert(pow10(2) == 100);
        assert(2 + (k - 2) as nat == k as nat);
        assert(pow10(k as nat) as int == 100 * p);

        assert(rs.len() == (k - 2) as nat);
        assert forall|i: int| 0 <= i < rs.len() implies is_digit(rs[i]) by {
            assert(rs[i] == fd[2 + i]);
        }
        lemma_digits_val_upper(rs);

        // The carry digit decides whether twice the remainder reaches `p`.
        let d3s = rs.take(1);
        let r2s = rs.skip(1);
        assert(rs =~= d3s + r2s);
        lemma_digits_val_split(d3s, r2s);
        assert(d3s =~= seq![fd[2]]);
        assert(is_digit(fd[2]));
        lemma_digits_val_small(fd[2], 48);
        let d3 = (fd[2] - 48) as int;
        let r2 = digits_val(r2s) as int;
        assert forall|i: int| 0 <= i < r2s.len() implies is_digit(r2s[i]) by {
            assert(r2s[i] == fd[3 + i]);
        }
        lemma_digits_val_upper(r2s);
        assert(r2s.len() == (k - 3) as nat);
        assert((digits_val(d3s) as int) * (pow10(r2s.len()) as int) >= 0) by (nonlinear_arith);
        assert(r == d3 * q + r2);
        assert(r2 < q);
        let carry: int = if fd[2] >= 53 {
            1
        } else {
            0
        };
        if fd[2] >= 53 {
            assert(d3 >= 5);
            assert(d3 * q >= 5 * q) by (nonlinear_arith)
                requires d3 >= 5 && q >= 1;
            assert(2 * r >= p);
        } else {
            assert(d3 <= 4);
            assert(d3 * q <= 4 * q) by (nonlinear_arith)
                requires d3 <= 4 && q >= 1;
            assert(2 * r <= 8 * q + 2 * r2);
            assert(2 * r < p);
        }

        // The division itself.
        let f = digits_val(fd) as int;
        assert(rs.len() == (k - 2) as nat);
        assert((digits_val(f2s) as int) * (pow10(rs.len()) as int) >= 0) by (nonlinear_arith);
        assert(digits_val(fd) == digits_val(f2s + rs));
        assert(f == f2 * p + r);
        assert(kn == k as nat);
        assert(den == 100 * p);
        assert(gnum == 100 * (i0 * (100 * p) + f));
        assert(gnum == (100 * i0 + f2) * (100 * p) + 100 * r) by (nonlinear_arith)
            requires
                gnum == 100 * (i0 * (100 * p) + f),
                f == f2 * p + r,
        ;
        if carry == 1 {
            assert(2 * gnum + 100 * p == (100 * i0 + f2 + 1) * (200 * p) + (200 * r - 100 * p))
                by (nonlinear_arith)
                requires gnum == (100 * i0 + f2) * (100 * p) + 100 * r;
            assert(0 <= 200 * r - 100 * p < 200 * p) by {
                assert(r < p);
            }
            vstd::arithmetic::div_mod::lemma_fundamental_div_mod_converse_div(
                2 * gnum + 100 * p,
                200 * p,
                100 * i0 + f2 + 1,
                200 * r - 100 * p,
            );
            assert(round_half_up(gnum, den) == 100 * i0 + f2 + 1);
        } else {
            assert(2 * gnum + 100 * p == (100 * i0 + f2) * (200 * p) + (200 * r + 100 * p))
                by (nonlinear_arith)
                requires gnum == (100 * i0 + f2) * (100 * p) + 100 * r;
            assert(0 <= 200 * r + 100 * p < 200 * p) by {
                assert(2 * r < p);
            }
            vstd::arithmetic::div_mod::lemma_fundamental_div_mod_converse_div(
                2 * gnum + 100 * p,
                200 * p,
                100 * i0 + f2,
                200 * r + 100 * p,
            );
            assert(round_half_up(gnum, den) == 100 * i0 + f2);
        }
        assert(magnitude_cents(b) == i0 * 100 + f2 + carry);
        assert(magnitude_cents(b) == round_half_up(gnum, den));
    }
}

/// The first-separator index lies within the body.
proof fn lemma_sep_pos_le(b: Seq<u8>)
    ensures
        0 <= sep_pos(b) <= b.len(),
    decreases b.len(),
{
    if b.len() > 0 && !is_sep(b[0]) {
        lemma_sep_pos_le(b.drop_first());
    }
}

/// When the first-separator index lies inside the body, it names a separator.
proof fn lemma_sep_pos_sep(b: Seq<u8>)
    ensures
        sep_pos(b) < b.len() ==> is_sep(b[sep_pos(b)]),
    decreases b.len(),
{
    if b.len() > 0 && !is_sep(b[0]) {
        lemma_sep_pos_le(b.drop_first());
        lemma_sep_pos_sep(b.drop_first());
        assert(sep_pos(b) == 1 + sep_pos(b.drop_first()));
        if sep_pos(b) < b.len() {
            assert(b.drop_first()[sep_pos(b) - 1] == b[sep_pos(b)]);
        }
    }
}

} // verus!
