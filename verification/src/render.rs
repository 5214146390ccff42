use vstd::prelude::*;

use crate::fees::AccountFees;
use crate::fees::AccountFeesV;
use crate::COMMA;
use crate::LF;

verus! {

/// Decimal digits of a natural number, most significant first.
pub open spec fn dec_digits(n: nat) -> Seq<u8>
    decreases n,
{
    if n < 10 {
        seq![(48 + n) as u8]
    } else {
        dec_digits(n / 10).push((48 + n % 10) as u8)
    }
}

/// The euro rendering of an unsigned minor-unit total: the whole units, `.`,
/// and exactly two fractional digits.
pub open spec fn money_mag(m: nat) -> Seq<u8> {
    dec_digits(m / 100) + seq![46u8, (48 + (m / 10) % 10) as u8, (48 + m % 10) as u8]
}

/// The euro rendering of a signed minor-unit total, with a leading `-` for
/// negatives.
pub open spec fn money_bytes(t: int) -> Seq<u8> {
    if t < 0 {
        seq![45u8] + money_mag((-t) as nat)
    } else {
        money_mag(t as nat)
    }
}

/// The output header as bytes.
pub open spec fn header_bytes() -> Seq<u8> {
    vstd::utf8::encode_utf8("account_id,email,transaction_count,total_fees_eur"@)
}

/// One output line for an accumulator: key, e-mail, count, and the total in
/// euros, separated by commas and ended by a newline.
pub open spec fn line_bytes(a: AccountFeesV) -> Seq<u8> {
    a.account_id + seq![COMMA] + a.email + seq![COMMA] + dec_digits(a.transaction_count) + seq![
        COMMA,
    ] + money_bytes(a.total_fees) + seq![LF]
}

/// The whole output: the header line, then one line per accumulator in the
/// summary's order.
pub open spec fn output_bytes(sum: Seq<AccountFeesV>) -> Seq<u8>
    decreases sum.len(),
{
    if sum.len() == 0 {
        header_bytes() + seq![LF]
    } else {
        output_bytes(sum.drop_last()) + line_bytes(sum.last())
    }
}

/// Appends the decimal digits of `n`.
#[verifier::loop_isolation(false)]
#[verifier::rlimit(30)]
fn push_dec_u64(out: &mut Vec<u8>, n: u64)
    ensures
        final(out)@ == old(out)@ + dec_digits(n as nat),
{
    let ghost base = old(out)@;
    let mut tmp: Vec<u8> = Vec::new();
    let ghost rem = Seq::<u8>::empty();
    let mut cur: u64 = n;
    proof {
        assert(dec_digits(n as nat) =~= dec_digits(cur as nat) + rem);
    }
    while cur >= 10
        invariant
            dec_digits(n as nat) == dec_digits(cur as nat) + rem,
            tmp@.len() == rem.len(),
            forall|j: int| 0 <= j < rem.len() ==> tmp@[j] == rem[rem.len() - 1 - j],
        decreases cur,
    {
        let d: u8 = 48 + (cur % 10) as u8;
        tmp.push(d);
        proof {
            assert(dec_digits(cur as nat) == dec_digits((cur as nat) / 10).push(d));
            assert(dec_digits((cur as nat) / 10).push(d) + rem =~= dec_digits((cur as nat) / 10)
                + (seq![d] + rem));
        }
        cur = cur / 10;
        proof {
            rem = seq![d] + rem;
        }
    }
    out.push(48 + cur as u8);
    proof {
        assert(dec_digits(cur as nat) =~= seq![(48 + cur) as u8]);
    }
    let mut j: usize = tmp.len();
    while j > 0
        invariant
            0 <= j <= tmp@.len(),
            out@ == base + seq![(48 + cur) as u8] + rem.take(rem.len() - j),
        decreases j,
    {
        j -= 1;
        out.push(tmp[j]);
        proof {
            assert(tmp@[j as int] == rem[rem.len() - 1 - j]);
            assert(rem.take(rem.len() - j) =~= rem.take(rem.len() - j - 1).push(
                rem[rem.len() - 1 - j],
            ));
        }
    }
    proof {
        assert(rem.take(rem.len() as int) =~= rem);
        assert(out@ =~= base + dec_digits(n as nat));
    }
}

/// Appends the euro rendering of a signed minor-unit total.
#[verifier::rlimit(30)]
fn push_money(out: &mut Vec<u8>, t: i64)
    ensures
        final(out)@ == old(out)@ + money_bytes(t as int),
{
    let ghost base = old(out)@;
    let mag: u64 = if t >= 0 {
        t as u64
    } else if t == i64::MIN {
        0x8000_0000_0000_0000
    } else {
        (-t) as u64
    };
    if t < 0 {
        out.push(45);
    }
    push_dec_u64(out, mag / 100);
    out.push(46);
    out.push(48 + ((mag / 10) % 10) as u8);
    out.push(48 + (mag % 10) as u8);
    proof {
        let m = mag as nat;
        assert(money_mag(m) =~= dec_digits(m / 100) + seq![
            46u8,
            (48 + (m / 10) % 10) as u8,
            (48 + m % 10) as u8,
        ]);
        if t < 0 {
            assert(out@ =~= base + (seq![45u8] + money_mag(m)));
        } else {
            assert(out@ =~= base + money_mag(m));
        }
    }
}

/// Writes the summary CSV: the fixed header line, then one line per account
/// in the summary's order, each line ended by a newline.
#[verifier::loop_isolation(false)]
#[verifier::rlimit(60)]
pub fn render_summary(sum: &Vec<AccountFees>) -> (out: Vec<u8>)
    ensures
        out@ == output_bytes(sum.deep_view()),
{
    let mut out: Vec<u8> = Vec::new();
    let h = AccountFees::csv_header();
    let mut hb = vstd::string::StrSliceExecFns::as_bytes_vec(h);
    out.append(&mut hb);
    out.push(LF);
    proof {
        assert(out@ =~= output_bytes(Seq::<AccountFeesV>::empty()));
        assert(sum.deep_view().take(0) =~~= Seq::<AccountFeesV>::empty());
    }
    let mut i: usize = 0;
    while i < sum.len()
        invariant
            0 <= i <= sum.len(),
            out@ == output_bytes(sum.deep_view().take(i as int)),
        decreases sum.len() - i,
    {
        let a = &sum[i];
        out.extend_from_slice(a.account_id.as_slice());
        out.push(COMMA);
        out.extend_from_slice(a.email.as_slice());
        out.push(COMMA);
        push_dec_u64(&mut out, a.transaction_count as u64);
        out.push(COMMA);
        push_money(&mut out, a.total_fees);
        out.push(LF);
        proof {
            assert(sum.deep_view().take(i + 1).drop_last() =~~= sum.deep_view().take(i as int));
            assert(sum.deep_view().take(i + 1).last() == a.deep_view());
            assert(out@ =~= output_bytes(sum.deep_view().take(i as int)) + line_bytes(a@));
        }
        i += 1;
    }
    proof {
        assert(sum.deep_view().take(sum.len() as int) =~~= sum.deep_view());
    }
    out
}

} // verus!
