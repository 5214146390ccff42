use vstd::prelude::*;

use crate::amount::amount_fits;
use crate::amount::amount_of;
use crate::amount::parse_amount;
use crate::amount::valid_amount;
use crate::errors::Error;
use crate::errors::ErrorV;
use crate::fees::aggregate;
use crate::fees::summary_of;
use crate::fees::AccountFees;
use crate::fees::Entry;
use crate::fees::EntryV;
use crate::records::records;
use crate::records::scan_records;
use crate::render::output_bytes;
use crate::render::render_summary;

verus! {

/// The `Amount` column name as bytes.
pub open spec fn amount_name() -> Seq<u8> {
    vstd::utf8::encode_utf8("Amount"@)
}

/// The `User ID` column name as bytes.
pub open spec fn user_id_name() -> Seq<u8> {
    vstd::utf8::encode_utf8("User ID"@)
}

/// The `User Email` column name as bytes.
pub open spec fn user_email_name() -> Seq<u8> {
    vstd::utf8::encode_utf8("User Email"@)
}

/// The message given for a data row whose width differs from the header's.
pub open spec fn ragged_msg() -> Seq<u8> {
    vstd::utf8::encode_utf8("row length differs from header"@)
}

/// Index of the first header field carrying the given name, or the length
/// when none does; a duplicated header counts at its first occurrence.
pub open spec fn col_index(hdr: Seq<Seq<u8>>, name: Seq<u8>) -> int
    decreases hdr.len(),
{
    if hdr.len() == 0 {
        0
    } else if hdr[0] == name {
        0
    } else {
        1 + col_index(hdr.drop_first(), name)
    }
}

/// `col_index` points at `k` when no field before `k` matches and either `k`
/// is the length or the field at `k` matches.
proof fn lemma_col_index_at(hdr: Seq<Seq<u8>>, name: Seq<u8>, k: int)
    requires
        0 <= k <= hdr.len(),
        forall|i: int| 0 <= i < k ==> hdr[i] != name,
        k < hdr.len() ==> hdr[k] == name,
    ensures
        col_index(hdr, name) == k,
    decreases hdr.len(),
{
    if k > 0 {
        lemma_col_index_at(hdr.drop_first(), name, k - 1);
    }
}

/// Finds the first header field carrying the given name, by linear scan.
#[verifier::loop_isolation(false)]
fn find_col(hdr: &Vec<Vec<u8>>, name: &[u8]) -> (i: usize)
    ensures
        i == col_index(hdr.deep_view(), name@),
        i <= hdr.len(),
{
    let mut i: usize = 0;
    while i < hdr.len()
        invariant
            0 <= i <= hdr.len(),
            forall|j: int| 0 <= j < i ==> hdr.deep_view()[j] != name@,
        decreases hdr.len() - i,
    {
        proof {
            assert(hdr.deep_view()[i as int] =~= hdr[i as int]@);
        }
        if crate::bytes_eq(hdr[i].as_slice(), name) {
            proof {
                lemma_col_index_at(hdr.deep_view(), name@, i as int);
            }
            return i;
        }
        i += 1;
    }
    proof {
        lemma_col_index_at(hdr.deep_view(), name@, hdr.len() as int);
    }
    i
}

/// A data row decodes when it is as wide as the header and its `Amount` cell
/// denotes a value in the signed 64-bit range.
pub open spec fn row_ok(row: Seq<Seq<u8>>, w: int, ia: int) -> bool {
    row.len() == w && valid_amount(row[ia]) && amount_fits(row[ia])
}

/// The entry a data row decodes to: the parsed amount, and the `User ID` and
/// `User Email` cells verbatim.
pub open spec fn row_entry(row: Seq<Seq<u8>>, ia: int, iid: int, iem: int) -> EntryV {
    EntryV { amount: amount_of(row[ia]), account_id: row[iid], email: row[iem] }
}

/// Index of the first data row that does not decode, or the length when all
/// do.
pub open spec fn first_bad(rows: Seq<Seq<Seq<u8>>>, w: int, ia: int) -> int
    decreases rows.len(),
{
    if rows.len() == 0 {
        0
    } else if !row_ok(rows[0], w, ia) {
        0
    } else {
        1 + first_bad(rows.drop_first(), w, ia)
    }
}

/// `first_bad` points at `k` when every row before `k` decodes and either
/// `k` is the length or the row at `k` does not.
proof fn lemma_first_bad_at(rows: Seq<Seq<Seq<u8>>>, w: int, ia: int, k: int)
    requires
        0 <= k <= rows.len(),
        forall|i: int| 0 <= i < k ==> row_ok(rows[i], w, ia),
        k < rows.len() ==> !row_ok(rows[k], w, ia),
    ensures
        first_bad(rows, w, ia) == k,
    decreases rows.len(),
{
    if k > 0 {
        lemma_first_bad_at(rows.drop_first(), w, ia, k - 1);
    }
}

/// The entries of data rows that all decode.
pub open spec fn entries_of(rows: Seq<Seq<Seq<u8>>>, ia: int, iid: int, iem: int) -> Seq<EntryV> {
    Seq::new(rows.len(), |i: int| row_entry(rows[i], ia, iid, iem))
}

/// What a run computes from an input text.
pub enum OutcomeV {
    /// The bytes of the summary CSV.
    Output(Seq<u8>),
    /// The first failure, under the fail-fast policy.
    Fail(ErrorV),
}

/// The outcome of the pipeline on an input text: its records are scanned;
/// an input with no data row yields the bare header; otherwise the three
/// required columns are located in the first record (first occurrence wins),
/// every data row is decoded fail-fast, the entries are aggregated per
/// account, and the summary is rendered.
pub open spec fn process_spec(s: Seq<u8>) -> OutcomeV {
    let rows = records(s);
    if rows.len() <= 1 {
        OutcomeV::Output(output_bytes(Seq::empty()))
    } else {
        let hdr = rows[0];
        let w = hdr.len() as int;
        let ia = col_index(hdr, amount_name());
        let iid = col_index(hdr, user_id_name());
        let iem = col_index(hdr, user_email_name());
        if ia >= w {
            OutcomeV::Fail(ErrorV::MissingColumnV(amount_name()))
        } else if iid >= w {
            OutcomeV::Fail(ErrorV::MissingColumnV(user_id_name()))
        } else if iem >= w {
            OutcomeV::Fail(ErrorV::MissingColumnV(user_email_name()))
        } else {
            let data = rows.drop_first();
            let fb = first_bad(data, w, ia);
            if fb < data.len() {
                if data[fb].len() != w {
                    OutcomeV::Fail(ErrorV::DecodeErrorV(ragged_msg()))
                } else {
                    OutcomeV::Fail(ErrorV::MalformedAmountV(data[fb][ia]))
                }
            } else {
                OutcomeV::Output(output_bytes(summary_of(entries_of(data, ia, iid, iem))))
            }
        }
    }
}

/// Runs the whole pipeline on an input text: scans the records, locates the
/// required columns, decodes every data row fail-fast, aggregates the
/// entries per account, and renders the summary CSV.
#[verifier::loop_isolation(false)]
#[verifier::rlimit(60)]
pub fn process(input: &[u8]) -> (r: Result<Vec<u8>, Error>)
    ensures
        match r {
            Ok(out) => process_spec(input@) == OutcomeV::Output(out@),
            Err(e) => process_spec(input@) == OutcomeV::Fail(e@),
        },
{
    let rows = scan_records(input);
    if rows.len() <= 1 {
        let sum: Vec<AccountFees> = Vec::new();
        proof {
            assert(sum.deep_view() =~~= Seq::<crate::fees::AccountFeesV>::empty());
        }
        let out = render_summary(&sum);
        return Ok(out);
    }
    let hdr = &rows[0];
    let w = hdr.len();
    let ia = find_col(hdr, "Amount".as_bytes());
    if ia == w {
        return Err(Error::MissingColumn(vstd::string::StrSliceExecFns::as_bytes_vec("Amount")));
    }
    let iid = find_col(hdr, "User ID".as_bytes());
    if iid == w {
        return Err(Error::MissingColumn(vstd::string::StrSliceExecFns::as_bytes_vec("User ID")));
    }
    let iem = find_col(hdr, "User Email".as_bytes());
    if iem == w {
        return Err(
            Error::MissingColumn(vstd::string::StrSliceExecFns::as_bytes_vec("User Email")),
        );
    }
    let ghost data = rows.deep_view().drop_first();
    let mut entries: Vec<Entry> = Vec::new();
    proof {
        assert(entries.deep_view() =~~= entries_of(data.take(0), ia as int, iid as int, iem as int));
    }
    let mut ri: usize = 1;
    while ri < rows.len()
        invariant
            1 <= ri <= rows.len(),
            forall|i: int| 0 <= i < ri - 1 ==> row_ok(data[i], w as int, ia as int),
            entries.deep_view() == entries_of(data.take(ri - 1), ia as int, iid as int, iem as int),
        decreases rows.len() - ri,
    {
        let row = &rows[ri];
        proof {
            assert(row.deep_view() == data[ri - 1]);
        }
        if row.len() != w {
            proof {
                lemma_first_bad_at(data, w as int, ia as int, ri - 1);
            }
            return Err(
                Error::DecodeError(
                    vstd::string::StrSliceExecFns::as_bytes_vec("row length differs from header"),
                ),
            );
        }
        proof {
            assert(data[ri - 1][ia as int] =~= row[ia as int]@);
            assert(data[ri - 1][iid as int] =~= row[iid as int]@);
            assert(data[ri - 1][iem as int] =~= row[iem as int]@);
        }
        let cell: &Vec<u8> = &row[ia];
        match parse_amount(cell.as_slice()) {
            Err(e) => {
                proof {
                    lemma_first_bad_at(data, w as int, ia as int, ri - 1);
                }
                return Err(e);
            },
            Ok(v) => {
                let account_id = vstd::slice::slice_to_vec(row[iid].as_slice());
                let email = vstd::slice::slice_to_vec(row[iem].as_slice());
                entries.push(Entry { amount: v, account_id, email });
                proof {
                    let lhs = entries.deep_view();
                    let rhs = entries_of(data.take(ri as int), ia as int, iid as int, iem as int);
                    assert(lhs.len() == rhs.len());
                    assert(lhs[ri - 1] =~~= rhs[ri - 1]);
                    assert forall|i: int| 0 <= i < ri - 1 implies lhs[i] == rhs[i] by {
                        assert(lhs[i] == entries_of(
                            data.take(ri - 1),
                            ia as int,
                            iid as int,
                            iem as int,
                        )[i]);
                        assert(data.take(ri - 1)[i] == data.take(ri as int)[i]);
                    }
                    assert(lhs =~= rhs);
                }
            },
        }
        ri += 1;
    }
    proof {
        lemma_first_bad_at(data, w as int, ia as int, data.len() as int);
        assert(data.take(data.len() as int) =~~= data);
    }
    let sum = aggregate(&entries);
    let out = render_summary(&sum);
    Ok(out)
}

/// Running the pipeline twice on the same input computes the same outcome.
pub proof fn lemma_process_deterministic(s: Seq<u8>, r1: OutcomeV, r2: OutcomeV)
    requires
        r1 == process_spec(s),
        r2 == process_spec(s),
    ensures
        r1 == r2,
{
}

/// An input with no data row (empty, or a header only) yields exactly the
/// header line.
pub proof fn lemma_header_only(s: Seq<u8>)
    requires
        records(s).len() <= 1,
    ensures
        process_spec(s) == OutcomeV::Output(
            crate::render::header_bytes() + seq![crate::LF],
        ),
{
    assert(output_bytes(Seq::empty()) =~= crate::render::header_bytes() + seq![crate::LF]);
}

} // verus!
