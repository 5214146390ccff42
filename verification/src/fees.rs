use vstd::prelude::*;

verus! {

/// One decoded input row, in mathematical form.
#[verifier::ext_equal]
pub struct EntryV {
    pub amount: int,
    pub account_id: Seq<u8>,
    pub email: Seq<u8>,
}

/// One decoded input row: the fee in minor units, the account key taken from
/// `User ID`, and the e-mail taken from `User Email`, both verbatim.
pub struct Entry {
    pub amount: i64,
    pub account_id: Vec<u8>,
    pub email: Vec<u8>,
}

impl View for Entry {
    type V = EntryV;

    open spec fn view(&self) -> EntryV {
        EntryV { amount: self.amount as int, account_id: self.account_id@, email: self.email@ }
    }
}

impl DeepView for Entry {
    type V = EntryV;

    open spec fn deep_view(&self) -> EntryV {
        self.view()
    }
}

/// A per-account accumulator, in mathematical form.
#[verifier::ext_equal]
pub struct AccountFeesV {
    pub account_id: Seq<u8>,
    pub email: Seq<u8>,
    pub transaction_count: nat,
    pub total_fees: int,
}

/// A per-account running total: the stable key, the e-mail seen first, the
/// number of merged entries, and the sum of their amounts in minor units.
pub struct AccountFees {
    pub account_id: Vec<u8>,
    pub email: Vec<u8>,
    pub transaction_count: u32,
    pub total_fees: i64,
}

impl View for AccountFees {
    type V = AccountFeesV;

    open spec fn view(&self) -> AccountFeesV {
        AccountFeesV {
            account_id: self.account_id@,
            email: self.email@,
            transaction_count: self.transaction_count as nat,
            total_fees: self.total_fees as int,
        }
    }
}

impl DeepView for AccountFees {
    type V = AccountFeesV;

    open spec fn deep_view(&self) -> AccountFeesV {
        self.view()
    }
}

impl AccountFees {
    /// A fresh accumulator for an account: counts and totals start at zero.
    pub fn new(account_id: &[u8], email: &[u8]) -> (r: Self)
        ensures
            r@ == (AccountFeesV {
                account_id: account_id@,
                email: email@,
                transaction_count: 0,
                total_fees: 0,
            }),
    {
        Self {
            account_id: vstd::slice::slice_to_vec(account_id),
            email: vstd::slice::slice_to_vec(email),
            transaction_count: 0,
            total_fees: 0,
        }
    }

    /// Merges one fee: the count rises by one and the amount joins the total.
    pub fn add_fee(&mut self, fee: i64)
        requires
            old(self).transaction_count < u32::MAX,
            i64::MIN <= old(self).total_fees + fee <= i64::MAX,
        ensures
            final(self)@ == (AccountFeesV {
                transaction_count: old(self)@.transaction_count + 1,
                total_fees: old(self)@.total_fees + fee,
                ..old(self)@
            }),
    {
        self.transaction_count = self.transaction_count + 1;
        self.total_fees = self.total_fees + fee;
    }

    /// The header line of the summary CSV, without the line terminator.
    pub fn csv_header() -> (r: &'static str)
        ensures
            r@ == "account_id,email,transaction_count,total_fees_eur"@,
    {
        "account_id,email,transaction_count,total_fees_eur"
    }
}

/// The successor of a transaction count, saturating at the unsigned 32-bit
/// bound.
pub open spec fn sat_inc(c: nat) -> nat {
    if c < u32::MAX {
        c + 1
    } else {
        c
    }
}

/// A sum of fees, saturating at the signed 64-bit bounds.
pub open spec fn sat_add(t: int, a: int) -> int {
    if t + a > i64::MAX {
        i64::MAX as int
    } else if t + a < i64::MIN {
        i64::MIN as int
    } else {
        t + a
    }
}

/// Index of the accumulator that carries the given key, or the length when
/// none does.
pub open spec fn key_index(sum: Seq<AccountFeesV>, k: Seq<u8>) -> int
    decreases sum.len(),
{
    if sum.len() == 0 {
        0
    } else if sum[0].account_id == k {
        0
    } else {
        1 + key_index(sum.drop_first(), k)
    }
}

/// Folds one entry into a summary: a first sighting appends a fresh
/// accumulator seeded with the entry's key and e-mail; a later sighting
/// leaves both untouched and merges count and amount, saturating.
pub open spec fn merge_entry(sum: Seq<AccountFeesV>, e: EntryV) -> Seq<AccountFeesV> {
    let i = key_index(sum, e.account_id);
    if i < sum.len() {
        sum.update(
            i,
            AccountFeesV {
                transaction_count: sat_inc(sum[i].transaction_count),
                total_fees: sat_add(sum[i].total_fees, e.amount),
                ..sum[i]
            },
        )
    } else {
        sum.push(
            AccountFeesV {
                account_id: e.account_id,
                email: e.email,
                transaction_count: 1,
                total_fees: e.amount,
            },
        )
    }
}

/// The summary of an entry stream: one accumulator per distinct account key,
/// in order of first sighting.
pub open spec fn summary_of(entries: Seq<EntryV>) -> Seq<AccountFeesV>
    decreases entries.len(),
{
    if entries.len() == 0 {
        Seq::empty()
    } else {
        merge_entry(summary_of(entries.drop_last()), entries.last())
    }
}

/// `key_index` points at `j` when no key before `j` matches and either `j`
/// is the length or the key at `j` matches.
proof fn lemma_key_index_at(sum: Seq<AccountFeesV>, k: Seq<u8>, j: int)
    requires
        0 <= j <= sum.len(),
        forall|i: int| 0 <= i < j ==> sum[i].account_id != k,
        j < sum.len() ==> sum[j].account_id == k,
    ensures
        key_index(sum, k) == j,
    decreases sum.len(),
{
    if j > 0 {
        lemma_key_index_at(sum.drop_first(), k, j - 1);
    }
}

/// Finds the accumulator carrying the given key, by linear scan.
#[verifier::loop_isolation(false)]
fn find_account(sum: &Vec<AccountFees>, key: &[u8]) -> (i: usize)
    ensures
        i == key_index(sum.deep_view(), key@),
        i <= sum.len(),
{
    let mut i: usize = 0;
    while i < sum.len()
        invariant
            0 <= i <= sum.len(),
            forall|j: int| 0 <= j < i ==> sum.deep_view()[j].account_id != key@,
        decreases sum.len() - i,
    {
        if crate::bytes_eq(sum[i].account_id.as_slice(), key) {
            proof {
                lemma_key_index_at(sum.deep_view(), key@, i as int);
            }
            return i;
        }
        i += 1;
    }
    proof {
        lemma_key_index_at(sum.deep_view(), key@, sum.len() as int);
    }
    i
}

/// Accumulates the entries into per-account totals, in order of first
/// sighting. Counts and totals saturate at their type bounds.
#[verifier::loop_isolation(false)]
#[verifier::rlimit(60)]
pub fn aggregate(entries: &Vec<Entry>) -> (sum: Vec<AccountFees>)
    ensures
        sum.deep_view() == summary_of(entries.deep_view()),
{
    let mut sum: Vec<AccountFees> = Vec::new();
    proof {
        assert(sum.deep_view() =~~= Seq::<AccountFeesV>::empty());
        assert(entries.deep_view().take(0) =~~= Seq::<EntryV>::empty());
    }
    let mut i: usize = 0;
    while i < entries.len()
        invariant
            0 <= i <= entries.len(),
            sum.deep_view() == summary_of(entries.deep_view().take(i as int)),
        decreases entries.len() - i,
    {
        let ghost sum0 = sum.deep_view();
        let e = &entries[i];
        let idx = find_account(&sum, e.account_id.as_slice());
        if idx < sum.len() {
            let mut acc = sum.remove(idx);
            let ghost acc0 = acc@;
            acc.transaction_count = if acc.transaction_count < u32::MAX {
                acc.transaction_count + 1
            } else {
                acc.transaction_count
            };
            acc.total_fees = match acc.total_fees.checked_add(e.amount) {
                Some(t) => t,
                None => {
                    if e.amount >= 0 {
                        i64::MAX
                    } else {
                        i64::MIN
                    }
                },
            };
            proof {
                assert(acc@ == (AccountFeesV {
                    transaction_count: sat_inc(acc0.transaction_count),
                    total_fees: sat_add(acc0.total_fees, e@.amount),
                    ..acc0
                }));
            }
            sum.insert(idx, acc);
            proof {
                assert(sum.deep_view() =~~= merge_entry(sum0, e@));
            }
        } else {
            let mut acc = AccountFees::new(e.account_id.as_slice(), e.email.as_slice());
            acc.add_fee(e.amount);
            sum.push(acc);
            proof {
                assert(sum.deep_view() =~~= merge_entry(sum0, e@));
            }
        }
        proof {
            assert(entries.deep_view().take(i + 1).drop_last() =~~= entries.deep_view().take(
                i as int,
            ));
            assert(entries.deep_view().take(i + 1).last() == e.deep_view());
            assert(sum.deep_view() == summary_of(entries.deep_view().take(i + 1)));
        }
        i += 1;
    }
    proof {
        assert(entries.deep_view().take(entries.len() as int) =~~= entries.deep_view());
    }
    sum
}

/// Number of entries carrying the given account key.
pub open spec fn count_for(es: Seq<EntryV>, k: Seq<u8>) -> nat
    decreases es.len(),
{
    if es.len() == 0 {
        0
    } else {
        count_for(es.drop_last(), k) + if es.last().account_id == k {
            1nat
        } else {
            0nat
        }
    }
}

/// Sum of the amounts of the entries carrying the given account key.
pub open spec fn total_for(es: Seq<EntryV>, k: Seq<u8>) -> int
    decreases es.len(),
{
    if es.len() == 0 {
        0
    } else {
        total_for(es.drop_last(), k) + if es.last().account_id == k {
            es.last().amount
        } else {
            0
        }
    }
}

/// Sum of the amounts of all entries.
pub open spec fn sum_amounts(es: Seq<EntryV>) -> int
    decreases es.len(),
{
    if es.len() == 0 {
        0
    } else {
        sum_amounts(es.drop_last()) + es.last().amount
    }
}

/// Sum of the accumulators' totals.
pub open spec fn sum_totals(sum: Seq<AccountFeesV>) -> int
    decreases sum.len(),
{
    if sum.len() == 0 {
        0
    } else {
        sum_totals(sum.drop_last()) + sum.last().total_fees
    }
}

/// The e-mail of the first entry carrying the given account key.
pub open spec fn first_email(es: Seq<EntryV>, k: Seq<u8>) -> Seq<u8>
    decreases es.len(),
{
    if es.len() == 0 {
        Seq::empty()
    } else if es[0].account_id == k {
        es[0].email
    } else {
        first_email(es.drop_first(), k)
    }
}

/// A transaction count clipped to the unsigned 32-bit bound.
pub open spec fn clip_count(n: nat) -> nat {
    if n > u32::MAX {
        u32::MAX as nat
    } else {
        n
    }
}

/// A key is counted exactly when some entry carries it.
proof fn lemma_count_pos(es: Seq<EntryV>, k: Seq<u8>)
    ensures
        count_for(es, k) > 0 <==> exists|i: int| 0 <= i < es.len() && es[i].account_id == k,
    decreases es.len(),
{
    if es.len() > 0 {
        let des = es.drop_last();
        lemma_count_pos(des, k);
        if count_for(es, k) > 0 {
            if es.last().account_id == k {
                assert(es[es.len() - 1].account_id == k);
            } else {
                let i = choose|i: int| 0 <= i < des.len() && des[i].account_id == k;
                assert(es[i].account_id == k);
            }
        }
        if exists|i: int| 0 <= i < es.len() && es[i].account_id == k {
            let i = choose|i: int| 0 <= i < es.len() && es[i].account_id == k;
            if i < es.len() - 1 {
                assert(des[i].account_id == k);
            }
        }
    }
}

/// A key carried by no entry contributes no total.
proof fn lemma_total_zero(es: Seq<EntryV>, k: Seq<u8>)
    requires
        count_for(es, k) == 0,
    ensures
        total_for(es, k) == 0,
    decreases es.len(),
{
    if es.len() > 0 {
        lemma_total_zero(es.drop_last(), k);
    }
}

/// Appending an entry keeps the first e-mail of keys already seen, and sets
/// it for a key first carried by the appended entry.
proof fn lemma_first_email_snoc(es: Seq<EntryV>, e: EntryV, k: Seq<u8>)
    ensures
        (exists|i: int| 0 <= i < es.len() && es[i].account_id == k) ==> first_email(es.push(e), k)
            == first_email(es, k),
        (!exists|i: int| 0 <= i < es.len() && es[i].account_id == k) && e.account_id == k
            ==> first_email(es.push(e), k) == e.email,
    decreases es.len(),
{
    if es.len() == 0 {
        assert(es.push(e)[0] == e);
        assert(es.push(e).drop_first() =~= Seq::<EntryV>::empty());
    } else {
        lemma_first_email_snoc(es.drop_first(), e, k);
        assert(es.push(e).drop_first() =~= es.drop_first().push(e));
        assert(es.push(e)[0] == es[0]);
        if es[0].account_id != k {
            if exists|i: int| 0 <= i < es.len() && es[i].account_id == k {
                let i = choose|i: int| 0 <= i < es.len() && es[i].account_id == k;
                assert(i > 0 && es.drop_first()[i - 1].account_id == k);
            }
            if exists|i: int|
                0 <= i < es.drop_first().len() && es.drop_first()[i].account_id == k {
                let i = choose|i: int|
                    0 <= i < es.drop_first().len() && es.drop_first()[i].account_id == k;
                assert(es[i + 1].account_id == k);
            }
        }
    }
}

/// What `key_index` returns: the first accumulator with the key, or the
/// length when none carries it.
proof fn lemma_key_index_bounds(sum: Seq<AccountFeesV>, k: Seq<u8>)
    ensures
        0 <= key_index(sum, k) <= sum.len(),
        key_index(sum, k) < sum.len() ==> sum[key_index(sum, k)].account_id == k,
        forall|i: int| 0 <= i < key_index(sum, k) ==> sum[i].account_id != k,
    decreases sum.len(),
{
    if sum.len() > 0 && sum[0].account_id != k {
        lemma_key_index_bounds(sum.drop_first(), k);
        let ki = key_index(sum, k);
        if ki < sum.len() {
            assert(sum[ki] == sum.drop_first()[ki - 1]);
        }
        assert forall|i: int| 0 <= i < ki implies sum[i].account_id != k by {
            if i > 0 {
                assert(sum.drop_first()[i - 1] == sum[i]);
            }
        }
    }
}

/// Updating one accumulator moves the sum of totals by the difference.
proof fn lemma_sum_totals_update(sum: Seq<AccountFeesV>, i: int, a: AccountFeesV)
    requires
        0 <= i < sum.len(),
    ensures
        sum_totals(sum.update(i, a)) == sum_totals(sum) - sum[i].total_fees + a.total_fees,
    decreases sum.len(),
{
    if i == sum.len() - 1 {
        assert(sum.update(i, a).drop_last() =~= sum.drop_last());
    } else {
        assert(sum.update(i, a).drop_last() =~= sum.drop_last().update(i, a));
        lemma_sum_totals_update(sum.drop_last(), i, a);
    }
}

/// The shape of every summary: no account key stands twice; a key has an
/// accumulator exactly when some entry carries it; each accumulator's count
/// is the number of entries carrying its key, clipped to the 32-bit bound,
/// and its e-mail is the one of the first such entry (first-writer-wins).
pub proof fn lemma_summary_structure(es: Seq<EntryV>)
    ensures
        forall|i: int, j: int| 0 <= i < j < summary_of(es).len() ==> summary_of(es)[i].account_id
            != summary_of(es)[j].account_id,
        forall|k: Seq<u8>|
            (#[trigger] count_for(es, k) > 0 <==> exists|i: int|
                0 <= i < summary_of(es).len() && summary_of(es)[i].account_id == k),
        forall|i: int|
            0 <= i < summary_of(es).len() ==> (#[trigger] summary_of(es)[i]).transaction_count
                == clip_count(count_for(es, summary_of(es)[i].account_id)),
        forall|i: int|
            0 <= i < summary_of(es).len() ==> (#[trigger] summary_of(es)[i]).email == first_email(
                es,
                summary_of(es)[i].account_id,
            ),
    decreases es.len(),
{
    if es.len() > 0 {
        let des = es.drop_last();
        let e = es.last();
        lemma_summary_structure(des);
        let s0 = summary_of(des);
        let s1 = summary_of(es);
        lemma_key_index_bounds(s0, e.account_id);
        let i0 = key_index(s0, e.account_id);
        assert(es =~= des.push(e));
        assert forall|k: Seq<u8>| #[trigger]
            count_for(es, k) > 0 implies exists|i: int|
            0 <= i < s1.len() && s1[i].account_id == k by {
            if e.account_id == k {
                if i0 < s0.len() {
                    assert(s1[i0].account_id == k);
                } else {
                    assert(s1[s1.len() - 1].account_id == k);
                }
            } else {
                assert(count_for(es, k) == count_for(des, k));
                let i = choose|i: int| 0 <= i < s0.len() && s0[i].account_id == k;
                assert(s1[i].account_id == k);
            }
        }
        assert forall|k: Seq<u8>|
            (exists|i: int| 0 <= i < s1.len() && s1[i].account_id == k) implies #[trigger]
            count_for(es, k) > 0 by {
            let i = choose|i: int| 0 <= i < s1.len() && s1[i].account_id == k;
            if i < s0.len() {
                assert(s1[i].account_id == s0[i].account_id);
                assert(count_for(des, k) > 0);
            } else {
                assert(s1[i].account_id == e.account_id);
            }
        }
        assert forall|i: int| 0 <= i < s1.len() implies (#[trigger] s1[i]).transaction_count
            == clip_count(count_for(es, s1[i].account_id)) && s1[i].email == first_email(
            es,
            s1[i].account_id,
        ) by {
            lemma_count_pos(des, s1[i].account_id);
            lemma_first_email_snoc(des, e, s1[i].account_id);
            if i0 < s0.len() {
                // An already-seen key was merged in place.
                if i == i0 {
                    assert(s1[i].account_id == e.account_id);
                    assert(count_for(es, e.account_id) == count_for(des, e.account_id) + 1);
                } else {
                    assert(s1[i] == s0[i]);
                    assert(s0[i].account_id != e.account_id);
                    assert(count_for(es, s1[i].account_id) == count_for(des, s1[i].account_id));
                }
            } else {
                // A fresh key was appended.
                if i < s0.len() {
                    assert(s1[i] == s0[i]);
                    assert(s0[i].account_id != e.account_id);
                    assert(count_for(es, s1[i].account_id) == count_for(des, s1[i].account_id));
                } else {
                    assert(s1[i].account_id == e.account_id);
                    assert(count_for(des, e.account_id) == 0);
                    assert(count_for(es, e.account_id) == 1);
                }
            }
        }
    }
}

/// When no count and no running total leaves its machine range, each
/// accumulator's total is exactly the sum of its key's amounts, and the
/// totals of the summary sum to the amounts of the stream.
pub proof fn lemma_summary_totals(es: Seq<EntryV>)
    requires
        forall|i: int, k: Seq<u8>|
            0 <= i <= es.len() ==> i64::MIN <= #[trigger] total_for(es.take(i), k) <= i64::MAX,
    ensures
        forall|i: int|
            0 <= i < summary_of(es).len() ==> (#[trigger] summary_of(es)[i]).total_fees
                == total_for(es, summary_of(es)[i].account_id),
        sum_totals(summary_of(es)) == sum_amounts(es),
    decreases es.len(),
{
    if es.len() > 0 {
        let des = es.drop_last();
        let e = es.last();
        assert forall|i: int, k: Seq<u8>|
            0 <= i <= des.len() implies i64::MIN <= #[trigger] total_for(des.take(i), k)
            <= i64::MAX by {
            assert(des.take(i) =~= es.take(i));
        }
        lemma_summary_totals(des);
        lemma_summary_structure(des);
        let s0 = summary_of(des);
        let s1 = summary_of(es);
        lemma_key_index_bounds(s0, e.account_id);
        let i0 = key_index(s0, e.account_id);
        assert(es.take(es.len() as int) =~= es);
        assert(es.take(des.len() as int) =~= des);
        if i0 < s0.len() {
            // An already-seen key: the new total stays in range, so the
            // saturating sum is the exact one.
            assert(s0[i0].total_fees == total_for(des, e.account_id));
            assert(total_for(es, e.account_id) == total_for(des, e.account_id) + e.amount);
            assert(i64::MIN <= total_for(es, e.account_id) <= i64::MAX);
            assert(i64::MIN <= total_for(des, e.account_id) <= i64::MAX);
            lemma_sum_totals_update(s0, i0, s1[i0]);
            assert forall|i: int| 0 <= i < s1.len() implies (#[trigger] s1[i]).total_fees
                == total_for(es, s1[i].account_id) by {
                if i != i0 {
                    assert(s1[i] == s0[i]);
                    assert(s0[i].account_id != e.account_id);
                    assert(total_for(es, s1[i].account_id) == total_for(des, s1[i].account_id));
                }
            }
        } else {
            // A fresh key: its total starts at the entry's amount.
            lemma_count_pos(des, e.account_id);
            if count_for(des, e.account_id) > 0 {
                let j = choose|j: int| 0 <= j < s0.len() && s0[j].account_id == e.account_id;
                assert(false);
            }
            lemma_total_zero(des, e.account_id);
            assert forall|i: int| 0 <= i < s1.len() implies (#[trigger] s1[i]).total_fees
                == total_for(es, s1[i].account_id) by {
                if i < s0.len() {
                    assert(s1[i] == s0[i]);
                    assert(s0[i].account_id != e.account_id);
                    assert(total_for(es, s1[i].account_id) == total_for(des, s1[i].account_id));
                } else {
                    assert(s1[i].account_id == e.account_id);
                    assert(total_for(es, e.account_id) == e.amount);
                }
            }
            assert(s1.drop_last() =~= s0);
        }
    }
}


/// For every account key that some entry carries, when the number of such
/// entries fits the unsigned 32-bit range, the summary's transaction count
/// for that key is exactly that number.
pub proof fn lemma_transaction_count_exact(es: Seq<EntryV>, k: Seq<u8>)
    requires
        count_for(es, k) > 0,
        count_for(es, k) <= u32::MAX,
    ensures
        ({
            let s = summary_of(es);
            let i = key_index(s, k);
            0 <= i < s.len() && s[i].account_id == k && s[i].transaction_count == count_for(es, k)
        }),
{
    lemma_summary_structure(es);
    let s = summary_of(es);
    lemma_key_index_bounds(s, k);
    if key_index(s, k) >= s.len() {
        let i = choose|i: int| 0 <= i < s.len() && s[i].account_id == k;
        assert(false);
    }
}

/// For every account key that some entry carries, the summary records the
/// e-mail of the first entry carrying it: later entries never overwrite it.
pub proof fn lemma_email_first_sighting(es: Seq<EntryV>, k: Seq<u8>)
    requires
        count_for(es, k) > 0,
    ensures
        ({
            let s = summary_of(es);
            let i = key_index(s, k);
            0 <= i < s.len() && s[i].account_id == k && s[i].email == first_email(es, k)
        }),
{
    lemma_summary_structure(es);
    let s = summary_of(es);
    lemma_key_index_bounds(s, k);
    if key_index(s, k) >= s.len() {
        let i = choose|i: int| 0 <= i < s.len() && s[i].account_id == k;
        assert(false);
    }
}

} // verus!
