use vstd::prelude::*;

use crate::order::{
    lex_le, lex_lt, lemma_lex_le_trans, lemma_lex_lt_asymm, lemma_lex_lt_le_trans, str_lt,
};
use crate::types::{
    BalanceSnapshot, BalanceSnapshotView, FinanceData, FinanceDataView, Job, JobView,
    NewBalanceSnapshot, NewBalanceSnapshotView, NewWorkLog, NewWorkLogView, WorkLog, WorkLogView,
};

verus! {

// ---------------------------------------------------------------------------
// The fixed job catalog
// ---------------------------------------------------------------------------

pub open spec fn fixed_jobs() -> Seq<JobView> {
    seq![
        JobView { id: "alborn"@, name: "Alborn"@ },
        JobView { id: "museum"@, name: "Museum"@ },
    ]
}

pub fn make_fixed_jobs() -> (r: Vec<Job>)
    ensures
        r.deep_view() == fixed_jobs(),
{
    let mut v: Vec<Job> = Vec::new();
    v.push(Job { id: String::from_str("alborn"), name: String::from_str("Alborn") });
    v.push(Job { id: String::from_str("museum"), name: String::from_str("Museum") });
    proof {
        assert(v.deep_view() =~= fixed_jobs());
    }
    v
}

// ---------------------------------------------------------------------------
// Well-formedness of the collections
// ---------------------------------------------------------------------------

pub open spec fn wl_sorted(s: Seq<WorkLogView>) -> bool {
    forall|i: int, j: int|
        #![trigger s[i], s[j]]
        0 <= i < j < s.len() ==> lex_le(s[i].date, s[j].date)
}

pub open spec fn wl_ids_distinct(s: Seq<WorkLogView>) -> bool {
    forall|i: int, j: int|
        #![trigger s[i], s[j]]
        0 <= i < j < s.len() ==> s[i].id != s[j].id
}

pub open spec fn wl_ids_bounded(s: Seq<WorkLogView>, next: int) -> bool {
    forall|i: int| #![trigger s[i]] 0 <= i < s.len() ==> 1 <= s[i].id < next
}

pub open spec fn bs_sorted(s: Seq<BalanceSnapshotView>) -> bool {
    forall|i: int, j: int|
        #![trigger s[i], s[j]]
        0 <= i < j < s.len() ==> lex_le(s[i].date, s[j].date)
}

pub open spec fn bs_ids_distinct(s: Seq<BalanceSnapshotView>) -> bool {
    forall|i: int, j: int|
        #![trigger s[i], s[j]]
        0 <= i < j < s.len() ==> s[i].id != s[j].id
}

pub open spec fn bs_ids_bounded(s: Seq<BalanceSnapshotView>, next: int) -> bool {
    forall|i: int| #![trigger s[i]] 0 <= i < s.len() ==> 1 <= s[i].id < next
}

pub open spec fn bs_dates_distinct(s: Seq<BalanceSnapshotView>) -> bool {
    forall|i: int, j: int|
        #![trigger s[i], s[j]]
        0 <= i < j < s.len() ==> s[i].date != s[j].date
}

#[verifier::ext_equal]
pub ghost struct AppDataView {
    pub jobs: Seq<JobView>,
    pub work_logs: Seq<WorkLogView>,
    pub balance_snapshots: Seq<BalanceSnapshotView>,
    pub next_work_log_id: int,
    pub next_snapshot_id: int,
}

impl AppDataView {
    /// The store's invariant: it holds after construction and after every
    /// operation.
    pub open spec fn wf(self) -> bool {
        &&& self.jobs == fixed_jobs()
        &&& wl_sorted(self.work_logs)
        &&& wl_ids_distinct(self.work_logs)
        &&& wl_ids_bounded(self.work_logs, self.next_work_log_id)
        &&& 1 <= self.next_work_log_id <= i32::MAX as int + 1
        &&& bs_sorted(self.balance_snapshots)
        &&& bs_ids_distinct(self.balance_snapshots)
        &&& bs_ids_bounded(self.balance_snapshots, self.next_snapshot_id)
        &&& bs_dates_distinct(self.balance_snapshots)
        &&& 1 <= self.next_snapshot_id <= i32::MAX as int + 1
    }
}

// ---------------------------------------------------------------------------
// Positions: stable insertion point, lookup by id, lookup by date
// ---------------------------------------------------------------------------

/// The index at which a record with date `d` is inserted: after every record
/// whose date is at or below `d`, so entries with equal dates keep their
/// insertion order.
pub open spec fn wl_insert_pos(s: Seq<WorkLogView>, d: Seq<char>) -> int
    decreases s.len(),
{
    if s.len() == 0 {
        0
    } else if lex_lt(d, s[0].date) {
        0
    } else {
        1 + wl_insert_pos(s.skip(1), d)
    }
}

pub open spec fn bs_insert_pos(s: Seq<BalanceSnapshotView>, d: Seq<char>) -> int
    decreases s.len(),
{
    if s.len() == 0 {
        0
    } else if lex_lt(d, s[0].date) {
        0
    } else {
        1 + bs_insert_pos(s.skip(1), d)
    }
}

/// The index of the first record with the given id, or -1 if there is none.
pub open spec fn wl_find_id(s: Seq<WorkLogView>, id: int) -> int
    decreases s.len(),
{
    if s.len() == 0 {
        -1
    } else if s[0].id == id {
        0
    } else if wl_find_id(s.skip(1), id) < 0 {
        -1
    } else {
        1 + wl_find_id(s.skip(1), id)
    }
}

pub open spec fn bs_find_id(s: Seq<BalanceSnapshotView>, id: int) -> int
    decreases s.len(),
{
    if s.len() == 0 {
        -1
    } else if s[0].id == id {
        0
    } else if bs_find_id(s.skip(1), id) < 0 {
        -1
    } else {
        1 + bs_find_id(s.skip(1), id)
    }
}

/// The index of the first snapshot with the given date, or -1 if there is none.
pub open spec fn bs_find_date(s: Seq<BalanceSnapshotView>, d: Seq<char>) -> int
    decreases s.len(),
{
    if s.len() == 0 {
        -1
    } else if s[0].date == d {
        0
    } else if bs_find_date(s.skip(1), d) < 0 {
        -1
    } else {
        1 + bs_find_date(s.skip(1), d)
    }
}

pub proof fn lemma_wl_insert_pos_props(s: Seq<WorkLogView>, d: Seq<char>)
    ensures
        0 <= wl_insert_pos(s, d) <= s.len(),
        forall|j: int| #![trigger s[j]] 0 <= j < wl_insert_pos(s, d) ==> !lex_lt(d, s[j].date),
        wl_insert_pos(s, d) < s.len() ==> lex_lt(d, s[wl_insert_pos(s, d)].date),
    decreases s.len(),
{
    if s.len() == 0 {
    } else if lex_lt(d, s[0].date) {
    } else {
        lemma_wl_insert_pos_props(s.skip(1), d);
        let p = wl_insert_pos(s, d);
        assert forall|j: int| 0 <= j < p implies !lex_lt(d, s[j].date) by {
            if j > 0 {
                assert(s[j] == s.skip(1)[j - 1]);
            }
        }
        if p < s.len() {
            assert(s[p] == s.skip(1)[p - 1]);
        }
    }
}

pub proof fn lemma_wl_insert_pos_unique(s: Seq<WorkLogView>, d: Seq<char>, k: int)
    requires
        0 <= k <= s.len(),
        forall|j: int| #![trigger s[j]] 0 <= j < k ==> !lex_lt(d, s[j].date),
        k < s.len() ==> lex_lt(d, s[k].date),
    ensures
        k == wl_insert_pos(s, d),
{
    let p = wl_insert_pos(s, d);
    lemma_wl_insert_pos_props(s, d);
    if k < p {
        assert(!lex_lt(d, s[k].date));
        assert(false);
    } else if p < k {
        assert(!lex_lt(d, s[p].date));
        assert(false);
    }
}

pub proof fn lemma_bs_insert_pos_props(s: Seq<BalanceSnapshotView>, d: Seq<char>)
    ensures
        0 <= bs_insert_pos(s, d) <= s.len(),
        forall|j: int| #![trigger s[j]] 0 <= j < bs_insert_pos(s, d) ==> !lex_lt(d, s[j].date),
        bs_insert_pos(s, d) < s.len() ==> lex_lt(d, s[bs_insert_pos(s, d)].date),
    decreases s.len(),
{
    if s.len() == 0 {
    } else if lex_lt(d, s[0].date) {
    } else {
        lemma_bs_insert_pos_props(s.skip(1), d);
        let p = bs_insert_pos(s, d);
        assert forall|j: int| 0 <= j < p implies !lex_lt(d, s[j].date) by {
            if j > 0 {
                assert(s[j] == s.skip(1)[j - 1]);
            }
        }
        if p < s.len() {
            assert(s[p] == s.skip(1)[p - 1]);
        }
    }
}

pub proof fn lemma_bs_insert_pos_unique(s: Seq<BalanceSnapshotView>, d: Seq<char>, k: int)
    requires
        0 <= k <= s.len(),
        forall|j: int| #![trigger s[j]] 0 <= j < k ==> !lex_lt(d, s[j].date),
        k < s.len() ==> lex_lt(d, s[k].date),
    ensures
        k == bs_insert_pos(s, d),
{
    let p = bs_insert_pos(s, d);
    lemma_bs_insert_pos_props(s, d);
    if k < p {
        assert(!lex_lt(d, s[k].date));
        assert(false);
    } else if p < k {
        assert(!lex_lt(d, s[p].date));
        assert(false);
    }
}

pub proof fn lemma_wl_find_id_props(s: Seq<WorkLogView>, id: int)
    ensures
        wl_find_id(s, id) >= 0 ==> wl_find_id(s, id) < s.len() && s[wl_find_id(s, id)].id == id,
        wl_find_id(s, id) < 0 ==> forall|j: int| #![trigger s[j]] 0 <= j < s.len() ==> s[j].id != id,
        forall|j: int| #![trigger s[j]] 0 <= j < wl_find_id(s, id) ==> s[j].id != id,
    decreases s.len(),
{
    if s.len() == 0 {
    } else if s[0].id == id {
    } else {
        lemma_wl_find_id_props(s.skip(1), id);
        assert forall|j: int| 0 < j < s.len() implies s[j] == s.skip(1)[j - 1] by {}
    }
}

pub proof fn lemma_wl_find_id_unique(s: Seq<WorkLogView>, id: int, k: int)
    requires
        0 <= k <= s.len(),
        forall|j: int| #![trigger s[j]] 0 <= j < k ==> s[j].id != id,
        k < s.len() ==> s[k].id == id,
    ensures
        k < s.len() ==> k == wl_find_id(s, id),
        k == s.len() ==> wl_find_id(s, id) < 0,
{
    let p = wl_find_id(s, id);
    lemma_wl_find_id_props(s, id);
    if k < s.len() {
        if p < 0 {
            assert(false);
        } else if p < k {
            assert(s[p].id != id);
            assert(false);
        } else if k < p {
            assert(s[k].id != id);
            assert(false);
        }
    } else {
        if p >= 0 {
            assert(s[p].id != id);
            assert(false);
        }
    }
}

pub proof fn lemma_bs_find_id_props(s: Seq<BalanceSnapshotView>, id: int)
    ensures
        bs_find_id(s, id) >= 0 ==> bs_find_id(s, id) < s.len() && s[bs_find_id(s, id)].id == id,
        bs_find_id(s, id) < 0 ==> forall|j: int| #![trigger s[j]] 0 <= j < s.len() ==> s[j].id != id,
        forall|j: int| #![trigger s[j]] 0 <= j < bs_find_id(s, id) ==> s[j].id != id,
    decreases s.len(),
{
    if s.len() == 0 {
    } else if s[0].id == id {
    } else {
        lemma_bs_find_id_props(s.skip(1), id);
        assert forall|j: int| 0 < j < s.len() implies s[j] == s.skip(1)[j - 1] by {}
    }
}

pub proof fn lemma_bs_find_id_unique(s: Seq<BalanceSnapshotView>, id: int, k: int)
    requires
        0 <= k <= s.len(),
        forall|j: int| #![trigger s[j]] 0 <= j < k ==> s[j].id != id,
        k < s.len() ==> s[k].id == id,
    ensures
        k < s.len() ==> k == bs_find_id(s, id),
        k == s.len() ==> bs_find_id(s, id) < 0,
{
    let p = bs_find_id(s, id);
    lemma_bs_find_id_props(s, id);
    if k < s.len() {
        if p < 0 {
            assert(false);
        } else if p < k {
            assert(s[p].id != id);
            assert(false);
        } else if k < p {
            assert(s[k].id != id);
            assert(false);
        }
    } else {
        if p >= 0 {
            assert(s[p].id != id);
            assert(false);
        }
    }
}

pub proof fn lemma_bs_find_date_props(s: Seq<BalanceSnapshotView>, d: Seq<char>)
    ensures
        bs_find_date(s, d) >= 0 ==> bs_find_date(s, d) < s.len() && s[bs_find_date(s, d)].date
            == d,
        bs_find_date(s, d) < 0 ==> forall|j: int|
            #![trigger s[j]]
            0 <= j < s.len() ==> s[j].date != d,
        forall|j: int| #![trigger s[j]] 0 <= j < bs_find_date(s, d) ==> s[j].date != d,
    decreases s.len(),
{
    if s.len() == 0 {
    } else if s[0].date == d {
    } else {
        lemma_bs_find_date_props(s.skip(1), d);
        assert forall|j: int| 0 < j < s.len() implies s[j] == s.skip(1)[j - 1] by {}
    }
}

pub proof fn lemma_bs_find_date_unique(s: Seq<BalanceSnapshotView>, d: Seq<char>, k: int)
    requires
        0 <= k <= s.len(),
        forall|j: int| #![trigger s[j]] 0 <= j < k ==> s[j].date != d,
        k < s.len() ==> s[k].date == d,
    ensures
        k < s.len() ==> k == bs_find_date(s, d),
        k == s.len() ==> bs_find_date(s, d) < 0,
{
    let p = bs_find_date(s, d);
    lemma_bs_find_date_props(s, d);
    if k < s.len() {
        if p < 0 {
            assert(false);
        } else if p < k {
            assert(s[p].date != d);
            assert(false);
        } else if k < p {
            assert(s[k].date != d);
            assert(false);
        }
    } else {
        if p >= 0 {
            assert(s[p].date != d);
            assert(false);
        }
    }
}

// ---------------------------------------------------------------------------
// Sortedness is kept by a stable insertion
// ---------------------------------------------------------------------------

pub proof fn lemma_wl_insert_sorted(s: Seq<WorkLogView>, w: WorkLogView)
    requires
        wl_sorted(s),
    ensures
        wl_sorted(s.insert(wl_insert_pos(s, w.date), w)),
{
    let p = wl_insert_pos(s, w.date);
    lemma_wl_insert_pos_props(s, w.date);
    let t = s.insert(p, w);
    assert forall|i: int, j: int| #![trigger t[i], t[j]] 0 <= i < j < t.len() implies lex_le(t[i].date, t[j].date) by {
        if j < p {
            assert(t[i] == s[i] && t[j] == s[j]);
        } else if j == p {
            assert(t[i] == s[i] && t[j] == w);
        } else {
            if i < p {
                assert(t[i] == s[i] && t[j] == s[j - 1]);
            } else if i == p {
                assert(t[i] == w && t[j] == s[j - 1]);
                assert(lex_lt(w.date, s[p].date));
                if j - 1 > p {
                    lemma_lex_lt_le_trans(w.date, s[p].date, s[j - 1].date);
                }
                lemma_lex_lt_asymm(w.date, s[j - 1].date);
            } else {
                assert(t[i] == s[i - 1] && t[j] == s[j - 1]);
            }
        }
    }
}

pub proof fn lemma_bs_insert_sorted(s: Seq<BalanceSnapshotView>, w: BalanceSnapshotView)
    requires
        bs_sorted(s),
    ensures
        bs_sorted(s.insert(bs_insert_pos(s, w.date), w)),
{
    let p = bs_insert_pos(s, w.date);
    lemma_bs_insert_pos_props(s, w.date);
    let t = s.insert(p, w);
    assert forall|i: int, j: int| #![trigger t[i], t[j]] 0 <= i < j < t.len() implies lex_le(t[i].date, t[j].date) by {
        if j < p {
            assert(t[i] == s[i] && t[j] == s[j]);
        } else if j == p {
            assert(t[i] == s[i] && t[j] == w);
        } else {
            if i < p {
                assert(t[i] == s[i] && t[j] == s[j - 1]);
            } else if i == p {
                assert(t[i] == w && t[j] == s[j - 1]);
                assert(lex_lt(w.date, s[p].date));
                if j - 1 > p {
                    lemma_lex_lt_le_trans(w.date, s[p].date, s[j - 1].date);
                }
                lemma_lex_lt_asymm(w.date, s[j - 1].date);
            } else {
                assert(t[i] == s[i - 1] && t[j] == s[j - 1]);
            }
        }
    }
}

// ---------------------------------------------------------------------------
// Records built by the store
// ---------------------------------------------------------------------------

pub open spec fn wl_from_new(input: NewWorkLogView, id: int) -> WorkLogView {
    WorkLogView {
        id,
        date: input.date,
        job_id: input.job_id,
        hours: input.hours,
        pay_rate: input.pay_rate,
        tax_rate: input.tax_rate,
        pay_cashed: input.pay_cashed,
    }
}

pub open spec fn bs_from_new(input: NewBalanceSnapshotView, id: int) -> BalanceSnapshotView {
    BalanceSnapshotView {
        id,
        date: input.date,
        checking: input.checking,
        credit_available: input.credit_available,
        credit_limit: input.credit_limit,
        personal_debt: input.personal_debt,
        note: input.note,
    }
}

/// The snapshot that replaces `prev` when its date is submitted again:
/// the id and the list position stay, every other field comes from the input.
pub open spec fn bs_overwritten(
    prev: BalanceSnapshotView,
    input: NewBalanceSnapshotView,
) -> BalanceSnapshotView {
    BalanceSnapshotView {
        id: prev.id,
        date: prev.date,
        checking: input.checking,
        credit_available: input.credit_available,
        credit_limit: input.credit_limit,
        personal_debt: input.personal_debt,
        note: input.note,
    }
}

// ---------------------------------------------------------------------------
// Transition relations: what each mutation does, stated once and reused by
// the operation contracts and the laws about call sequences
// ---------------------------------------------------------------------------

pub open spec fn create_work_log_spec(
    pre: AppDataView,
    post: AppDataView,
    input: NewWorkLogView,
    r: WorkLogView,
) -> bool {
    &&& r == wl_from_new(input, pre.next_work_log_id)
    &&& post.work_logs == pre.work_logs.insert(wl_insert_pos(pre.work_logs, input.date), r)
    &&& post.next_work_log_id == pre.next_work_log_id + 1
    &&& post.balance_snapshots == pre.balance_snapshots
    &&& post.next_snapshot_id == pre.next_snapshot_id
    &&& post.jobs == pre.jobs
}

pub open spec fn delete_work_log_spec(
    pre: AppDataView,
    post: AppDataView,
    id: int,
    r: bool,
) -> bool {
    let i = wl_find_id(pre.work_logs, id);
    &&& r == (i >= 0)
    &&& post.work_logs == if i >= 0 {
        pre.work_logs.remove(i)
    } else {
        pre.work_logs
    }
    &&& post.next_work_log_id == pre.next_work_log_id
    &&& post.balance_snapshots == pre.balance_snapshots
    &&& post.next_snapshot_id == pre.next_snapshot_id
    &&& post.jobs == pre.jobs
}

pub open spec fn upsert_balance_snapshot_spec(
    pre: AppDataView,
    post: AppDataView,
    input: NewBalanceSnapshotView,
    r: BalanceSnapshotView,
) -> bool {
    let i = bs_find_date(pre.balance_snapshots, input.date);
    &&& post.work_logs == pre.work_logs
    &&& post.next_work_log_id == pre.next_work_log_id
    &&& post.jobs == pre.jobs
    &&& if i >= 0 {
        &&& r == bs_overwritten(pre.balance_snapshots[i], input)
        &&& post.balance_snapshots == pre.balance_snapshots.update(i, r)
        &&& post.next_snapshot_id == pre.next_snapshot_id
    } else {
        &&& r == bs_from_new(input, pre.next_snapshot_id)
        &&& post.balance_snapshots == pre.balance_snapshots.insert(
            bs_insert_pos(pre.balance_snapshots, input.date),
            r,
        )
        &&& post.next_snapshot_id == pre.next_snapshot_id + 1
    }
}

pub open spec fn delete_balance_snapshot_spec(
    pre: AppDataView,
    post: AppDataView,
    id: int,
    r: bool,
) -> bool {
    let i = bs_find_id(pre.balance_snapshots, id);
    &&& r == (i >= 0)
    &&& post.balance_snapshots == if i >= 0 {
        pre.balance_snapshots.remove(i)
    } else {
        pre.balance_snapshots
    }
    &&& post.next_snapshot_id == pre.next_snapshot_id
    &&& post.work_logs == pre.work_logs
    &&& post.next_work_log_id == pre.next_work_log_id
    &&& post.jobs == pre.jobs
}

// ---------------------------------------------------------------------------
// The store
// ---------------------------------------------------------------------------

/// The in-memory store: the canonical dataset plus the two id allocators.
pub struct AppData {
    jobs: Vec<Job>,
    work_logs: Vec<WorkLog>,
    balance_snapshots: Vec<BalanceSnapshot>,
    next_work_log_id: i64,
    next_snapshot_id: i64,
}

impl View for AppData {
    type V = AppDataView;

    closed spec fn view(&self) -> AppDataView {
        AppDataView {
            jobs: self.jobs.deep_view(),
            work_logs: self.work_logs.deep_view(),
            balance_snapshots: self.balance_snapshots.deep_view(),
            next_work_log_id: self.next_work_log_id as int,
            next_snapshot_id: self.next_snapshot_id as int,
        }
    }
}

impl AppData {
    /// Allocates the next work-log id, inserts the record keeping the
    /// collection sorted by date (after every entry whose date is at or
    /// below the new one, so equal dates keep insertion order), and
    /// returns the stored record.
    pub fn create_work_log(&mut self, input: NewWorkLog) -> (r: WorkLog)
        requires
            old(self)@.wf(),
            old(self)@.next_work_log_id <= i32::MAX as int,
        ensures
            final(self)@.wf(),
            create_work_log_spec(old(self)@, final(self)@, input@, r@),
    {
        let ghost pre = self@;
        let ghost d = input.date@;
        let n = self.work_logs.len();
        let mut k: usize = 0;
        loop
            invariant
                self@ == pre,
                d == input.date@,
                n == self.work_logs.len(),
                k <= n,
                forall|j: int| #![trigger pre.work_logs[j]] 0 <= j < k ==> !lex_lt(d, pre.work_logs[j].date),
            ensures
                self@ == pre,
                k <= n,
                forall|j: int| #![trigger pre.work_logs[j]] 0 <= j < k ==> !lex_lt(d, pre.work_logs[j].date),
                k < n ==> lex_lt(d, pre.work_logs[k as int].date),
            decreases n - k,
        {
            if k >= n {
                break;
            }
            let after = str_lt(input.date.as_str(), self.work_logs[k].date.as_str());
            proof {
                assert(pre.work_logs[k as int].date == self.work_logs@[k as int].date@);
            }
            if after {
                break;
            }
            k = k + 1;
        }
        proof {
            lemma_wl_insert_pos_unique(pre.work_logs, d, k as int);
        }
        let id32: i32 = self.next_work_log_id as i32;
        let log = WorkLog {
            id: id32,
            date: input.date,
            job_id: input.job_id,
            hours: input.hours,
            pay_rate: input.pay_rate,
            tax_rate: input.tax_rate,
            pay_cashed: input.pay_cashed,
        };
        let r = log.duplicate();
        self.work_logs.insert(k, log);
        self.next_work_log_id = self.next_work_log_id + 1;
        proof {
            assert(self.work_logs.deep_view() =~= pre.work_logs.insert(k as int, r@));
            lemma_wl_insert_pos_props(pre.work_logs, d);
            lemma_wl_insert_sorted(pre.work_logs, r@);
            let t = self@.work_logs;
            assert forall|i: int, j: int| #![trigger t[i], t[j]] 0 <= i < j < t.len() implies t[i].id != t[j].id by {
                if j < k {
                } else if j == k {
                    assert(t[i] == pre.work_logs[i]);
                } else if i == k {
                    assert(t[j] == pre.work_logs[j - 1]);
                } else if i < k {
                    assert(t[i] == pre.work_logs[i] && t[j] == pre.work_logs[j - 1]);
                } else {
                    assert(t[i] == pre.work_logs[i - 1] && t[j] == pre.work_logs[j - 1]);
                }
            }
            assert forall|i: int| #![trigger t[i]] 0 <= i < t.len() implies 1 <= t[i].id
                < self@.next_work_log_id by {
                if i < k {
                    assert(t[i] == pre.work_logs[i]);
                } else if i > k {
                    assert(t[i] == pre.work_logs[i - 1]);
                }
            }
        }
        r
    }

    /// Removes the work log with the given id if present and reports whether
    /// a removal happened; an absent id changes nothing.
    pub fn delete_work_log(&mut self, id: i32) -> (r: bool)
        requires
            old(self)@.wf(),
        ensures
            final(self)@.wf(),
            delete_work_log_spec(old(self)@, final(self)@, id as int, r),
    {
        let ghost pre = self@;
        let n = self.work_logs.len();
        let mut k: usize = 0;
        while k < n && self.work_logs[k].id != id
            invariant
                self@ == pre,
                n == self.work_logs.len(),
                k <= n,
                forall|j: int| #![trigger pre.work_logs[j]] 0 <= j < k ==> pre.work_logs[j].id != id,
            decreases n - k,
        {
            proof {
                assert(pre.work_logs[k as int].id == self.work_logs@[k as int].id as int);
            }
            k = k + 1;
        }
        proof {
            lemma_wl_find_id_unique(pre.work_logs, id as int, k as int);
        }
        if k == n {
            return false;
        }
        self.work_logs.remove(k);
        proof {
            assert(self.work_logs.deep_view() =~= pre.work_logs.remove(k as int));
            let t = self@.work_logs;
            assert forall|i: int, j: int| #![trigger t[i], t[j]] 0 <= i < j < t.len() implies lex_le(t[i].date, t[j].date)
                && t[i].id != t[j].id by {
                let i0 = if i < k { i } else { i + 1 };
                let j0 = if j < k { j } else { j + 1 };
                assert(t[i] == pre.work_logs[i0] && t[j] == pre.work_logs[j0]);
            }
            assert forall|i: int| #![trigger t[i]] 0 <= i < t.len() implies 1 <= t[i].id
                < self@.next_work_log_id by {
                let i0 = if i < k { i } else { i + 1 };
                assert(t[i] == pre.work_logs[i0]);
            }
        }
        true
    }

    /// If a snapshot with the input's date exists, overwrites its balance
    /// fields and note in place (same id, same position); otherwise allocates
    /// the next id and inserts a new snapshot keeping the date order.
    /// Returns the stored record.
    pub fn upsert_balance_snapshot(&mut self, input: NewBalanceSnapshot) -> (r: BalanceSnapshot)
        requires
            old(self)@.wf(),
            bs_find_date(old(self)@.balance_snapshots, input@.date) >= 0 || old(
                self,
            )@.next_snapshot_id <= i32::MAX as int,
        ensures
            final(self)@.wf(),
            upsert_balance_snapshot_spec(old(self)@, final(self)@, input@, r@),
    {
        let ghost pre = self@;
        let ghost d = input.date@;
        let n = self.balance_snapshots.len();
        let mut k: usize = 0;
        loop
            invariant
                self@ == pre,
                d == input.date@,
                n == self.balance_snapshots.len(),
                k <= n,
                forall|j: int|
                    #![trigger pre.balance_snapshots[j]]
                    0 <= j < k ==> pre.balance_snapshots[j].date != d,
            ensures
                self@ == pre,
                k <= n,
                forall|j: int|
                    #![trigger pre.balance_snapshots[j]]
                    0 <= j < k ==> pre.balance_snapshots[j].date != d,
                k < n ==> pre.balance_snapshots[k as int].date == d,
            decreases n - k,
        {
            if k >= n {
                break;
            }
            let same = self.balance_snapshots[k].date == input.date;
            proof {
                assert(pre.balance_snapshots[k as int].date
                    == self.balance_snapshots@[k as int].date@);
            }
            if same {
                break;
            }
            k = k + 1;
        }
        proof {
            lemma_bs_find_date_unique(pre.balance_snapshots, d, k as int);
        }
        if k < n {
            // Overwrite in place: same id, same date, same position.
            let prev = self.balance_snapshots.remove(k);
            let snap = BalanceSnapshot {
                id: prev.id,
                date: prev.date,
                checking: input.checking,
                credit_available: input.credit_available,
                credit_limit: input.credit_limit,
                personal_debt: input.personal_debt,
                note: input.note,
            };
            let r = snap.duplicate();
            self.balance_snapshots.insert(k, snap);
            proof {
                assert(self.balance_snapshots.deep_view() =~= pre.balance_snapshots.update(
                    k as int,
                    r@,
                ));
                let t = self@.balance_snapshots;
                assert forall|i: int, j: int| #![trigger t[i], t[j]] 0 <= i < j < t.len() implies lex_le(
                    t[i].date,
                    t[j].date,
                ) && t[i].id != t[j].id && t[i].date != t[j].date by {
                    assert(t[i].date == pre.balance_snapshots[i].date);
                    assert(t[j].date == pre.balance_snapshots[j].date);
                    assert(t[i].id == pre.balance_snapshots[i].id);
                    assert(t[j].id == pre.balance_snapshots[j].id);
                }
                assert forall|i: int| #![trigger t[i]] 0 <= i < t.len() implies 1 <= t[i].id
                    < self@.next_snapshot_id by {
                    assert(t[i].id == pre.balance_snapshots[i].id);
                }
            }
            r
        } else {
            let id32: i32 = self.next_snapshot_id as i32;
            let mut p: usize = 0;
            loop
                invariant
                    self@ == pre,
                    d == input.date@,
                    n == self.balance_snapshots.len(),
                    p <= n,
                    forall|j: int|
                        #![trigger pre.balance_snapshots[j]]
                        0 <= j < p ==> !lex_lt(d, pre.balance_snapshots[j].date),
                ensures
                    self@ == pre,
                    p <= n,
                    forall|j: int|
                        #![trigger pre.balance_snapshots[j]]
                        0 <= j < p ==> !lex_lt(d, pre.balance_snapshots[j].date),
                    p < n ==> lex_lt(d, pre.balance_snapshots[p as int].date),
                decreases n - p,
            {
                if p >= n {
                    break;
                }
                let after = str_lt(input.date.as_str(), self.balance_snapshots[p].date.as_str());
                proof {
                    assert(pre.balance_snapshots[p as int].date
                        == self.balance_snapshots@[p as int].date@);
                }
                if after {
                    break;
                }
                p = p + 1;
            }
            proof {
                lemma_bs_insert_pos_unique(pre.balance_snapshots, d, p as int);
            }
            let snap = BalanceSnapshot {
                id: id32,
                date: input.date,
                checking: input.checking,
                credit_available: input.credit_available,
                credit_limit: input.credit_limit,
                personal_debt: input.personal_debt,
                note: input.note,
            };
            let r = snap.duplicate();
            self.balance_snapshots.insert(p, snap);
            self.next_snapshot_id = self.next_snapshot_id + 1;
            proof {
                assert(self.balance_snapshots.deep_view() =~= pre.balance_snapshots.insert(
                    p as int,
                    r@,
                ));
                lemma_bs_insert_pos_props(pre.balance_snapshots, d);
                lemma_bs_insert_sorted(pre.balance_snapshots, r@);
                lemma_bs_find_date_props(pre.balance_snapshots, d);
                let t = self@.balance_snapshots;
                assert forall|i: int, j: int| #![trigger t[i], t[j]] 0 <= i < j < t.len() implies t[i].id != t[j].id
                    && t[i].date != t[j].date by {
                    if j < p {
                    } else if j == p {
                        assert(t[i] == pre.balance_snapshots[i]);
                    } else if i == p {
                        assert(t[j] == pre.balance_snapshots[j - 1]);
                    } else if i < p {
                        assert(t[i] == pre.balance_snapshots[i] && t[j] == pre.balance_snapshots[j
                            - 1]);
                    } else {
                        assert(t[i] == pre.balance_snapshots[i - 1] && t[j]
                            == pre.balance_snapshots[j - 1]);
                    }
                }
                assert forall|i: int| #![trigger t[i]] 0 <= i < t.len() implies 1 <= t[i].id
                    < self@.next_snapshot_id by {
                    if i < p {
                        assert(t[i] == pre.balance_snapshots[i]);
                    } else if i > p {
                        assert(t[i] == pre.balance_snapshots[i - 1]);
                    }
                }
            }
            r
        }
    }

    /// Removes the snapshot with the given id if present and reports whether
    /// a removal happened; an absent id changes nothing.
    pub fn delete_balance_snapshot(&mut self, id: i32) -> (r: bool)
        requires
            old(self)@.wf(),
        ensures
            final(self)@.wf(),
            delete_balance_snapshot_spec(old(self)@, final(self)@, id as int, r),
    {
        let ghost pre = self@;
        let n = self.balance_snapshots.len();
        let mut k: usize = 0;
        while k < n && self.balance_snapshots[k].id != id
            invariant
                self@ == pre,
                n == self.balance_snapshots.len(),
                k <= n,
                forall|j: int|
                    #![trigger pre.balance_snapshots[j]]
                    0 <= j < k ==> pre.balance_snapshots[j].id != id,
            decreases n - k,
        {
            proof {
                assert(pre.balance_snapshots[k as int].id
                    == self.balance_snapshots@[k as int].id as int);
            }
            k = k + 1;
        }
        proof {
            lemma_bs_find_id_unique(pre.balance_snapshots, id as int, k as int);
        }
        if k == n {
            return false;
        }
        self.balance_snapshots.remove(k);
        proof {
            assert(self.balance_snapshots.deep_view() =~= pre.balance_snapshots.remove(k as int));
            let t = self@.balance_snapshots;
            assert forall|i: int, j: int| #![trigger t[i], t[j]] 0 <= i < j < t.len() implies lex_le(t[i].date, t[j].date)
                && t[i].id != t[j].id && t[i].date != t[j].date by {
                let i0 = if i < k { i } else { i + 1 };
                let j0 = if j < k { j } else { j + 1 };
                assert(t[i] == pre.balance_snapshots[i0] && t[j] == pre.balance_snapshots[j0]);
            }
            assert forall|i: int| #![trigger t[i]] 0 <= i < t.len() implies 1 <= t[i].id
                < self@.next_snapshot_id by {
                let i0 = if i < k { i } else { i + 1 };
                assert(t[i] == pre.balance_snapshots[i0]);
            }
        }
        true
    }
}

// ---------------------------------------------------------------------------
// Loading: validation of a dataset read back from disk
// ---------------------------------------------------------------------------

pub open spec fn wl_adj_sorted(s: Seq<WorkLogView>) -> bool {
    forall|i: int| #![trigger s[i]] 0 < i < s.len() ==> lex_le(s[i - 1].date, s[i].date)
}

pub open spec fn bs_adj_sorted(s: Seq<BalanceSnapshotView>) -> bool {
    forall|i: int| #![trigger s[i]] 0 < i < s.len() ==> lex_le(s[i - 1].date, s[i].date)
}

proof fn lemma_wl_le_span(s: Seq<WorkLogView>, i: int, j: int)
    requires
        wl_adj_sorted(s),
        0 <= i < j < s.len(),
    ensures
        lex_le(s[i].date, s[j].date),
    decreases j - i,
{
    if j == i + 1 {
    } else {
        lemma_wl_le_span(s, i, j - 1);
        lemma_lex_le_trans(s[i].date, s[j - 1].date, s[j].date);
    }
}

pub proof fn lemma_wl_sorted_of_adjacent(s: Seq<WorkLogView>)
    requires
        wl_adj_sorted(s),
    ensures
        wl_sorted(s),
{
    assert forall|i: int, j: int| #![trigger s[i], s[j]] 0 <= i < j < s.len() implies lex_le(
        s[i].date,
        s[j].date,
    ) by {
        lemma_wl_le_span(s, i, j);
    }
}

proof fn lemma_bs_le_span(s: Seq<BalanceSnapshotView>, i: int, j: int)
    requires
        bs_adj_sorted(s),
        0 <= i < j < s.len(),
    ensures
        lex_le(s[i].date, s[j].date),
    decreases j - i,
{
    if j == i + 1 {
    } else {
        lemma_bs_le_span(s, i, j - 1);
        lemma_lex_le_trans(s[i].date, s[j - 1].date, s[j].date);
    }
}

pub proof fn lemma_bs_sorted_of_adjacent(s: Seq<BalanceSnapshotView>)
    requires
        bs_adj_sorted(s),
    ensures
        bs_sorted(s),
{
    assert forall|i: int, j: int| #![trigger s[i], s[j]] 0 <= i < j < s.len() implies lex_le(
        s[i].date,
        s[j].date,
    ) by {
        lemma_bs_le_span(s, i, j);
    }
}

/// What a dataset read back from disk must satisfy to be adopted as the
/// store's state; anything else is treated like a corrupt file.
pub open spec fn valid_work_logs(s: Seq<WorkLogView>) -> bool {
    &&& wl_adj_sorted(s)
    &&& wl_ids_distinct(s)
    &&& forall|i: int| #![trigger s[i]] 0 <= i < s.len() ==> s[i].id >= 1
}

pub open spec fn valid_snapshots(s: Seq<BalanceSnapshotView>) -> bool {
    &&& bs_adj_sorted(s)
    &&& bs_ids_distinct(s)
    &&& bs_dates_distinct(s)
    &&& forall|i: int| #![trigger s[i]] 0 <= i < s.len() ==> s[i].id >= 1
}

pub open spec fn valid_loaded(d: FinanceDataView) -> bool {
    valid_work_logs(d.work_logs) && valid_snapshots(d.balance_snapshots)
}

fn check_work_logs(v: &Vec<WorkLog>) -> (r: bool)
    ensures
        r == valid_work_logs(v.deep_view()),
{
    let ghost s = v.deep_view();
    let n = v.len();
    let mut i: usize = 0;
    while i < n
        invariant
            s == v.deep_view(),
            n == v@.len(),
            i <= n,
            forall|j: int| #![trigger s[j]] 0 <= j < i ==> s[j].id >= 1,
            forall|j: int| #![trigger s[j]] 0 < j < i ==> lex_le(s[j - 1].date, s[j].date),
        decreases n - i,
    {
        proof {
            assert(s[i as int].id == v@[i as int].id as int);
        }
        if v[i].id < 1 {
            return false;
        }
        if i > 0 {
            let out_of_order = str_lt(v[i].date.as_str(), v[i - 1].date.as_str());
            proof {
                assert(s[i as int].date == v@[i as int].date@);
                assert(s[i as int - 1].date == v@[i as int - 1].date@);
            }
            if out_of_order {
                return false;
            }
        }
        i = i + 1;
    }
    let mut a: usize = 0;
    while a < n
        invariant
            s == v.deep_view(),
            n == v@.len(),
            a <= n,
            forall|x: int, y: int| #![trigger s[x], s[y]] 0 <= x < y < n && x < a ==> s[x].id != s[y].id,
        decreases n - a,
    {
        let mut b: usize = a + 1;
        while b < n
            invariant
                s == v.deep_view(),
                n == v@.len(),
                a < b || a + 1 == b,
                a < n,
                b <= n,
                a + 1 <= b,
                forall|y: int| #![trigger s[y]] a < y < b ==> s[a as int].id != s[y].id,
            decreases n - b,
        {
            proof {
                assert(s[a as int].id == v@[a as int].id as int);
                assert(s[b as int].id == v@[b as int].id as int);
            }
            if v[a].id == v[b].id {
                return false;
            }
            b = b + 1;
        }
        a = a + 1;
    }
    true
}

fn check_snapshots(v: &Vec<BalanceSnapshot>) -> (r: bool)
    ensures
        r == valid_snapshots(v.deep_view()),
{
    let ghost s = v.deep_view();
    let n = v.len();
    let mut i: usize = 0;
    while i < n
        invariant
            s == v.deep_view(),
            n == v@.len(),
            i <= n,
            forall|j: int| #![trigger s[j]] 0 <= j < i ==> s[j].id >= 1,
            forall|j: int| #![trigger s[j]] 0 < j < i ==> lex_le(s[j - 1].date, s[j].date),
        decreases n - i,
    {
        proof {
            assert(s[i as int].id == v@[i as int].id as int);
        }
        if v[i].id < 1 {
            return false;
        }
        if i > 0 {
            let out_of_order = str_lt(v[i].date.as_str(), v[i - 1].date.as_str());
            proof {
                assert(s[i as int].date == v@[i as int].date@);
                assert(s[i as int - 1].date == v@[i as int - 1].date@);
            }
            if out_of_order {
                return false;
            }
        }
        i = i + 1;
    }
    let mut a: usize = 0;
    while a < n
        invariant
            s == v.deep_view(),
            n == v@.len(),
            a <= n,
            forall|x: int, y: int| #![trigger s[x], s[y]] 0 <= x < y < n && x < a ==> s[x].id != s[y].id && s[x].date != s[y].date,
        decreases n - a,
    {
        let mut b: usize = a + 1;
        while b < n
            invariant
                s == v.deep_view(),
                n == v@.len(),
                a < n,
                b <= n,
                a + 1 <= b,
                forall|y: int| #![trigger s[y]] a < y < b ==> s[a as int].id != s[y].id && s[a as int].date != s[y].date,
            decreases n - b,
        {
            proof {
                assert(s[a as int].id == v@[a as int].id as int);
                assert(s[b as int].id == v@[b as int].id as int);
                assert(s[a as int].date == v@[a as int].date@);
                assert(s[b as int].date == v@[b as int].date@);
            }
            if v[a].id == v[b].id {
                return false;
            }
            if v[a].date == v[b].date {
                return false;
            }
            b = b + 1;
        }
        a = a + 1;
    }
    true
}

// ---------------------------------------------------------------------------
// The id allocator: the next id is one past the largest id present
// ---------------------------------------------------------------------------

pub open spec fn wl_max_id(s: Seq<WorkLogView>) -> int
    decreases s.len(),
{
    if s.len() == 0 {
        0
    } else {
        let m = wl_max_id(s.drop_last());
        if s.last().id > m {
            s.last().id
        } else {
            m
        }
    }
}

pub open spec fn bs_max_id(s: Seq<BalanceSnapshotView>) -> int
    decreases s.len(),
{
    if s.len() == 0 {
        0
    } else {
        let m = bs_max_id(s.drop_last());
        if s.last().id > m {
            s.last().id
        } else {
            m
        }
    }
}

pub proof fn lemma_wl_max_id(s: Seq<WorkLogView>)
    ensures
        wl_max_id(s) >= 0,
        forall|i: int| #![trigger s[i]] 0 <= i < s.len() ==> s[i].id <= wl_max_id(s),
    decreases s.len(),
{
    if s.len() == 0 {
    } else {
        lemma_wl_max_id(s.drop_last());
        assert forall|i: int| 0 <= i < s.len() implies s[i].id <= wl_max_id(s) by {
            if i < s.len() - 1 {
                assert(s[i] == s.drop_last()[i]);
            }
        }
    }
}

pub proof fn lemma_bs_max_id(s: Seq<BalanceSnapshotView>)
    ensures
        bs_max_id(s) >= 0,
        forall|i: int| #![trigger s[i]] 0 <= i < s.len() ==> s[i].id <= bs_max_id(s),
    decreases s.len(),
{
    if s.len() == 0 {
    } else {
        lemma_bs_max_id(s.drop_last());
        assert forall|i: int| 0 <= i < s.len() implies s[i].id <= bs_max_id(s) by {
            if i < s.len() - 1 {
                assert(s[i] == s.drop_last()[i]);
            }
        }
    }
}

fn max_wl_id(v: &Vec<WorkLog>) -> (m: i32)
    ensures
        m as int == wl_max_id(v.deep_view()),
{
    let ghost s = v.deep_view();
    let n = v.len();
    let mut m: i32 = 0;
    let mut i: usize = 0;
    proof {
        assert(s.take(0) =~= Seq::<WorkLogView>::empty());
    }
    while i < n
        invariant
            s == v.deep_view(),
            n == v@.len(),
            i <= n,
            m as int == wl_max_id(s.take(i as int)),
        decreases n - i,
    {
        proof {
            assert(s.take(i + 1).drop_last() =~= s.take(i as int));
            assert(s.take(i + 1).last() == s[i as int]);
            assert(s[i as int].id == v@[i as int].id as int);
        }
        if v[i].id > m {
            m = v[i].id;
        }
        i = i + 1;
    }
    proof {
        assert(s.take(n as int) =~= s);
    }
    m
}

fn max_bs_id(v: &Vec<BalanceSnapshot>) -> (m: i32)
    ensures
        m as int == bs_max_id(v.deep_view()),
{
    let ghost s = v.deep_view();
    let n = v.len();
    let mut m: i32 = 0;
    let mut i: usize = 0;
    proof {
        assert(s.take(0) =~= Seq::<BalanceSnapshotView>::empty());
    }
    while i < n
        invariant
            s == v.deep_view(),
            n == v@.len(),
            i <= n,
            m as int == bs_max_id(s.take(i as int)),
        decreases n - i,
    {
        proof {
            assert(s.take(i + 1).drop_last() =~= s.take(i as int));
            assert(s.take(i + 1).last() == s[i as int]);
            assert(s[i as int].id == v@[i as int].id as int);
        }
        if v[i].id > m {
            m = v[i].id;
        }
        i = i + 1;
    }
    proof {
        assert(s.take(n as int) =~= s);
    }
    m
}

// ---------------------------------------------------------------------------
// Deep copies for the read operations
// ---------------------------------------------------------------------------

fn clone_jobs(v: &Vec<Job>) -> (r: Vec<Job>)
    ensures
        r.deep_view() == v.deep_view(),
{
    let mut r: Vec<Job> = Vec::new();
    let n = v.len();
    let mut i: usize = 0;
    proof {
        assert(r.deep_view() =~= v.deep_view().take(0));
    }
    while i < n
        invariant
            n == v@.len(),
            i <= n,
            r.deep_view() == v.deep_view().take(i as int),
        decreases n - i,
    {
        let ghost rv = r@;
        let ghost dvprev = r.deep_view();
        r.push(v[i].duplicate());
        proof {
            assert(dvprev =~= Seq::new(rv.len(), |k: int| rv[k].deep_view()));
            assert(v.deep_view().len() == v@.len());
            assert(dvprev.len() == i);
            assert(rv.len() == i);
            assert(r@.len() == i + 1);
            assert forall|j: int| 0 <= j < i + 1 implies r.deep_view()[j] == v.deep_view().take(
                i as int + 1,
            )[j] by {
                assert(r.deep_view()[j] == r@[j].deep_view());
                if j < i {
                    assert(r@[j] == rv[j]);
                    assert(dvprev[j] == rv[j].deep_view());
                    assert(dvprev[j] == v.deep_view().take(i as int)[j]);
                }
            }
            assert(r.deep_view() =~= v.deep_view().take(i as int + 1));
        }
        i = i + 1;
    }
    proof {
        assert(v.deep_view().take(n as int) =~= v.deep_view());
    }
    r
}

fn clone_work_logs(v: &Vec<WorkLog>) -> (r: Vec<WorkLog>)
    ensures
        r.deep_view() == v.deep_view(),
{
    let mut r: Vec<WorkLog> = Vec::new();
    let n = v.len();
    let mut i: usize = 0;
    proof {
        assert(r.deep_view() =~= v.deep_view().take(0));
    }
    while i < n
        invariant
            n == v@.len(),
            i <= n,
            r.deep_view() == v.deep_view().take(i as int),
        decreases n - i,
    {
        let ghost rv = r@;
        let ghost dvprev = r.deep_view();
        r.push(v[i].duplicate());
        proof {
            assert(dvprev =~= Seq::new(rv.len(), |k: int| rv[k].deep_view()));
            assert(v.deep_view().len() == v@.len());
            assert(dvprev.len() == i);
            assert(rv.len() == i);
            assert(r@.len() == i + 1);
            assert forall|j: int| 0 <= j < i + 1 implies r.deep_view()[j] == v.deep_view().take(
                i as int + 1,
            )[j] by {
                assert(r.deep_view()[j] == r@[j].deep_view());
                if j < i {
                    assert(r@[j] == rv[j]);
                    assert(dvprev[j] == rv[j].deep_view());
                    assert(dvprev[j] == v.deep_view().take(i as int)[j]);
                }
            }
            assert(r.deep_view() =~= v.deep_view().take(i as int + 1));
        }
        i = i + 1;
    }
    proof {
        assert(v.deep_view().take(n as int) =~= v.deep_view());
    }
    r
}

fn clone_snapshots(v: &Vec<BalanceSnapshot>) -> (r: Vec<BalanceSnapshot>)
    ensures
        r.deep_view() == v.deep_view(),
{
    let mut r: Vec<BalanceSnapshot> = Vec::new();
    let n = v.len();
    let mut i: usize = 0;
    proof {
        assert(r.deep_view() =~= v.deep_view().take(0));
    }
    while i < n
        invariant
            n == v@.len(),
            i <= n,
            r.deep_view() == v.deep_view().take(i as int),
        decreases n - i,
    {
        let ghost rv = r@;
        let ghost dvprev = r.deep_view();
        r.push(v[i].duplicate());
        proof {
            assert(dvprev =~= Seq::new(rv.len(), |k: int| rv[k].deep_view()));
            assert(v.deep_view().len() == v@.len());
            assert(dvprev.len() == i);
            assert(rv.len() == i);
            assert(r@.len() == i + 1);
            assert forall|j: int| 0 <= j < i + 1 implies r.deep_view()[j] == v.deep_view().take(
                i as int + 1,
            )[j] by {
                assert(r.deep_view()[j] == r@[j].deep_view());
                if j < i {
                    assert(r@[j] == rv[j]);
                    assert(dvprev[j] == rv[j].deep_view());
                    assert(dvprev[j] == v.deep_view().take(i as int)[j]);
                }
            }
            assert(r.deep_view() =~= v.deep_view().take(i as int + 1));
        }
        i = i + 1;
    }
    proof {
        assert(v.deep_view().take(n as int) =~= v.deep_view());
    }
    r
}

// ---------------------------------------------------------------------------
// Construction and the read operations
// ---------------------------------------------------------------------------

/// A store with no records and both allocators at one.
pub open spec fn fresh_store(v: AppDataView) -> bool {
    &&& v.work_logs == Seq::<WorkLogView>::empty()
    &&& v.balance_snapshots == Seq::<BalanceSnapshotView>::empty()
    &&& v.next_work_log_id == 1
    &&& v.next_snapshot_id == 1
    &&& v.jobs == fixed_jobs()
}

/// A store adopting a dataset read back from disk, with each allocator one
/// past the largest id present.
pub open spec fn loaded_store(d: FinanceDataView, v: AppDataView) -> bool {
    &&& v.work_logs == d.work_logs
    &&& v.balance_snapshots == d.balance_snapshots
    &&& v.next_work_log_id == wl_max_id(d.work_logs) + 1
    &&& v.next_snapshot_id == bs_max_id(d.balance_snapshots) + 1
    &&& v.jobs == fixed_jobs()
}

impl AppData {
    /// A store with no records: what a missing or corrupt data file yields.
    pub fn empty() -> (r: AppData)
        ensures
            r@.wf(),
            fresh_store(r@),
    {
        let r = AppData {
            jobs: make_fixed_jobs(),
            work_logs: Vec::new(),
            balance_snapshots: Vec::new(),
            next_work_log_id: 1,
            next_snapshot_id: 1,
        };
        proof {
            assert(r.work_logs.deep_view() =~= Seq::<WorkLogView>::empty());
            assert(r.balance_snapshots.deep_view() =~= Seq::<BalanceSnapshotView>::empty());
        }
        r
    }

    /// Builds the store from an optional dataset read back from disk.
    /// A dataset that would break the store's invariants is treated exactly
    /// like a missing one: the store starts fresh. The fixed job catalog is
    /// always installed; the catalog on disk is not consulted.
    pub fn init(data: Option<FinanceData>) -> (r: AppData)
        ensures
            r@.wf(),
            match data {
                Option::Some(d) => if valid_loaded(d@) {
                    loaded_store(d@, r@)
                } else {
                    fresh_store(r@)
                },
                Option::None => fresh_store(r@),
            },
    {
        match data {
            Option::Some(d) => {
                let ok_logs = check_work_logs(&d.work_logs);
                let ok_snaps = check_snapshots(&d.balance_snapshots);
                if ok_logs && ok_snaps {
                    let top_wl = max_wl_id(&d.work_logs);
                    let top_bs = max_bs_id(&d.balance_snapshots);
                    let r = AppData {
                        jobs: make_fixed_jobs(),
                        work_logs: d.work_logs,
                        balance_snapshots: d.balance_snapshots,
                        next_work_log_id: top_wl as i64 + 1,
                        next_snapshot_id: top_bs as i64 + 1,
                    };
                    proof {
                        lemma_wl_sorted_of_adjacent(r@.work_logs);
                        lemma_bs_sorted_of_adjacent(r@.balance_snapshots);
                        lemma_wl_max_id(r@.work_logs);
                        lemma_bs_max_id(r@.balance_snapshots);
                    }
                    r
                } else {
                    AppData::empty()
                }
            },
            Option::None => AppData::empty(),
        }
    }

    /// Builds the store from the text of the data file, if one could be
    /// read. The canonical text of a dataset that satisfies the store's
    /// invariants is adopted, with each allocator one past the largest id
    /// present; a missing file, any other text, and a dataset that would
    /// break the invariants all start a fresh store.
    pub fn load(content: Option<&str>) -> (r: AppData)
        ensures
            r@.wf(),
            match content {
                Option::Some(text) => {
                    &&& forall|dv: FinanceDataView|
                        (crate::codec::fd_wire_ok(dv) && text@ == crate::codec::finance_data_text(
                            dv,
                        ) && valid_loaded(dv)) ==> loaded_store(dv, r@)
                    &&& forall|dv: FinanceDataView|
                        (crate::codec::fd_wire_ok(dv) && text@ == crate::codec::finance_data_text(
                            dv,
                        ) && !valid_loaded(dv)) ==> fresh_store(r@)
                    &&& (forall|dv: FinanceDataView|
                        crate::codec::fd_wire_ok(dv) ==> text@
                            != crate::codec::finance_data_text(dv)) ==> fresh_store(r@)
                },
                Option::None => fresh_store(r@),
            },
    {
        match content {
            Option::Some(text) => {
                let parsed = crate::codec::parse_finance_data(text);
                let r = AppData::init(parsed);
                proof {
                    assert forall|dv: FinanceDataView|
                        (crate::codec::fd_wire_ok(dv) && text@ == crate::codec::finance_data_text(
                            dv,
                        ) && valid_loaded(dv)) implies loaded_store(dv, r@) by {
                        assert(parsed matches Some(d) && d@ == dv);
                    }
                    assert forall|dv: FinanceDataView|
                        (crate::codec::fd_wire_ok(dv) && text@ == crate::codec::finance_data_text(
                            dv,
                        ) && !valid_loaded(dv)) implies fresh_store(r@) by {
                        assert(parsed matches Some(d) && d@ == dv);
                    }
                    if forall|dv: FinanceDataView|
                        crate::codec::fd_wire_ok(dv) ==> text@ != crate::codec::finance_data_text(
                            dv,
                        ) {
                        if parsed is Some {
                            let d = parsed->Some_0;
                            assert(text@ == crate::codec::finance_data_text(d@));
                            assert(crate::codec::fd_wire_ok(d@));
                            assert(text@ != crate::codec::finance_data_text(d@));
                            assert(false);
                        }
                    }
                }
                r
            },
            Option::None => AppData::init(None),
        }
    }

    /// A snapshot of the whole dataset: deep copies, the store is unchanged.
    pub fn list_all(&self) -> (r: FinanceData)
        ensures
            r@.jobs == self@.jobs,
            r@.work_logs == self@.work_logs,
            r@.balance_snapshots == self@.balance_snapshots,
    {
        FinanceData {
            jobs: clone_jobs(&self.jobs),
            work_logs: clone_work_logs(&self.work_logs),
            balance_snapshots: clone_snapshots(&self.balance_snapshots),
        }
    }

    /// The fixed job catalog.
    pub fn list_jobs(&self) -> (r: Vec<Job>)
        ensures
            r.deep_view() == self@.jobs,
    {
        clone_jobs(&self.jobs)
    }

    /// The id the next created work log will get.
    pub fn peek_next_work_log_id(&self) -> (r: i64)
        ensures
            r as int == self@.next_work_log_id,
    {
        self.next_work_log_id
    }

    /// The id the next inserted balance snapshot will get.
    pub fn peek_next_snapshot_id(&self) -> (r: i64)
        ensures
            r as int == self@.next_snapshot_id,
    {
        self.next_snapshot_id
    }
}


} // verus!
