use vstd::prelude::*;

verus! {

// The record shapes of the store. Fractional quantities (hours, rates,
// account balances) are carried as opaque 64-bit encodings chosen by the
// caller; the store never interprets them, it only keeps and returns them.

/// A job in the fixed catalog. Jobs are not created or deleted at runtime.
pub struct Job {
    pub id: String,
    pub name: String,
}

#[verifier::ext_equal]
pub ghost struct JobView {
    pub id: Seq<char>,
    pub name: Seq<char>,
}

impl View for Job {
    type V = JobView;

    open spec fn view(&self) -> JobView {
        JobView { id: self.id@, name: self.name@ }
    }
}

impl DeepView for Job {
    type V = JobView;

    open spec fn deep_view(&self) -> JobView {
        self.view()
    }
}

impl Job {
    /// An explicit deep copy; its result is pinned, unlike a derived clone.
    pub fn duplicate(&self) -> (r: Job)
        ensures
            r@ == self@,
    {
        Job { id: self.id.clone(), name: self.name.clone() }
    }
}

/// Hours worked for one job on one date, with pay information.
pub struct WorkLog {
    pub id: i32,
    pub date: String,
    pub job_id: String,
    pub hours: u64,
    pub pay_rate: u64,
    pub tax_rate: u64,
    pub pay_cashed: bool,
}

#[verifier::ext_equal]
pub ghost struct WorkLogView {
    pub id: int,
    pub date: Seq<char>,
    pub job_id: Seq<char>,
    pub hours: u64,
    pub pay_rate: u64,
    pub tax_rate: u64,
    pub pay_cashed: bool,
}

impl View for WorkLog {
    type V = WorkLogView;

    open spec fn view(&self) -> WorkLogView {
        WorkLogView {
            id: self.id as int,
            date: self.date@,
            job_id: self.job_id@,
            hours: self.hours,
            pay_rate: self.pay_rate,
            tax_rate: self.tax_rate,
            pay_cashed: self.pay_cashed,
        }
    }
}

impl DeepView for WorkLog {
    type V = WorkLogView;

    open spec fn deep_view(&self) -> WorkLogView {
        self.view()
    }
}

impl WorkLog {
    pub fn duplicate(&self) -> (r: WorkLog)
        ensures
            r@ == self@,
    {
        WorkLog {
            id: self.id,
            date: self.date.clone(),
            job_id: self.job_id.clone(),
            hours: self.hours,
            pay_rate: self.pay_rate,
            tax_rate: self.tax_rate,
            pay_cashed: self.pay_cashed,
        }
    }
}

/// The caller-supplied part of a work log; the store assigns the id.
pub struct NewWorkLog {
    pub date: String,
    pub job_id: String,
    pub hours: u64,
    pub pay_rate: u64,
    pub tax_rate: u64,
    pub pay_cashed: bool,
}

#[verifier::ext_equal]
pub ghost struct NewWorkLogView {
    pub date: Seq<char>,
    pub job_id: Seq<char>,
    pub hours: u64,
    pub pay_rate: u64,
    pub tax_rate: u64,
    pub pay_cashed: bool,
}

impl View for NewWorkLog {
    type V = NewWorkLogView;

    open spec fn view(&self) -> NewWorkLogView {
        NewWorkLogView {
            date: self.date@,
            job_id: self.job_id@,
            hours: self.hours,
            pay_rate: self.pay_rate,
            tax_rate: self.tax_rate,
            pay_cashed: self.pay_cashed,
        }
    }
}

/// Account balances and debt on one date; at most one per distinct date.
pub struct BalanceSnapshot {
    pub id: i32,
    pub date: String,
    pub checking: u64,
    pub credit_available: u64,
    pub credit_limit: u64,
    pub personal_debt: u64,
    pub note: String,
}

#[verifier::ext_equal]
pub ghost struct BalanceSnapshotView {
    pub id: int,
    pub date: Seq<char>,
    pub checking: u64,
    pub credit_available: u64,
    pub credit_limit: u64,
    pub personal_debt: u64,
    pub note: Seq<char>,
}

impl View for BalanceSnapshot {
    type V = BalanceSnapshotView;

    open spec fn view(&self) -> BalanceSnapshotView {
        BalanceSnapshotView {
            id: self.id as int,
            date: self.date@,
            checking: self.checking,
            credit_available: self.credit_available,
            credit_limit: self.credit_limit,
            personal_debt: self.personal_debt,
            note: self.note@,
        }
    }
}

impl DeepView for BalanceSnapshot {
    type V = BalanceSnapshotView;

    open spec fn deep_view(&self) -> BalanceSnapshotView {
        self.view()
    }
}

impl BalanceSnapshot {
    pub fn duplicate(&self) -> (r: BalanceSnapshot)
        ensures
            r@ == self@,
    {
        BalanceSnapshot {
            id: self.id,
            date: self.date.clone(),
            checking: self.checking,
            credit_available: self.credit_available,
            credit_limit: self.credit_limit,
            personal_debt: self.personal_debt,
            note: self.note.clone(),
        }
    }
}

/// The caller-supplied part of a balance snapshot; the store assigns the id.
pub struct NewBalanceSnapshot {
    pub date: String,
    pub checking: u64,
    pub credit_available: u64,
    pub credit_limit: u64,
    pub personal_debt: u64,
    pub note: String,
}

#[verifier::ext_equal]
pub ghost struct NewBalanceSnapshotView {
    pub date: Seq<char>,
    pub checking: u64,
    pub credit_available: u64,
    pub credit_limit: u64,
    pub personal_debt: u64,
    pub note: Seq<char>,
}

impl View for NewBalanceSnapshot {
    type V = NewBalanceSnapshotView;

    open spec fn view(&self) -> NewBalanceSnapshotView {
        NewBalanceSnapshotView {
            date: self.date@,
            checking: self.checking,
            credit_available: self.credit_available,
            credit_limit: self.credit_limit,
            personal_debt: self.personal_debt,
            note: self.note@,
        }
    }
}

/// The whole dataset: the shape served to clients and kept on disk.
pub struct FinanceData {
    pub jobs: Vec<Job>,
    pub work_logs: Vec<WorkLog>,
    pub balance_snapshots: Vec<BalanceSnapshot>,
}

#[verifier::ext_equal]
pub ghost struct FinanceDataView {
    pub jobs: Seq<JobView>,
    pub work_logs: Seq<WorkLogView>,
    pub balance_snapshots: Seq<BalanceSnapshotView>,
}

impl View for FinanceData {
    type V = FinanceDataView;

    open spec fn view(&self) -> FinanceDataView {
        FinanceDataView {
            jobs: self.jobs.deep_view(),
            work_logs: self.work_logs.deep_view(),
            balance_snapshots: self.balance_snapshots.deep_view(),
        }
    }
}

/// The outcome reported for a mutation.
#[derive(PartialEq, Eq, Structural, Clone, Copy, Debug)]
pub struct ApiResponse {
    pub ok: bool,
}

/// A degraded-to-zero weather reading served beside the finance data.
#[derive(PartialEq, Eq, Structural, Clone, Copy, Debug)]
pub struct Weather {
    pub current_f: i32,
    pub high_f: i32,
    pub low_f: i32,
}

} // verus!
