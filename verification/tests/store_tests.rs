use finance_store::store::AppData;
use finance_store::types::{
    BalanceSnapshot, FinanceData, Job, NewBalanceSnapshot, NewWorkLog, WorkLog,
};

fn new_log(date: &str, job_id: &str, hours: f64, pay_rate: f64, tax_rate: f64) -> NewWorkLog {
    NewWorkLog {
        date: date.to_string(),
        job_id: job_id.to_string(),
        hours: hours.to_bits(),
        pay_rate: pay_rate.to_bits(),
        tax_rate: tax_rate.to_bits(),
        pay_cashed: false,
    }
}

fn new_snapshot(date: &str, checking: f64, note: &str) -> NewBalanceSnapshot {
    NewBalanceSnapshot {
        date: date.to_string(),
        checking: checking.to_bits(),
        credit_available: (500.0f64).to_bits(),
        credit_limit: (1000.0f64).to_bits(),
        personal_debt: (0.0f64).to_bits(),
        note: note.to_string(),
    }
}

#[test]
fn create_work_log_on_empty_store() {
    let mut store = AppData::load(None);
    let created = store.create_work_log(new_log("2024-01-10", "alborn", 4.0, 20.0, 0.1));
    assert_eq!(created.id, 1);
    assert_eq!(created.date, "2024-01-10");
    assert_eq!(created.job_id, "alborn");
    assert_eq!(f64::from_bits(created.hours), 4.0);
    assert_eq!(f64::from_bits(created.pay_rate), 20.0);
    assert_eq!(f64::from_bits(created.tax_rate), 0.1);
    assert!(!created.pay_cashed);
    let all = store.list_all();
    assert_eq!(all.work_logs.len(), 1);
    assert_eq!(all.work_logs[0].id, 1);
    assert_eq!(all.work_logs[0].date, "2024-01-10");
    assert_eq!(all.balance_snapshots.len(), 0);
}

#[test]
fn work_log_ids_increase_and_are_distinct() {
    let mut store = AppData::load(None);
    let a = store.create_work_log(new_log("2024-03-01", "alborn", 1.0, 20.0, 0.1));
    let b = store.create_work_log(new_log("2024-01-01", "museum", 2.0, 18.0, 0.1));
    let c = store.create_work_log(new_log("2024-02-01", "alborn", 3.0, 20.0, 0.1));
    assert_eq!(a.id, 1);
    assert_eq!(b.id, 2);
    assert_eq!(c.id, 3);
}

#[test]
fn work_logs_sorted_by_date_after_creates_and_deletes() {
    let mut store = AppData::load(None);
    store.create_work_log(new_log("2024-03-01", "alborn", 1.0, 20.0, 0.1));
    store.create_work_log(new_log("2024-01-01", "museum", 2.0, 18.0, 0.1));
    store.create_work_log(new_log("2024-02-15", "alborn", 3.0, 20.0, 0.1));
    store.create_work_log(new_log("2024-01-20", "museum", 4.0, 18.0, 0.1));
    assert!(store.delete_work_log(2));
    let all = store.list_all();
    let dates: Vec<&str> = all.work_logs.iter().map(|w| w.date.as_str()).collect();
    assert_eq!(dates, vec!["2024-01-20", "2024-02-15", "2024-03-01"]);
    for pair in all.work_logs.windows(2) {
        assert!(pair[0].date <= pair[1].date);
    }
}

#[test]
fn equal_dates_keep_creation_order() {
    let mut store = AppData::load(None);
    store.create_work_log(new_log("2024-01-10", "alborn", 1.0, 20.0, 0.1));
    store.create_work_log(new_log("2024-01-10", "museum", 2.0, 18.0, 0.1));
    store.create_work_log(new_log("2024-01-10", "alborn", 3.0, 20.0, 0.1));
    let all = store.list_all();
    let ids: Vec<i32> = all.work_logs.iter().map(|w| w.id).collect();
    assert_eq!(ids, vec![1, 2, 3]);
}

#[test]
fn delete_absent_work_log_leaves_store_unchanged() {
    let mut store = AppData::load(None);
    store.create_work_log(new_log("2024-01-01", "alborn", 1.0, 20.0, 0.1));
    store.create_work_log(new_log("2024-01-02", "museum", 2.0, 18.0, 0.1));
    store.create_work_log(new_log("2024-01-03", "alborn", 3.0, 20.0, 0.1));
    let before = store.list_all();
    assert!(!store.delete_work_log(999));
    let after = store.list_all();
    let before_ids: Vec<i32> = before.work_logs.iter().map(|w| w.id).collect();
    let after_ids: Vec<i32> = after.work_logs.iter().map(|w| w.id).collect();
    assert_eq!(before_ids, vec![1, 2, 3]);
    assert_eq!(after_ids, vec![1, 2, 3]);
}

#[test]
fn deleted_work_log_id_is_never_reused() {
    let mut store = AppData::load(None);
    store.create_work_log(new_log("2024-01-01", "alborn", 1.0, 20.0, 0.1));
    store.create_work_log(new_log("2024-01-02", "museum", 2.0, 18.0, 0.1));
    assert!(store.delete_work_log(2));
    let again = store.create_work_log(new_log("2024-01-03", "alborn", 3.0, 20.0, 0.1));
    assert_eq!(again.id, 3);
}

#[test]
fn upsert_same_date_overwrites_in_place() {
    let mut store = AppData::load(None);
    let first = store.upsert_balance_snapshot(new_snapshot("2024-02-01", 100.0, "start"));
    assert_eq!(first.id, 1);
    let second = store.upsert_balance_snapshot(new_snapshot("2024-02-01", 250.0, "update"));
    assert_eq!(second.id, 1);
    assert_eq!(f64::from_bits(second.checking), 250.0);
    let all = store.list_all();
    assert_eq!(all.balance_snapshots.len(), 1);
    assert_eq!(all.balance_snapshots[0].id, 1);
    assert_eq!(f64::from_bits(all.balance_snapshots[0].checking), 250.0);
    assert_eq!(all.balance_snapshots[0].note, "update");
}

#[test]
fn upsert_keeps_existing_id_from_loaded_data() {
    let data = FinanceData {
        jobs: Vec::new(),
        work_logs: Vec::new(),
        balance_snapshots: vec![BalanceSnapshot {
            id: 5,
            date: "2024-02-01".to_string(),
            checking: (100.0f64).to_bits(),
            credit_available: (500.0f64).to_bits(),
            credit_limit: (1000.0f64).to_bits(),
            personal_debt: (0.0f64).to_bits(),
            note: String::new(),
        }],
    };
    let mut store = AppData::init(Some(data));
    let updated = store.upsert_balance_snapshot(new_snapshot("2024-02-01", 250.0, ""));
    assert_eq!(updated.id, 5);
    assert_eq!(f64::from_bits(updated.checking), 250.0);
    let all = store.list_all();
    assert_eq!(all.balance_snapshots.len(), 1);
    assert_eq!(all.balance_snapshots[0].id, 5);
    assert_eq!(f64::from_bits(all.balance_snapshots[0].checking), 250.0);
}

#[test]
fn upsert_two_dates_yields_two_snapshots_sorted() {
    let mut store = AppData::load(None);
    store.upsert_balance_snapshot(new_snapshot("2024-03-01", 50.0, "b"));
    store.upsert_balance_snapshot(new_snapshot("2024-02-01", 40.0, "a"));
    let all = store.list_all();
    assert_eq!(all.balance_snapshots.len(), 2);
    assert_eq!(all.balance_snapshots[0].date, "2024-02-01");
    assert_eq!(all.balance_snapshots[1].date, "2024-03-01");
}

#[test]
fn delete_absent_snapshot_reports_not_found() {
    let mut store = AppData::load(None);
    store.upsert_balance_snapshot(new_snapshot("2024-02-01", 40.0, "a"));
    assert!(!store.delete_balance_snapshot(7));
    assert!(store.delete_balance_snapshot(1));
    assert!(!store.delete_balance_snapshot(1));
    assert_eq!(store.list_all().balance_snapshots.len(), 0);
}

#[test]
fn job_catalog_is_fixed() {
    let store = AppData::load(None);
    let jobs: Vec<Job> = store.list_jobs();
    assert_eq!(jobs.len(), 2);
    assert_eq!(jobs[0].id, "alborn");
    assert_eq!(jobs[0].name, "Alborn");
    assert_eq!(jobs[1].id, "museum");
    assert_eq!(jobs[1].name, "Museum");
    let all = store.list_all();
    assert_eq!(all.jobs.len(), 2);
    assert_eq!(all.jobs[0].id, "alborn");
}

#[test]
fn invalid_loaded_data_starts_fresh() {
    // duplicate ids break the store's invariants, so the dataset is refused
    let data = FinanceData {
        jobs: Vec::new(),
        work_logs: vec![
            WorkLog {
                id: 3,
                date: "2024-01-01".to_string(),
                job_id: "alborn".to_string(),
                hours: 0,
                pay_rate: 0,
                tax_rate: 0,
                pay_cashed: false,
            },
            WorkLog {
                id: 3,
                date: "2024-01-02".to_string(),
                job_id: "museum".to_string(),
                hours: 0,
                pay_rate: 0,
                tax_rate: 0,
                pay_cashed: false,
            },
        ],
        balance_snapshots: Vec::new(),
    };
    let mut store = AppData::init(Some(data));
    assert_eq!(store.list_all().work_logs.len(), 0);
    let first = store.create_work_log(new_log("2024-01-01", "alborn", 1.0, 20.0, 0.1));
    assert_eq!(first.id, 1);
}

#[test]
fn loaded_data_resumes_id_allocation_past_the_maximum() {
    let data = FinanceData {
        jobs: Vec::new(),
        work_logs: vec![WorkLog {
            id: 41,
            date: "2024-01-01".to_string(),
            job_id: "alborn".to_string(),
            hours: (2.0f64).to_bits(),
            pay_rate: (20.0f64).to_bits(),
            tax_rate: (0.1f64).to_bits(),
            pay_cashed: true,
        }],
        balance_snapshots: Vec::new(),
    };
    let mut store = AppData::init(Some(data));
    let next = store.create_work_log(new_log("2024-01-05", "museum", 1.0, 18.0, 0.1));
    assert_eq!(next.id, 42);
}

#[test]
fn api_response_and_weather_shapes() {
    let ok = finance_store::types::ApiResponse { ok: true };
    let failed = finance_store::types::ApiResponse { ok: false };
    assert_ne!(ok, failed);
    assert_eq!(ok, finance_store::types::ApiResponse { ok: true });
    let degraded = finance_store::types::Weather { current_f: 0, high_f: 0, low_f: 0 };
    assert_eq!(degraded.current_f, 0);
    assert_eq!(degraded, finance_store::types::Weather { current_f: 0, high_f: 0, low_f: 0 });
}
