use finance_store::codec::{parse_finance_data, serialize_finance_data};
use finance_store::store::AppData;
use finance_store::types::{
    BalanceSnapshot, FinanceData, Job, NewBalanceSnapshot, NewWorkLog, WorkLog,
};

fn sample_data() -> FinanceData {
    FinanceData {
        jobs: vec![
            Job { id: "alborn".to_string(), name: "Alborn".to_string() },
            Job { id: "museum".to_string(), name: "Museum".to_string() },
        ],
        work_logs: vec![
            WorkLog {
                id: 1,
                date: "2024-01-10".to_string(),
                job_id: "alborn".to_string(),
                hours: (4.0f64).to_bits(),
                pay_rate: (20.0f64).to_bits(),
                tax_rate: (0.1f64).to_bits(),
                pay_cashed: false,
            },
            WorkLog {
                id: 2,
                date: "2024-02-01".to_string(),
                job_id: "museum".to_string(),
                hours: (7.5f64).to_bits(),
                pay_rate: (18.25f64).to_bits(),
                tax_rate: (0.2f64).to_bits(),
                pay_cashed: true,
            },
        ],
        balance_snapshots: vec![BalanceSnapshot {
            id: 1,
            date: "2024-02-01".to_string(),
            checking: (100.5f64).to_bits(),
            credit_available: (500.0f64).to_bits(),
            credit_limit: (1000.0f64).to_bits(),
            personal_debt: (-25.0f64).to_bits(),
            note: "quote \" and backslash \\ survive".to_string(),
        }],
    }
}

fn assert_data_eq(a: &FinanceData, b: &FinanceData) {
    assert_eq!(a.jobs.len(), b.jobs.len());
    for (x, y) in a.jobs.iter().zip(b.jobs.iter()) {
        assert_eq!(x.id, y.id);
        assert_eq!(x.name, y.name);
    }
    assert_eq!(a.work_logs.len(), b.work_logs.len());
    for (x, y) in a.work_logs.iter().zip(b.work_logs.iter()) {
        assert_eq!(x.id, y.id);
        assert_eq!(x.date, y.date);
        assert_eq!(x.job_id, y.job_id);
        assert_eq!(x.hours, y.hours);
        assert_eq!(x.pay_rate, y.pay_rate);
        assert_eq!(x.tax_rate, y.tax_rate);
        assert_eq!(x.pay_cashed, y.pay_cashed);
    }
    assert_eq!(a.balance_snapshots.len(), b.balance_snapshots.len());
    for (x, y) in a.balance_snapshots.iter().zip(b.balance_snapshots.iter()) {
        assert_eq!(x.id, y.id);
        assert_eq!(x.date, y.date);
        assert_eq!(x.checking, y.checking);
        assert_eq!(x.credit_available, y.credit_available);
        assert_eq!(x.credit_limit, y.credit_limit);
        assert_eq!(x.personal_debt, y.personal_debt);
        assert_eq!(x.note, y.note);
    }
}

#[test]
fn empty_dataset_has_exact_text() {
    let data = FinanceData { jobs: Vec::new(), work_logs: Vec::new(), balance_snapshots: Vec::new() };
    let text = serialize_finance_data(&data);
    assert_eq!(text, "{\n  \"jobs\": [],\n  \"workLogs\": [],\n  \"balanceSnapshots\": []\n}");
}

#[test]
fn job_list_has_exact_text() {
    let data = FinanceData {
        jobs: vec![Job { id: "alborn".to_string(), name: "Alborn".to_string() }],
        work_logs: Vec::new(),
        balance_snapshots: Vec::new(),
    };
    let text = serialize_finance_data(&data);
    assert_eq!(
        text,
        "{\n  \"jobs\": [\n    {\"id\": \"alborn\", \"name\": \"Alborn\"}\n  ],\n  \"workLogs\": [],\n  \"balanceSnapshots\": []\n}"
    );
}

#[test]
fn round_trip_reproduces_the_dataset() {
    let data = sample_data();
    let text = serialize_finance_data(&data);
    let back = parse_finance_data(&text).expect("canonical text decodes");
    assert_data_eq(&data, &back);
}

#[test]
fn round_trip_of_empty_dataset() {
    let data = FinanceData { jobs: Vec::new(), work_logs: Vec::new(), balance_snapshots: Vec::new() };
    let text = serialize_finance_data(&data);
    let back = parse_finance_data(&text).expect("canonical text decodes");
    assert_data_eq(&data, &back);
}

#[test]
fn malformed_text_is_rejected() {
    assert!(parse_finance_data("").is_none());
    assert!(parse_finance_data("{}").is_none());
    assert!(parse_finance_data("not json at all").is_none());
    assert!(parse_finance_data("{\n  \"jobs\": [],\n  \"workLogs\": [],\n  \"balanceSnapshots\": []\n} trailing").is_none());
    assert!(parse_finance_data("{\n  \"jobs\": [],\n  \"workLogs\": [],\n  \"balanceSnapshots\": [\n}").is_none());
}

#[test]
fn malformed_file_starts_a_fresh_store() {
    let store = AppData::load(Some("corrupted {{{"));
    let all = store.list_all();
    assert_eq!(all.work_logs.len(), 0);
    assert_eq!(all.balance_snapshots.len(), 0);
    assert_eq!(all.jobs.len(), 2);
    assert_eq!(all.jobs[0].id, "alborn");
    assert_eq!(all.jobs[1].id, "museum");
}

#[test]
fn save_then_load_reproduces_the_store() {
    let mut store = AppData::load(None);
    store.create_work_log(NewWorkLog {
        date: "2024-01-10".to_string(),
        job_id: "alborn".to_string(),
        hours: (4.0f64).to_bits(),
        pay_rate: (20.0f64).to_bits(),
        tax_rate: (0.1f64).to_bits(),
        pay_cashed: false,
    });
    store.upsert_balance_snapshot(NewBalanceSnapshot {
        date: "2024-02-01".to_string(),
        checking: (100.0f64).to_bits(),
        credit_available: (500.0f64).to_bits(),
        credit_limit: (1000.0f64).to_bits(),
        personal_debt: (0.0f64).to_bits(),
        note: "first".to_string(),
    });
    let saved = serialize_finance_data(&store.list_all());
    let reloaded = AppData::load(Some(&saved));
    assert_data_eq(&store.list_all(), &reloaded.list_all());
    let again = serialize_finance_data(&reloaded.list_all());
    assert_eq!(saved, again);
}

#[test]
fn integer_texts_round_trip() {
    for id in [1i32, 9, 10, 42, 2147483647] {
        let data = FinanceData {
            jobs: Vec::new(),
            work_logs: vec![WorkLog {
                id,
                date: "2024-01-01".to_string(),
                job_id: "a".to_string(),
                hours: u64::MAX,
                pay_rate: 0,
                tax_rate: 1,
                pay_cashed: false,
            }],
            balance_snapshots: Vec::new(),
        };
        let text = serialize_finance_data(&data);
        let back = parse_finance_data(&text).expect("canonical text decodes");
        assert_eq!(back.work_logs[0].id, id);
        assert_eq!(back.work_logs[0].hours, u64::MAX);
        assert_eq!(back.work_logs[0].pay_rate, 0);
        assert_eq!(back.work_logs[0].tax_rate, 1);
    }
}
