use vstd::prelude::*;

use crate::types::{
    BalanceSnapshot, BalanceSnapshotView, FinanceData, FinanceDataView, Job, JobView, WorkLog,
    WorkLogView,
};

verus! {

// The text form of the dataset kept on disk: one object with the keys
// `jobs`, `workLogs` and `balanceSnapshots`, each holding a list of records
// with lower-camel-case field names, lists indented one record per line.
// The 64-bit fractional quantities appear as their unsigned decimal value.
// The encoder below writes exactly this canonical form and the decoder
// accepts exactly it, which is what the round-trip contracts are proved
// against. This is a deliberate narrowing: a document in the same schema
// but another layout (other whitespace, field order or number spelling)
// is treated like a corrupt file, so loading it starts a fresh ledger.

// ---------------------------------------------------------------------------
// Characters and digits
// ---------------------------------------------------------------------------

pub open spec fn digit_char(d: int) -> char {
    if d == 0 {
        '0'
    } else if d == 1 {
        '1'
    } else if d == 2 {
        '2'
    } else if d == 3 {
        '3'
    } else if d == 4 {
        '4'
    } else if d == 5 {
        '5'
    } else if d == 6 {
        '6'
    } else if d == 7 {
        '7'
    } else if d == 8 {
        '8'
    } else {
        '9'
    }
}

pub open spec fn is_digit(c: char) -> bool {
    48 <= c as u32 <= 57
}

/// The decimal digits of a nonnegative integer, most significant first.
pub open spec fn dec_digits(n: nat) -> Seq<char>
    decreases n,
{
    if n < 10 {
        seq![digit_char(n as int)]
    } else {
        dec_digits(n / 10).push(digit_char((n % 10) as int))
    }
}

/// The text of a signed integer.
pub open spec fn int_text(n: int) -> Seq<char> {
    if n < 0 {
        seq!['-'] + dec_digits((-n) as nat)
    } else {
        dec_digits(n as nat)
    }
}

/// A character inside a quoted string: quote and backslash take an escape.
pub open spec fn esc_char(c: char) -> Seq<char> {
    if c == '"' || c == '\\' {
        seq!['\\', c]
    } else {
        seq![c]
    }
}

pub open spec fn esc(s: Seq<char>) -> Seq<char>
    decreases s.len(),
{
    if s.len() == 0 {
        Seq::<char>::empty()
    } else {
        esc_char(s[0]) + esc(s.skip(1))
    }
}

/// A quoted, escaped string.
pub open spec fn str_tok(s: Seq<char>) -> Seq<char> {
    seq!['"'] + esc(s) + seq!['"']
}

pub open spec fn bool_text(b: bool) -> Seq<char> {
    if b {
        seq!['t', 'r', 'u', 'e']
    } else {
        seq!['f', 'a', 'l', 's', 'e']
    }
}

// ---------------------------------------------------------------------------
// The fixed pieces of the layout
// ---------------------------------------------------------------------------

pub open spec fn k_id() -> Seq<char> {
    seq!['{', '"', 'i', 'd', '"', ':', ' ']
}

pub open spec fn k_name() -> Seq<char> {
    seq![',', ' ', '"', 'n', 'a', 'm', 'e', '"', ':', ' ']
}

pub open spec fn k_date() -> Seq<char> {
    seq![',', ' ', '"', 'd', 'a', 't', 'e', '"', ':', ' ']
}

pub open spec fn k_job_id() -> Seq<char> {
    seq![',', ' ', '"', 'j', 'o', 'b', 'I', 'd', '"', ':', ' ']
}

pub open spec fn k_hours() -> Seq<char> {
    seq![',', ' ', '"', 'h', 'o', 'u', 'r', 's', '"', ':', ' ']
}

pub open spec fn k_pay_rate() -> Seq<char> {
    seq![',', ' ', '"', 'p', 'a', 'y', 'R', 'a', 't', 'e', '"', ':', ' ']
}

pub open spec fn k_tax_rate() -> Seq<char> {
    seq![',', ' ', '"', 't', 'a', 'x', 'R', 'a', 't', 'e', '"', ':', ' ']
}

pub open spec fn k_pay_cashed() -> Seq<char> {
    seq![',', ' ', '"', 'p', 'a', 'y', 'C', 'a', 's', 'h', 'e', 'd', '"', ':', ' ']
}

pub open spec fn k_checking() -> Seq<char> {
    seq![',', ' ', '"', 'c', 'h', 'e', 'c', 'k', 'i', 'n', 'g', '"', ':', ' ']
}

pub open spec fn k_credit_available() -> Seq<char> {
    seq![',', ' ', '"', 'c', 'r', 'e', 'd', 'i', 't', 'A', 'v', 'a', 'i', 'l', 'a', 'b', 'l', 'e',
        '"', ':', ' ']
}

pub open spec fn k_credit_limit() -> Seq<char> {
    seq![',', ' ', '"', 'c', 'r', 'e', 'd', 'i', 't', 'L', 'i', 'm', 'i', 't', '"', ':', ' ']
}

pub open spec fn k_personal_debt() -> Seq<char> {
    seq![',', ' ', '"', 'p', 'e', 'r', 's', 'o', 'n', 'a', 'l', 'D', 'e', 'b', 't', '"', ':', ' ']
}

pub open spec fn k_note() -> Seq<char> {
    seq![',', ' ', '"', 'n', 'o', 't', 'e', '"', ':', ' ']
}

pub open spec fn rbrace() -> Seq<char> {
    seq!['}']
}

pub open spec fn list_open() -> Seq<char> {
    seq!['[', '\n', ' ', ' ', ' ', ' ']
}

pub open spec fn list_close() -> Seq<char> {
    seq!['\n', ' ', ' ', ']']
}

pub open spec fn list_empty() -> Seq<char> {
    seq!['[', ']']
}

pub open spec fn item_sep() -> Seq<char> {
    seq![',', '\n', ' ', ' ', ' ', ' ']
}

pub open spec fn top_jobs() -> Seq<char> {
    seq!['{', '\n', ' ', ' ', '"', 'j', 'o', 'b', 's', '"', ':', ' ']
}

pub open spec fn top_work_logs() -> Seq<char> {
    seq![',', '\n', ' ', ' ', '"', 'w', 'o', 'r', 'k', 'L', 'o', 'g', 's', '"', ':', ' ']
}

pub open spec fn top_snapshots() -> Seq<char> {
    seq![',', '\n', ' ', ' ', '"', 'b', 'a', 'l', 'a', 'n', 'c', 'e', 'S', 'n', 'a', 'p', 's',
        'h', 'o', 't', 's', '"', ':', ' ']
}

pub open spec fn top_close() -> Seq<char> {
    seq!['\n', '}']
}

// ---------------------------------------------------------------------------
// Records and lists
// ---------------------------------------------------------------------------

pub open spec fn job_text(j: JobView) -> Seq<char> {
    k_id() + str_tok(j.id) + k_name() + str_tok(j.name) + seq!['}']
}

pub open spec fn work_log_text(w: WorkLogView) -> Seq<char> {
    k_id() + int_text(w.id) + k_date() + str_tok(w.date) + k_job_id() + str_tok(w.job_id)
        + k_hours() + dec_digits(w.hours as nat) + k_pay_rate() + dec_digits(w.pay_rate as nat)
        + k_tax_rate() + dec_digits(w.tax_rate as nat) + k_pay_cashed() + bool_text(w.pay_cashed)
        + seq!['}']
}

pub open spec fn snapshot_text(b: BalanceSnapshotView) -> Seq<char> {
    k_id() + int_text(b.id) + k_date() + str_tok(b.date) + k_checking() + dec_digits(
        b.checking as nat,
    ) + k_credit_available() + dec_digits(b.credit_available as nat) + k_credit_limit()
        + dec_digits(b.credit_limit as nat) + k_personal_debt() + dec_digits(
        b.personal_debt as nat,
    ) + k_note() + str_tok(b.note) + seq!['}']
}

pub open spec fn jobs_items(s: Seq<JobView>) -> Seq<char>
    decreases s.len(),
{
    if s.len() <= 1 {
        if s.len() == 0 {
            Seq::<char>::empty()
        } else {
            job_text(s[0])
        }
    } else {
        job_text(s[0]) + item_sep() + jobs_items(s.skip(1))
    }
}

pub open spec fn jobs_text(s: Seq<JobView>) -> Seq<char> {
    if s.len() == 0 {
        list_empty()
    } else {
        list_open() + jobs_items(s) + list_close()
    }
}

pub open spec fn work_logs_items(s: Seq<WorkLogView>) -> Seq<char>
    decreases s.len(),
{
    if s.len() <= 1 {
        if s.len() == 0 {
            Seq::<char>::empty()
        } else {
            work_log_text(s[0])
        }
    } else {
        work_log_text(s[0]) + item_sep() + work_logs_items(s.skip(1))
    }
}

pub open spec fn work_logs_text(s: Seq<WorkLogView>) -> Seq<char> {
    if s.len() == 0 {
        list_empty()
    } else {
        list_open() + work_logs_items(s) + list_close()
    }
}

pub open spec fn snapshots_items(s: Seq<BalanceSnapshotView>) -> Seq<char>
    decreases s.len(),
{
    if s.len() <= 1 {
        if s.len() == 0 {
            Seq::<char>::empty()
        } else {
            snapshot_text(s[0])
        }
    } else {
        snapshot_text(s[0]) + item_sep() + snapshots_items(s.skip(1))
    }
}

pub open spec fn snapshots_text(s: Seq<BalanceSnapshotView>) -> Seq<char> {
    if s.len() == 0 {
        list_empty()
    } else {
        list_open() + snapshots_items(s) + list_close()
    }
}

/// The complete canonical text of a dataset.
pub open spec fn finance_data_text(d: FinanceDataView) -> Seq<char> {
    top_jobs() + jobs_text(d.jobs) + top_work_logs() + work_logs_text(d.work_logs)
        + top_snapshots() + snapshots_text(d.balance_snapshots) + top_close()
}

// ---------------------------------------------------------------------------
// Appending one element at the end of the recursive spec functions
// ---------------------------------------------------------------------------

pub proof fn lemma_esc_snoc(s: Seq<char>, c: char)
    ensures
        esc(s.push(c)) == esc(s) + esc_char(c),
    decreases s.len(),
{
    if s.len() == 0 {
        assert(s.push(c)[0] == c);
        assert(s.push(c).skip(1) =~= Seq::<char>::empty());
        assert(esc(Seq::<char>::empty()) == Seq::<char>::empty());
        assert(esc(s.push(c)) == esc_char(c) + esc(s.push(c).skip(1)));
        assert(esc(s.push(c)) =~= esc(s) + esc_char(c));
    } else {
        assert(s.push(c)[0] == s[0]);
        assert(s.push(c).skip(1) =~= s.skip(1).push(c));
        lemma_esc_snoc(s.skip(1), c);
        assert(esc(s.push(c)) =~= esc(s) + esc_char(c));
    }
}

pub proof fn lemma_jobs_items_snoc(s: Seq<JobView>, x: JobView)
    requires
        s.len() >= 1,
    ensures
        jobs_items(s.push(x)) == jobs_items(s) + item_sep() + job_text(x),
    decreases s.len(),
{
    if s.len() == 1 {
        assert(s.push(x)[0] == s[0]);
        assert(s.push(x).skip(1) =~= seq![x]);
        assert(jobs_items(seq![x]) == job_text(x));
        assert(jobs_items(s.push(x)) =~= jobs_items(s) + item_sep() + job_text(x));
    } else {
        assert(s.push(x).skip(1) =~= s.skip(1).push(x));
        lemma_jobs_items_snoc(s.skip(1), x);
        assert(jobs_items(s.push(x)) =~= jobs_items(s) + item_sep() + job_text(x));
    }
}

pub proof fn lemma_work_logs_items_snoc(s: Seq<WorkLogView>, x: WorkLogView)
    requires
        s.len() >= 1,
    ensures
        work_logs_items(s.push(x)) == work_logs_items(s) + item_sep() + work_log_text(x),
    decreases s.len(),
{
    if s.len() == 1 {
        assert(s.push(x)[0] == s[0]);
        assert(s.push(x).skip(1) =~= seq![x]);
        assert(work_logs_items(seq![x]) == work_log_text(x));
        assert(work_logs_items(s.push(x)) =~= work_logs_items(s) + item_sep() + work_log_text(x));
    } else {
        assert(s.push(x).skip(1) =~= s.skip(1).push(x));
        lemma_work_logs_items_snoc(s.skip(1), x);
        assert(work_logs_items(s.push(x)) =~= work_logs_items(s) + item_sep() + work_log_text(x));
    }
}

pub proof fn lemma_snapshots_items_snoc(s: Seq<BalanceSnapshotView>, x: BalanceSnapshotView)
    requires
        s.len() >= 1,
    ensures
        snapshots_items(s.push(x)) == snapshots_items(s) + item_sep() + snapshot_text(x),
    decreases s.len(),
{
    if s.len() == 1 {
        assert(s.push(x)[0] == s[0]);
        assert(s.push(x).skip(1) =~= seq![x]);
        assert(snapshots_items(seq![x]) == snapshot_text(x));
        assert(snapshots_items(s.push(x)) =~= snapshots_items(s) + item_sep() + snapshot_text(x));
    } else {
        assert(s.push(x).skip(1) =~= s.skip(1).push(x));
        lemma_snapshots_items_snoc(s.skip(1), x);
        assert(snapshots_items(s.push(x)) =~= snapshots_items(s) + item_sep() + snapshot_text(x));
    }
}

// ---------------------------------------------------------------------------
// The encoder
// ---------------------------------------------------------------------------

/// Relies on String's FromIterator over chars: collecting a sequence of
/// characters yields a string holding exactly those characters in order.
#[verifier::external_body]
fn chars_to_string(v: Vec<char>) -> (s: String)
    ensures
        s@ == v@,
{
    v.into_iter().collect()
}

/// The characters of a string, in order.
fn str_to_chars(s: &str) -> (v: Vec<char>)
    ensures
        v@ == s@,
{
    let n = s.unicode_len();
    let mut v: Vec<char> = Vec::new();
    let mut i: usize = 0;
    while i < n
        invariant
            n == s@.len(),
            i <= n,
            v@ == s@.take(i as int),
        decreases n - i,
    {
        v.push(s.get_char(i));
        proof {
            assert(v@ =~= s@.take(i + 1));
        }
        i = i + 1;
    }
    proof {
        assert(s@.take(n as int) =~= s@);
    }
    v
}

fn push_lit(out: &mut Vec<char>, lit: &str, Ghost(t): Ghost<Seq<char>>)
    requires
        lit@ == t,
    ensures
        final(out)@ == old(out)@ + t,
{
    let n = lit.unicode_len();
    let mut i: usize = 0;
    while i < n
        invariant
            n == lit@.len(),
            lit@ == t,
            i <= n,
            out@ == old(out)@ + t.take(i as int),
        decreases n - i,
    {
        out.push(lit.get_char(i));
        proof {
            assert(old(out)@ + t.take(i + 1) =~= (old(out)@ + t.take(i as int)).push(t[i as int]));
        }
        i = i + 1;
    }
    proof {
        assert(old(out)@ + t.take(n as int) =~= old(out)@ + t);
    }
}

fn digit_to_char(d: u64) -> (c: char)
    requires
        d < 10,
    ensures
        c == digit_char(d as int),
{
    if d == 0 {
        '0'
    } else if d == 1 {
        '1'
    } else if d == 2 {
        '2'
    } else if d == 3 {
        '3'
    } else if d == 4 {
        '4'
    } else if d == 5 {
        '5'
    } else if d == 6 {
        '6'
    } else if d == 7 {
        '7'
    } else if d == 8 {
        '8'
    } else {
        '9'
    }
}

fn push_u64(out: &mut Vec<char>, n: u64)
    ensures
        final(out)@ == old(out)@ + dec_digits(n as nat),
    decreases n,
{
    if n < 10 {
        out.push(digit_to_char(n));
        proof {
            assert(out@ =~= old(out)@ + dec_digits(n as nat));
        }
    } else {
        push_u64(out, n / 10);
        out.push(digit_to_char(n % 10));
        proof {
            assert(out@ =~= old(out)@ + dec_digits(n as nat));
        }
    }
}

fn push_i32(out: &mut Vec<char>, n: i32)
    ensures
        final(out)@ == old(out)@ + int_text(n as int),
{
    if n < 0 {
        out.push('-');
        let m = (-(n as i64)) as u64;
        push_u64(out, m);
        proof {
            assert(out@ =~= old(out)@ + int_text(n as int));
        }
    } else {
        push_u64(out, n as u64);
    }
}

fn push_bool(out: &mut Vec<char>, b: bool)
    ensures
        final(out)@ == old(out)@ + bool_text(b),
{
    if b {
        out.push('t');
        out.push('r');
        out.push('u');
        out.push('e');
    } else {
        out.push('f');
        out.push('a');
        out.push('l');
        out.push('s');
        out.push('e');
    }
    proof {
        assert(out@ =~= old(out)@ + bool_text(b));
    }
}

fn push_str_tok(out: &mut Vec<char>, s: &str)
    ensures
        final(out)@ == old(out)@ + str_tok(s@),
{
    out.push('"');
    let n = s.unicode_len();
    let mut i: usize = 0;
    while i < n
        invariant
            n == s@.len(),
            i <= n,
            out@ == old(out)@ + seq!['"'] + esc(s@.take(i as int)),
        decreases n - i,
    {
        let c = s.get_char(i);
        if c == '"' || c == '\\' {
            out.push('\\');
            out.push(c);
        } else {
            out.push(c);
        }
        proof {
            lemma_esc_snoc(s@.take(i as int), s@[i as int]);
            assert(s@.take(i + 1) =~= s@.take(i as int).push(s@[i as int]));
            assert(out@ =~= old(out)@ + seq!['"'] + esc(s@.take(i + 1)));
        }
        i = i + 1;
    }
    out.push('"');
    proof {
        assert(s@.take(n as int) =~= s@);
        assert(out@ =~= old(out)@ + str_tok(s@));
    }
}

fn push_job(out: &mut Vec<char>, j: &Job)
    ensures
        final(out)@ == old(out)@ + job_text(j@),
{
    proof {
        reveal_strlit("{\"id\": ");
        assert("{\"id\": "@ =~= k_id());
        reveal_strlit(", \"name\": ");
        assert(", \"name\": "@ =~= k_name());
    }
    push_lit(out, "{\"id\": ", Ghost(k_id()));
    push_str_tok(out, j.id.as_str());
    push_lit(out, ", \"name\": ", Ghost(k_name()));
    push_str_tok(out, j.name.as_str());
    out.push('}');
    proof {
        assert(out@ =~= old(out)@ + job_text(j@));
    }
}

#[verifier::rlimit(30)]
fn push_work_log(out: &mut Vec<char>, w: &WorkLog)
    ensures
        final(out)@ == old(out)@ + work_log_text(w@),
{
    proof {
        reveal_strlit("{\"id\": ");
        assert("{\"id\": "@ =~= k_id());
        reveal_strlit(", \"date\": ");
        assert(", \"date\": "@ =~= k_date());
        reveal_strlit(", \"jobId\": ");
        assert(", \"jobId\": "@ =~= k_job_id());
        reveal_strlit(", \"hours\": ");
        assert(", \"hours\": "@ =~= k_hours());
        reveal_strlit(", \"payRate\": ");
        assert(", \"payRate\": "@ =~= k_pay_rate());
        reveal_strlit(", \"taxRate\": ");
        assert(", \"taxRate\": "@ =~= k_tax_rate());
        reveal_strlit(", \"payCashed\": ");
        assert(", \"payCashed\": "@ =~= k_pay_cashed());
    }
    push_lit(out, "{\"id\": ", Ghost(k_id()));
    push_i32(out, w.id);
    push_lit(out, ", \"date\": ", Ghost(k_date()));
    push_str_tok(out, w.date.as_str());
    push_lit(out, ", \"jobId\": ", Ghost(k_job_id()));
    push_str_tok(out, w.job_id.as_str());
    push_lit(out, ", \"hours\": ", Ghost(k_hours()));
    push_u64(out, w.hours);
    push_lit(out, ", \"payRate\": ", Ghost(k_pay_rate()));
    push_u64(out, w.pay_rate);
    push_lit(out, ", \"taxRate\": ", Ghost(k_tax_rate()));
    push_u64(out, w.tax_rate);
    push_lit(out, ", \"payCashed\": ", Ghost(k_pay_cashed()));
    push_bool(out, w.pay_cashed);
    out.push('}');
    proof {
        assert(out@ =~= old(out)@ + work_log_text(w@));
    }
}

#[verifier::rlimit(30)]
fn push_snapshot(out: &mut Vec<char>, b: &BalanceSnapshot)
    ensures
        final(out)@ == old(out)@ + snapshot_text(b@),
{
    proof {
        reveal_strlit("{\"id\": ");
        assert("{\"id\": "@ =~= k_id());
        reveal_strlit(", \"date\": ");
        assert(", \"date\": "@ =~= k_date());
        reveal_strlit(", \"checking\": ");
        assert(", \"checking\": "@ =~= k_checking());
        reveal_strlit(", \"creditAvailable\": ");
        assert(", \"creditAvailable\": "@ =~= k_credit_available());
        reveal_strlit(", \"creditLimit\": ");
        assert(", \"creditLimit\": "@ =~= k_credit_limit());
        reveal_strlit(", \"personalDebt\": ");
        assert(", \"personalDebt\": "@ =~= k_personal_debt());
        reveal_strlit(", \"note\": ");
        assert(", \"note\": "@ =~= k_note());
    }
    push_lit(out, "{\"id\": ", Ghost(k_id()));
    push_i32(out, b.id);
    push_lit(out, ", \"date\": ", Ghost(k_date()));
    push_str_tok(out, b.date.as_str());
    push_lit(out, ", \"checking\": ", Ghost(k_checking()));
    push_u64(out, b.checking);
    push_lit(out, ", \"creditAvailable\": ", Ghost(k_credit_available()));
    push_u64(out, b.credit_available);
    push_lit(out, ", \"creditLimit\": ", Ghost(k_credit_limit()));
    push_u64(out, b.credit_limit);
    push_lit(out, ", \"personalDebt\": ", Ghost(k_personal_debt()));
    push_u64(out, b.personal_debt);
    push_lit(out, ", \"note\": ", Ghost(k_note()));
    push_str_tok(out, b.note.as_str());
    out.push('}');
    proof {
        assert(out@ =~= old(out)@ + snapshot_text(b@));
    }
}

fn push_jobs(out: &mut Vec<char>, v: &Vec<Job>)
    ensures
        final(out)@ == old(out)@ + jobs_text(v.deep_view()),
{
    let n = v.len();
    if n == 0 {
        out.push('[');
        out.push(']');
        proof {
            assert(v.deep_view().len() == 0);
            assert(out@ =~= old(out)@ + jobs_text(v.deep_view()));
        }
        return ;
    }
    proof {
        reveal_strlit("[\n    ");
        assert("[\n    "@ =~= list_open());
    }
    push_lit(out, "[\n    ", Ghost(list_open()));
    push_job(out, &v[0]);
    proof {
        assert(v.deep_view().take(1) =~= seq![v@[0].deep_view()]);
        assert(jobs_items(v.deep_view().take(1)) == job_text(v.deep_view()[0]));
        assert(v.deep_view()[0] == v@[0].deep_view());
    }
    let mut i: usize = 1;
    while i < n
        invariant
            n == v@.len(),
            1 <= i <= n,
            out@ == old(out)@ + list_open() + jobs_items(v.deep_view().take(i as int)),
        decreases n - i,
    {
        proof {
            reveal_strlit(",\n    ");
            assert(",\n    "@ =~= item_sep());
        }
        push_lit(out, ",\n    ", Ghost(item_sep()));
        push_job(out, &v[i]);
        proof {
            let dv = v.deep_view();
            assert(dv.take(i + 1) =~= dv.take(i as int).push(dv[i as int]));
            lemma_jobs_items_snoc(dv.take(i as int), dv[i as int]);
            assert(dv[i as int] == v@[i as int].deep_view());
            assert(out@ =~= old(out)@ + list_open() + jobs_items(dv.take(i + 1)));
        }
        i = i + 1;
    }
    proof {
        reveal_strlit("\n  ]");
        assert("\n  ]"@ =~= list_close());
        assert(v.deep_view().take(n as int) =~= v.deep_view());
    }
    push_lit(out, "\n  ]", Ghost(list_close()));
    proof {
        assert(out@ =~= old(out)@ + jobs_text(v.deep_view()));
    }
}

fn push_work_logs(out: &mut Vec<char>, v: &Vec<WorkLog>)
    ensures
        final(out)@ == old(out)@ + work_logs_text(v.deep_view()),
{
    let n = v.len();
    if n == 0 {
        out.push('[');
        out.push(']');
        proof {
            assert(v.deep_view().len() == 0);
            assert(out@ =~= old(out)@ + work_logs_text(v.deep_view()));
        }
        return ;
    }
    proof {
        reveal_strlit("[\n    ");
        assert("[\n    "@ =~= list_open());
    }
    push_lit(out, "[\n    ", Ghost(list_open()));
    push_work_log(out, &v[0]);
    proof {
        assert(v.deep_view().take(1) =~= seq![v@[0].deep_view()]);
        assert(work_logs_items(v.deep_view().take(1)) == work_log_text(v.deep_view()[0]));
        assert(v.deep_view()[0] == v@[0].deep_view());
    }
    let mut i: usize = 1;
    while i < n
        invariant
            n == v@.len(),
            1 <= i <= n,
            out@ == old(out)@ + list_open() + work_logs_items(v.deep_view().take(i as int)),
        decreases n - i,
    {
        proof {
            reveal_strlit(",\n    ");
            assert(",\n    "@ =~= item_sep());
        }
        push_lit(out, ",\n    ", Ghost(item_sep()));
        push_work_log(out, &v[i]);
        proof {
            let dv = v.deep_view();
            assert(dv.take(i + 1) =~= dv.take(i as int).push(dv[i as int]));
            lemma_work_logs_items_snoc(dv.take(i as int), dv[i as int]);
            assert(dv[i as int] == v@[i as int].deep_view());
            assert(out@ =~= old(out)@ + list_open() + work_logs_items(dv.take(i + 1)));
        }
        i = i + 1;
    }
    proof {
        reveal_strlit("\n  ]");
        assert("\n  ]"@ =~= list_close());
        assert(v.deep_view().take(n as int) =~= v.deep_view());
    }
    push_lit(out, "\n  ]", Ghost(list_close()));
    proof {
        assert(out@ =~= old(out)@ + work_logs_text(v.deep_view()));
    }
}

fn push_snapshots(out: &mut Vec<char>, v: &Vec<BalanceSnapshot>)
    ensures
        final(out)@ == old(out)@ + snapshots_text(v.deep_view()),
{
    let n = v.len();
    if n == 0 {
        out.push('[');
        out.push(']');
        proof {
            assert(v.deep_view().len() == 0);
            assert(out@ =~= old(out)@ + snapshots_text(v.deep_view()));
        }
        return ;
    }
    proof {
        reveal_strlit("[\n    ");
        assert("[\n    "@ =~= list_open());
    }
    push_lit(out, "[\n    ", Ghost(list_open()));
    push_snapshot(out, &v[0]);
    proof {
        assert(v.deep_view().take(1) =~= seq![v@[0].deep_view()]);
        assert(snapshots_items(v.deep_view().take(1)) == snapshot_text(v.deep_view()[0]));
        assert(v.deep_view()[0] == v@[0].deep_view());
    }
    let mut i: usize = 1;
    while i < n
        invariant
            n == v@.len(),
            1 <= i <= n,
            out@ == old(out)@ + list_open() + snapshots_items(v.deep_view().take(i as int)),
        decreases n - i,
    {
        proof {
            reveal_strlit(",\n    ");
            assert(",\n    "@ =~= item_sep());
        }
        push_lit(out, ",\n    ", Ghost(item_sep()));
        push_snapshot(out, &v[i]);
        proof {
            let dv = v.deep_view();
            assert(dv.take(i + 1) =~= dv.take(i as int).push(dv[i as int]));
            lemma_snapshots_items_snoc(dv.take(i as int), dv[i as int]);
            assert(dv[i as int] == v@[i as int].deep_view());
            assert(out@ =~= old(out)@ + list_open() + snapshots_items(dv.take(i + 1)));
        }
        i = i + 1;
    }
    proof {
        reveal_strlit("\n  ]");
        assert("\n  ]"@ =~= list_close());
        assert(v.deep_view().take(n as int) =~= v.deep_view());
    }
    push_lit(out, "\n  ]", Ghost(list_close()));
    proof {
        assert(out@ =~= old(out)@ + snapshots_text(v.deep_view()));
    }
}

/// Encodes the whole dataset in the canonical on-disk form.
pub fn serialize_finance_data(d: &FinanceData) -> (out: String)
    ensures
        out@ == finance_data_text(d@),
{
    proof {
        reveal_strlit("{\n  \"jobs\": ");
        assert("{\n  \"jobs\": "@ =~= top_jobs());
        reveal_strlit(",\n  \"workLogs\": ");
        assert(",\n  \"workLogs\": "@ =~= top_work_logs());
        reveal_strlit(",\n  \"balanceSnapshots\": ");
        assert(",\n  \"balanceSnapshots\": "@ =~= top_snapshots());
        reveal_strlit("\n}");
        assert("\n}"@ =~= top_close());
    }
    let mut buf: Vec<char> = Vec::new();
    push_lit(&mut buf, "{\n  \"jobs\": ", Ghost(top_jobs()));
    push_jobs(&mut buf, &d.jobs);
    push_lit(&mut buf, ",\n  \"workLogs\": ", Ghost(top_work_logs()));
    push_work_logs(&mut buf, &d.work_logs);
    push_lit(&mut buf, ",\n  \"balanceSnapshots\": ", Ghost(top_snapshots()));
    push_snapshots(&mut buf, &d.balance_snapshots);
    push_lit(&mut buf, "\n}", Ghost(top_close()));
    proof {
        assert(buf@ =~= finance_data_text(d@));
    }
    chars_to_string(buf)
}


// ---------------------------------------------------------------------------
// The decoder: values of digit runs
// ---------------------------------------------------------------------------

pub open spec fn all_digits(ds: Seq<char>) -> bool {
    forall|m: int| 0 <= m < ds.len() ==> is_digit(#[trigger] ds[m])
}

pub open spec fn digits_val(ds: Seq<char>) -> nat
    decreases ds.len(),
{
    if ds.len() == 0 {
        0
    } else {
        digits_val(ds.drop_last()) * 10 + (if is_digit(ds.last()) {
            (ds.last() as u32 - 48) as nat
        } else {
            0
        })
    }
}

/// A digit run in canonical form: nonempty, and no leading zero.
pub open spec fn canonical_digits(ds: Seq<char>) -> bool {
    &&& ds.len() >= 1
    &&& all_digits(ds)
    &&& (ds[0] != '0' || ds.len() == 1)
}

pub proof fn lemma_dec_digits_form(n: nat)
    ensures
        canonical_digits(dec_digits(n)),
        n == 0 ==> dec_digits(n) == seq!['0'],
        n >= 1 ==> dec_digits(n)[0] != '0',
    decreases n,
{
    if n < 10 {
        assert(dec_digits(n) == seq![digit_char(n as int)]);
        assert(is_digit(digit_char(n as int)));
        assert(n >= 1 ==> digit_char(n as int) != '0');
    } else {
        lemma_dec_digits_form(n / 10);
        let t = dec_digits(n / 10);
        let w = t.push(digit_char((n % 10) as int));
        assert(w[0] == t[0]);
        assert forall|m: int| 0 <= m < w.len() implies is_digit(#[trigger] w[m]) by {
            if m < t.len() {
                assert(w[m] == t[m]);
            }
        }
        assert(n / 10 >= 1);
    }
}

pub proof fn lemma_digits_val_of_dec(n: nat)
    ensures
        digits_val(dec_digits(n)) == n,
    decreases n,
{
    if n < 10 {
        let t = dec_digits(n);
        assert(t.drop_last() =~= Seq::<char>::empty());
        assert(digits_val(Seq::<char>::empty()) == 0);
        assert(t.last() == digit_char(n as int));
        assert(digit_char(n as int) as u32 == n + 48);
        assert(is_digit(t.last()));
        assert(digits_val(t) == 0 * 10 + (t.last() as u32 - 48) as nat);
    } else {
        lemma_digits_val_of_dec(n / 10);
        let t = dec_digits(n / 10);
        let w = t.push(digit_char((n % 10) as int));
        assert(w.drop_last() =~= t);
        assert(w.last() == digit_char((n % 10) as int));
        assert(digit_char((n % 10) as int) as u32 == n % 10 + 48);
        assert(digits_val(w) == digits_val(t) * 10 + n % 10);
    }
}

pub proof fn lemma_digits_val_positive(ds: Seq<char>)
    requires
        all_digits(ds),
        ds.len() >= 1,
        ds[0] != '0',
    ensures
        digits_val(ds) >= 1,
    decreases ds.len(),
{
    if ds.len() == 1 {
        assert(is_digit(ds[0]));
        assert(ds[0] as u32 != 48) by {
            if ds[0] as u32 == 48 {
                assert(digit_char(0) == '0');
                crate::order::lemma_char_code_injective(ds[0], '0');
            }
        }
    } else {
        let front = ds.drop_last();
        assert(front[0] == ds[0]);
        assert forall|m: int| 0 <= m < front.len() implies is_digit(#[trigger] front[m]) by {
            assert(front[m] == ds[m]);
        }
        lemma_digits_val_positive(front);
    }
}

pub proof fn lemma_dec_of_digits_val(ds: Seq<char>)
    requires
        canonical_digits(ds),
    ensures
        digits_val(ds) >= 0,
        dec_digits(digits_val(ds)) == ds,
    decreases ds.len(),
{
    if ds.len() == 1 {
        let c = ds[0];
        assert(is_digit(c));
        let d = (c as u32 - 48) as nat;
        assert(digits_val(ds) == d) by {
            assert(ds.drop_last() =~= Seq::<char>::empty());
            assert(digits_val(Seq::<char>::empty()) == 0);
            assert(ds.last() == c);
            assert(digits_val(ds) == 0 * 10 + (c as u32 - 48) as nat);
        }
        assert(d < 10);
        assert(dec_digits(d) == seq![digit_char(d as int)]);
        assert(digit_char(d as int) as u32 == c as u32);
        crate::order::lemma_char_code_injective(digit_char(d as int), c);
        assert(dec_digits(digits_val(ds)) =~= ds);
    } else {
        let front = ds.drop_last();
        let c = ds.last();
        assert(is_digit(c)) by {
            assert(ds[ds.len() - 1] == c);
        }
        let d = (c as u32 - 48) as nat;
        assert(front[0] == ds[0]);
        assert forall|m: int| 0 <= m < front.len() implies is_digit(#[trigger] front[m]) by {
            assert(front[m] == ds[m]);
        }
        assert(canonical_digits(front));
        lemma_dec_of_digits_val(front);
        lemma_digits_val_positive(front);
        let q = digits_val(front);
        let val = digits_val(ds);
        assert(val == q * 10 + d);
        assert(q >= 1);
        assert(val >= 10 && val / 10 == q && val % 10 == d) by (nonlinear_arith)
            requires
                val == q * 10 + d,
                q >= 1,
                0 <= d < 10,
        ;
        assert(dec_digits(val) == dec_digits(q).push(digit_char(d as int)));
        assert(digit_char(d as int) as u32 == c as u32);
        crate::order::lemma_char_code_injective(digit_char(d as int), c);
        assert(dec_digits(val) =~= ds);
    }
}

pub proof fn lemma_digits_val_take(ds: Seq<char>, k: int)
    requires
        all_digits(ds),
        0 <= k <= ds.len(),
    ensures
        digits_val(ds.take(k)) <= digits_val(ds),
    decreases ds.len() - k,
{
    if k < ds.len() {
        lemma_digits_val_take(ds, k + 1);
        let t = ds.take(k + 1);
        assert(t.drop_last() =~= ds.take(k));
        assert(digits_val(t) == digits_val(ds.take(k)) * 10 + (if is_digit(t.last()) {
            (t.last() as u32 - 48) as nat
        } else {
            0
        }));
        assert(digits_val(ds.take(k)) * 10 >= digits_val(ds.take(k)));
    } else {
        assert(ds.take(k) =~= ds);
    }
}

// ---------------------------------------------------------------------------
// The decoder: primitives
// ---------------------------------------------------------------------------

fn char_is_digit(c: char) -> (r: bool)
    ensures
        r == is_digit(c),
{
    let u = c as u32;
    48 <= u && u <= 57
}

fn expect_lit(v: &Vec<char>, i: usize, lit: &str, Ghost(t): Ghost<Seq<char>>) -> (r: Option<
    usize,
>)
    requires
        lit@ == t,
        i <= v@.len(),
    ensures
        r matches Some(j) ==> i + t.len() == j <= v@.len() && v@.subrange(i as int, j as int)
            == t,
        (i + t.len() <= v@.len() && v@.subrange(i as int, i + t.len()) == t) ==> r == Some(
            ((i + t.len()) as usize),
        ),
{
    let n = lit.unicode_len();
    if n > v.len() - i {
        return None;
    }
    let mut k: usize = 0;
    loop
        invariant
            lit@ == t,
            n == t.len(),
            i + n <= v@.len(),
            v@.len() <= usize::MAX,
            k <= n,
            forall|m: int| 0 <= m < k ==> v@[i + m] == t[m],
        ensures
            k == n,
            forall|m: int| 0 <= m < k ==> v@[i + m] == t[m],
        decreases n - k,
    {
        if k >= n {
            break;
        }
        let a = v[i + k];
        let b = lit.get_char(k);
        if a != b {
            proof {
                if v@.subrange(i as int, i + t.len()) == t {
                    assert(v@.subrange(i as int, i + t.len())[k as int] == v@[i + k]);
                    assert(false);
                }
            }
            return None;
        }
        k = k + 1;
    }
    proof {
        assert(v@.subrange(i as int, i + n) =~= t);
    }
    Some(i + n)
}

fn parse_bool(v: &Vec<char>, i: usize) -> (r: Option<(bool, usize)>)
    requires
        i <= v@.len(),
    ensures
        r matches Some(p) ==> i + bool_text(p.0).len() == p.1 <= v@.len() && v@.subrange(
            i as int,
            p.1 as int,
        ) == bool_text(p.0),
        forall|b: bool|
            (i + bool_text(b).len() <= v@.len() && v@.subrange(i as int, i + bool_text(b).len())
                == bool_text(b)) ==> r == Some((b, (i + bool_text(b).len()) as usize)),
{
    proof {
        reveal_strlit("true");
        assert("true"@ =~= bool_text(true));
        reveal_strlit("false");
        assert("false"@ =~= bool_text(false));
    }
    let rt = expect_lit(v, i, "true", Ghost(bool_text(true)));
    match rt {
        Option::Some(j) => {
            proof {
                if v@.subrange(i as int, i + bool_text(false).len()) == bool_text(false) && i
                    + bool_text(false).len() <= v@.len() {
                    assert(v@.subrange(i as int, i + bool_text(false).len())[0] == v@[i as int]);
                    assert(v@.subrange(i as int, i + bool_text(true).len())[0] == v@[i as int]);
                    assert(false);
                }
            }
            Some((true, j))
        },
        Option::None => {
            let rf = expect_lit(v, i, "false", Ghost(bool_text(false)));
            match rf {
                Option::Some(j) => Some((false, j)),
                Option::None => None,
            }
        },
    }
}

proof fn lemma_digit_run_end(v: Seq<char>, i: int, j: int, n: u64)
    requires
        0 <= i <= j <= v.len(),
        forall|m: int| i <= m < j ==> is_digit(#[trigger] v[m]),
        j == v.len() || !is_digit(v[j]),
        i + dec_digits(n as nat).len() <= v.len(),
        v.subrange(i, i + dec_digits(n as nat).len()) == dec_digits(n as nat),
        i + dec_digits(n as nat).len() == v.len() || !is_digit(v[i + dec_digits(n as nat).len()]),
    ensures
        j == i + dec_digits(n as nat).len(),
        digits_val(v.subrange(i, j)) == n,
        canonical_digits(v.subrange(i, j)),
{
    let t = dec_digits(n as nat);
    lemma_dec_digits_form(n as nat);
    let e = i + t.len();
    if j < e {
        assert(v.subrange(i, e)[j - i] == v[j]);
        assert(is_digit(t[j - i]));
        assert(false);
    }
    if e < j {
        assert(e < v.len());
        assert(is_digit(v[e]));
        assert(false);
    }
    assert(v.subrange(i, j) == t);
    lemma_digits_val_of_dec(n as nat);
}

#[verifier::rlimit(60)]
fn parse_u64(v: &Vec<char>, i: usize) -> (r: Option<(u64, usize)>)
    requires
        i <= v@.len(),
    ensures
        r matches Some(p) ==> i < p.1 <= v@.len() && v@.subrange(i as int, p.1 as int)
            == dec_digits(p.0 as nat) && (p.1 == v@.len() || !is_digit(v@[p.1 as int])),
        forall|n: u64|
            (i + dec_digits(n as nat).len() <= v@.len() && v@.subrange(
                i as int,
                i + dec_digits(n as nat).len(),
            ) == dec_digits(n as nat) && (i + dec_digits(n as nat).len() == v@.len() || !is_digit(
                v@[i + dec_digits(n as nat).len()],
            ))) ==> r == Some((n, (i + dec_digits(n as nat).len()) as usize)),
{
    let len = v.len();
    let mut j: usize = i;
    loop
        invariant
            i <= j <= len,
            len == v@.len(),
            forall|m: int| i <= m < j ==> is_digit(#[trigger] v@[m]),
        ensures
            i <= j <= len,
            forall|m: int| i <= m < j ==> is_digit(#[trigger] v@[m]),
            j == len || !is_digit(v@[j as int]),
        decreases len - j,
    {
        if j >= len {
            break;
        }
        let d = char_is_digit(v[j]);
        if !d {
            break;
        }
        j = j + 1;
    }
    if j == i {
        proof {
            assert forall|n: u64|
                (i + dec_digits(n as nat).len() <= v@.len() && v@.subrange(
                    i as int,
                    i + dec_digits(n as nat).len(),
                ) == dec_digits(n as nat) && (i + dec_digits(n as nat).len() == v@.len()
                    || !is_digit(v@[i + dec_digits(n as nat).len()]))) implies false by {
                lemma_digit_run_end(v@, i as int, j as int, n);
                lemma_dec_digits_form(n as nat);
            }
        }
        return None;
    }
    if j > i + 1 {
        let z = v[i];
        if z == '0' {
            proof {
                assert forall|n: u64|
                    (i + dec_digits(n as nat).len() <= v@.len() && v@.subrange(
                        i as int,
                        i + dec_digits(n as nat).len(),
                    ) == dec_digits(n as nat) && (i + dec_digits(n as nat).len() == v@.len()
                        || !is_digit(v@[i + dec_digits(n as nat).len()]))) implies false by {
                    lemma_digit_run_end(v@, i as int, j as int, n);
                    lemma_dec_digits_form(n as nat);
                    assert(v@.subrange(i as int, j as int)[0] == v@[i as int]);
                    assert(dec_digits(n as nat)[0] == '0');
                    assert(dec_digits(n as nat).len() == j - i > 1);
                }
            }
            return None;
        }
    }
    let ghost run = v@.subrange(i as int, j as int);
    proof {
        assert forall|m: int| 0 <= m < run.len() implies is_digit(#[trigger] run[m]) by {
            assert(run[m] == v@[i + m]);
        }
        assert(run[0] == v@[i as int]);
        assert(canonical_digits(run));
    }
    let mut acc: u64 = 0;
    let mut k: usize = i;
    while k < j
        invariant
            i <= k <= j <= len,
            len == v@.len(),
            run == v@.subrange(i as int, j as int),
            canonical_digits(run),
            forall|m: int| i <= m < j ==> is_digit(#[trigger] v@[m]),
            j == len || !is_digit(v@[j as int]),
            i < j,
            acc as nat == digits_val(run.take(k - i)),
        decreases j - k,
    {
        let c = v[k];
        let d = ((c as u32) - 48) as u64;
        proof {
            assert(is_digit(v@[k as int]));
        }
        if acc > (u64::MAX - d) / 10 {
            proof {
                assert(acc as nat * 10 + d as nat > u64::MAX as nat) by (nonlinear_arith)
                    requires
                        acc > (u64::MAX - d) / 10,
                        d <= 9,
                ;
                assert forall|n: u64|
                    (i + dec_digits(n as nat).len() <= v@.len() && v@.subrange(
                        i as int,
                        i + dec_digits(n as nat).len(),
                    ) == dec_digits(n as nat) && (i + dec_digits(n as nat).len() == v@.len()
                        || !is_digit(v@[i + dec_digits(n as nat).len()]))) implies false by {
                    lemma_digit_run_end(v@, i as int, j as int, n);
                    lemma_digits_val_take(run, k - i + 1);
                    assert(run.take(k - i + 1).drop_last() =~= run.take(k - i));
                    assert(run.take(k - i + 1).last() == run[k - i]);
                    assert(run[k - i] == v@[k as int]);
                    assert(digits_val(run.take(k - i + 1)) == acc as nat * 10 + d as nat);
                    assert(digits_val(run) == n as nat);
                }
            }
            return None;
        }
        proof {
            assert(acc as nat * 10 + d as nat <= u64::MAX as nat) by (nonlinear_arith)
                requires
                    acc <= (u64::MAX - d) / 10,
                    d <= 9,
            ;
        }
        let ghost prev = acc;
        acc = acc * 10 + d;
        proof {
            assert(run.take(k - i + 1).drop_last() =~= run.take(k - i));
            assert(run.take(k - i + 1).last() == run[k - i]);
            assert(run[k - i] == v@[k as int]);
            assert(acc as nat == digits_val(run.take(k - i + 1)));
        }
        k = k + 1;
    }
    proof {
        assert(run.take(j - i) =~= run);
        lemma_dec_of_digits_val(run);
        assert forall|n: u64|
            (i + dec_digits(n as nat).len() <= v@.len() && v@.subrange(
                i as int,
                i + dec_digits(n as nat).len(),
            ) == dec_digits(n as nat) && (i + dec_digits(n as nat).len() == v@.len() || !is_digit(
                v@[i + dec_digits(n as nat).len()],
            ))) implies Some((acc, j)) == Some((n, (i + dec_digits(n as nat).len()) as usize)) by {
            lemma_digit_run_end(v@, i as int, j as int, n);
        }
    }
    Some((acc, j))
}


proof fn lemma_neg_int_decompose(v: Seq<char>, i: int, n: i32)
    requires
        n < 0,
        0 <= i,
        i + int_text(n as int).len() <= v.len(),
        v.subrange(i, i + int_text(n as int).len()) == int_text(n as int),
    ensures
        v[i] == '-',
        int_text(n as int).len() == 1 + dec_digits(((-(n as int)) as u64) as nat).len(),
        v.subrange(i + 1, i + int_text(n as int).len()) == dec_digits(
            ((-(n as int)) as u64) as nat,
        ),
{
    let t = dec_digits(((-(n as int)) as u64) as nat);
    let e = i + int_text(n as int).len();
    assert(int_text(n as int) == seq!['-'] + t);
    assert(v.subrange(i, e)[0] == v[i]);
    assert((seq!['-'] + t)[0] == '-');
    assert(v.subrange(i + 1, e) =~= t) by {
        assert forall|x: int| 0 <= x < t.len() implies v.subrange(i + 1, e)[x] == t[x] by {
            assert(v.subrange(i, e)[x + 1] == v[i + 1 + x]);
            assert((seq!['-'] + t)[x + 1] == t[x]);
        }
    }
}

proof fn lemma_nonneg_int_starts_digit(v: Seq<char>, i: int, n: i32)
    requires
        n >= 0,
        0 <= i,
        i + int_text(n as int).len() <= v.len(),
        v.subrange(i, i + int_text(n as int).len()) == int_text(n as int),
    ensures
        is_digit(v[i]),
{
    lemma_dec_digits_form(n as nat);
    assert(int_text(n as int) == dec_digits(n as nat));
    assert(v.subrange(i, i + int_text(n as int).len())[0] == v[i]);
}

#[verifier::rlimit(100)]
fn parse_i32(v: &Vec<char>, i: usize) -> (r: Option<(i32, usize)>)
    requires
        i <= v@.len(),
    ensures
        r matches Some(p) ==> i < p.1 <= v@.len() && v@.subrange(i as int, p.1 as int) == int_text(
            p.0 as int,
        ) && (p.1 == v@.len() || !is_digit(v@[p.1 as int])),
        forall|n: i32|
            (i + int_text(n as int).len() <= v@.len() && v@.subrange(
                i as int,
                i + int_text(n as int).len(),
            ) == int_text(n as int) && (i + int_text(n as int).len() == v@.len() || !is_digit(
                v@[i + int_text(n as int).len()],
            ))) ==> r == Some((n, (i + int_text(n as int).len()) as usize)),
{
    let len = v.len();
    if i < len && v[i] == '-' {
        let inner = parse_u64(v, i + 1);
        let r: Option<(i32, usize)> = match inner {
            Option::Some(p) => {
                if 1 <= p.0 && p.0 <= 2147483648u64 {
                    let id: i32 = (-(p.0 as i64)) as i32;
                    let j = p.1;
                    proof {
                        assert(id as int == -(p.0 as int));
                        lemma_dec_digits_form(p.0 as nat);
                        assert(v@.subrange(i as int, j as int) =~= int_text(id as int)) by {
                            assert(v@.subrange(i + 1, j as int) == dec_digits(p.0 as nat));
                            assert(int_text(id as int) == seq!['-'] + dec_digits(p.0 as nat));
                            assert forall|x: int| 0 <= x < j - i implies v@.subrange(
                                i as int,
                                j as int,
                            )[x] == int_text(id as int)[x] by {
                                if x == 0 {
                                    assert(v@.subrange(i as int, j as int)[0] == v@[i as int]);
                                } else {
                                    assert(v@.subrange(i + 1, j as int)[x - 1] == v@[i + x]);
                                    assert(v@.subrange(i as int, j as int)[x] == v@[i + x]);
                                }
                            }
                        }
                    }
                    Some((id, j))
                } else {
                    None
                }
            },
            Option::None => None,
        };
        proof {
            assert forall|n: i32|
                (i + int_text(n as int).len() <= v@.len() && v@.subrange(
                    i as int,
                    i + int_text(n as int).len(),
                ) == int_text(n as int) && (i + int_text(n as int).len() == v@.len() || !is_digit(
                    v@[i + int_text(n as int).len()],
                ))) implies r == Some((n, (i + int_text(n as int).len()) as usize)) by {
                if n >= 0 {
                    lemma_nonneg_int_starts_digit(v@, i as int, n);
                    assert(!is_digit('-'));
                    assert(false);
                } else {
                    lemma_neg_int_decompose(v@, i as int, n);
                    let mm = ((-(n as int)) as u64);
                    let t = dec_digits(mm as nat);
                    assert(v@.subrange(i + 1, i + 1 + t.len()) == t);
                    assert(inner == Some((mm, ((i + 1 + t.len()) as usize))));
                    assert(1 <= mm && mm <= 2147483648u64) by {
                        lemma_digits_val_of_dec(mm as nat);
                    }
                }
            }
        }
        r
    } else {
        let inner = parse_u64(v, i);
        let r: Option<(i32, usize)> = match inner {
            Option::Some(p) => {
                if p.0 <= 2147483647u64 {
                    let id: i32 = p.0 as i32;
                    proof {
                        assert(int_text(id as int) == dec_digits(p.0 as nat));
                    }
                    Some((id, p.1))
                } else {
                    None
                }
            },
            Option::None => None,
        };
        proof {
            assert forall|n: i32|
                (i + int_text(n as int).len() <= v@.len() && v@.subrange(
                    i as int,
                    i + int_text(n as int).len(),
                ) == int_text(n as int) && (i + int_text(n as int).len() == v@.len() || !is_digit(
                    v@[i + int_text(n as int).len()],
                ))) implies r == Some((n, (i + int_text(n as int).len()) as usize)) by {
                if n < 0 {
                    lemma_neg_int_decompose(v@, i as int, n);
                    assert(i < v@.len());
                    assert(false);
                } else {
                    assert(int_text(n as int) == dec_digits(n as nat));
                    assert(dec_digits((n as u64) as nat) == dec_digits(n as nat));
                    assert(inner == Some(((n as u64), ((i + dec_digits(n as nat).len()) as usize))));
                }
            }
        }
        r
    }
}

proof fn lemma_esc_head_plain(s: Seq<char>, c: char)
    requires
        s.len() >= 1,
        s[0] == c,
        c != '"',
        c != '\\',
    ensures
        esc(s) == seq![c] + esc(s.skip(1)),
{
}

proof fn lemma_esc_head_escaped(s: Seq<char>, c: char)
    requires
        s.len() >= 1,
        s[0] == c,
        c == '"' || c == '\\',
    ensures
        esc(s) == seq!['\\', c] + esc(s.skip(1)),
{
}

proof fn lemma_content_sound(v: Seq<char>, i: int, j: int, tail: Seq<char>, c: char, esclen: int)
    requires
        0 <= i,
        i + esclen <= j <= v.len(),
        esclen == esc_char(c).len(),
        esc_char(c).len() == 1 ==> v[i] == c,
        esc_char(c).len() == 2 ==> v[i] == '\\' && v[i + 1] == c,
        v.subrange(i + esclen, j) == esc(tail) + seq!['"'],
    ensures
        v.subrange(i, j) == esc(seq![c] + tail) + seq!['"'],
{
    let w = seq![c] + tail;
    assert(w[0] == c);
    assert(w.skip(1) =~= tail);
    assert(esc(w) == esc_char(c) + esc(tail));
    assert(v.subrange(i + esclen, j).len() == j - (i + esclen));
    assert((esc(tail) + seq!['"']).len() == esc(tail).len() + 1);
    assert(j - i == esclen + esc(tail).len() + 1);
    assert forall|x: int| 0 <= x < j - i implies v.subrange(i, j)[x] == (esc(w) + seq!['"'])[x] by {
        assert(v.subrange(i, j)[x] == v[i + x]);
        if x < esclen {
            if esclen == 1 {
                assert((esc(w) + seq!['"'])[0] == c);
            } else {
                if x == 0 {
                    assert((esc(w) + seq!['"'])[0] == '\\');
                } else {
                    assert((esc(w) + seq!['"'])[1] == c);
                }
            }
        } else {
            assert(v.subrange(i + esclen, j)[x - esclen] == v[i + x]);
            assert((esc(w) + seq!['"'])[x] == (esc(tail) + seq!['"'])[x - esclen]);
        }
    }
    assert(v.subrange(i, j) =~= esc(w) + seq!['"']);
}

proof fn lemma_content_complete_step(v: Seq<char>, i: int, s: Seq<char>)
    requires
        0 <= i,
        s.len() >= 1,
        i + esc(s).len() + 1 <= v.len(),
        v.subrange(i, i + esc(s).len() + 1) == esc(s) + seq!['"'],
    ensures
        esc(s).len() == esc_char(s[0]).len() + esc(s.skip(1)).len(),
        esc_char(s[0]).len() == 1 ==> v[i] == s[0] && s[0] != '"' && s[0] != '\\',
        esc_char(s[0]).len() == 2 ==> v[i] == '\\' && v[i + 1] == s[0] && (s[0] == '"' || s[0]
            == '\\'),
        v.subrange(i + esc_char(s[0]).len(), i + esc(s).len() + 1) == esc(s.skip(1)) + seq!['"'],
{
    let el = esc_char(s[0]).len() as int;
    let e = i + esc(s).len() + 1;
    assert(esc(s) == esc_char(s[0]) + esc(s.skip(1)));
    assert(v.subrange(i, e)[0] == v[i]);
    if el == 2 {
        assert((esc(s) + seq!['"'])[0] == '\\');
        assert(v.subrange(i, e)[1] == v[i + 1]);
        assert((esc(s) + seq!['"'])[1] == s[0]);
    } else {
        assert((esc(s) + seq!['"'])[0] == s[0]);
    }
    assert forall|x: int| 0 <= x < e - i - el implies v.subrange(i + el, e)[x] == (esc(s.skip(1))
        + seq!['"'])[x] by {
        assert(v.subrange(i, e)[x + el] == v[i + el + x]);
        assert(v.subrange(i + el, e)[x] == v[i + el + x]);
        assert((esc(s) + seq!['"'])[x + el] == (esc(s.skip(1)) + seq!['"'])[x]);
    }
    assert(v.subrange(i + el, e) =~= esc(s.skip(1)) + seq!['"']);
}

proof fn lemma_content_empty_or_head(v: Seq<char>, i: int, s: Seq<char>)
    requires
        0 <= i,
        i + esc(s).len() + 1 <= v.len(),
        v.subrange(i, i + esc(s).len() + 1) == esc(s) + seq!['"'],
    ensures
        s.len() == 0 ==> v[i] == '"',
        s.len() >= 1 && (s[0] == '"' || s[0] == '\\') ==> v[i] == '\\',
        s.len() >= 1 && !(s[0] == '"' || s[0] == '\\') ==> v[i] == s[0],
{
    assert(v.subrange(i, i + esc(s).len() + 1)[0] == v[i]);
    if s.len() == 0 {
        assert((esc(s) + seq!['"'])[0] == '"');
    } else {
        assert(esc(s) == esc_char(s[0]) + esc(s.skip(1)));
        if s[0] == '"' || s[0] == '\\' {
            assert((esc(s) + seq!['"'])[0] == '\\');
        } else {
            assert((esc(s) + seq!['"'])[0] == s[0]);
        }
    }
}

#[verifier::rlimit(100)]
fn parse_str_content(v: &Vec<char>, i: usize) -> (r: Option<(Vec<char>, usize)>)
    requires
        i <= v@.len(),
    ensures
        r matches Some(p) ==> i < p.1 <= v@.len() && v@.subrange(i as int, p.1 as int) == esc(
            p.0@,
        ) + seq!['"'],
        forall|s: Seq<char>|
            (i + esc(s).len() + 1 <= v@.len() && v@.subrange(i as int, i + esc(s).len() + 1)
                == esc(s) + seq!['"']) ==> (r matches Some(p) && p.0@ == s && p.1 as int == i + esc(
                s,
            ).len() + 1),
    decreases v@.len() - i,
{
    let len = v.len();
    if i >= len {
        return None;
    }
    let c = v[i];
    if c == '"' {
        let out: Vec<char> = Vec::new();
        let r = Some((out, i + 1));
        proof {
            assert(esc(Seq::<char>::empty()) == Seq::<char>::empty());
            assert(v@.subrange(i as int, i + 1) =~= esc(Seq::<char>::empty()) + seq!['"']);
            assert forall|s: Seq<char>|
                (i + esc(s).len() + 1 <= v@.len() && v@.subrange(i as int, i + esc(s).len() + 1)
                    == esc(s) + seq!['"']) implies (r matches Some(p) && p.0@ == s && p.1 as int
                == i + esc(s).len() + 1) by {
                lemma_content_empty_or_head(v@, i as int, s);
                if s.len() >= 1 {
                    assert(false);
                }
                assert(s =~= Seq::<char>::empty());
            }
        }
        return r;
    }
    if c == '\\' {
        if i + 1 >= len {
            proof {
                assert forall|s: Seq<char>|
                    (i + esc(s).len() + 1 <= v@.len() && v@.subrange(
                        i as int,
                        i + esc(s).len() + 1,
                    ) == esc(s) + seq!['"']) implies false by {
                    lemma_content_empty_or_head(v@, i as int, s);
                    if s.len() >= 1 && (s[0] == '"' || s[0] == '\\') {
                        lemma_content_complete_step(v@, i as int, s);
                    }
                }
            }
            return None;
        }
        let c2 = v[i + 1];
        if c2 == '"' || c2 == '\\' {
            let inner = parse_str_content(v, i + 2);
            match inner {
                Option::Some(p) => {
                    let mut out = p.0;
                    let j = p.1;
                    let ghost tail = out@;
                    out.insert(0, c2);
                    let r = Some((out, j));
                    proof {
                        assert(out@ =~= seq![c2] + tail);
                        lemma_content_sound(v@, i as int, j as int, tail, c2, 2);
                        assert forall|s: Seq<char>|
                            (i + esc(s).len() + 1 <= v@.len() && v@.subrange(
                                i as int,
                                i + esc(s).len() + 1,
                            ) == esc(s) + seq!['"']) implies (r matches Some(q) && q.0@ == s
                            && q.1 as int == i + esc(s).len() + 1) by {
                            lemma_content_empty_or_head(v@, i as int, s);
                            if s.len() == 0 {
                                assert(false);
                            } else if s[0] == '"' || s[0] == '\\' {
                                lemma_content_complete_step(v@, i as int, s);
                                assert(s[0] == c2);
                                let st = s.skip(1);
                                assert(inner matches Some(q) && q.0@ == st && q.1 as int == i
                                    + esc(s).len() + 1);
                                assert(out@ =~= s);
                            } else {
                                assert(false);
                            }
                        }
                    }
                    r
                },
                Option::None => {
                    proof {
                        assert forall|s: Seq<char>|
                            (i + esc(s).len() + 1 <= v@.len() && v@.subrange(
                                i as int,
                                i + esc(s).len() + 1,
                            ) == esc(s) + seq!['"']) implies false by {
                            lemma_content_empty_or_head(v@, i as int, s);
                            if s.len() >= 1 && (s[0] == '"' || s[0] == '\\') {
                                lemma_content_complete_step(v@, i as int, s);
                                assert(inner matches Some(q));
                            }
                        }
                    }
                    None
                },
            }
        } else {
            proof {
                assert forall|s: Seq<char>|
                    (i + esc(s).len() + 1 <= v@.len() && v@.subrange(
                        i as int,
                        i + esc(s).len() + 1,
                    ) == esc(s) + seq!['"']) implies false by {
                    lemma_content_empty_or_head(v@, i as int, s);
                    if s.len() >= 1 && (s[0] == '"' || s[0] == '\\') {
                        lemma_content_complete_step(v@, i as int, s);
                    }
                }
            }
            None
        }
    } else {
        let inner = parse_str_content(v, i + 1);
        match inner {
            Option::Some(p) => {
                let mut out = p.0;
                let j = p.1;
                let ghost tail = out@;
                out.insert(0, c);
                let r = Some((out, j));
                proof {
                    assert(out@ =~= seq![c] + tail);
                    lemma_content_sound(v@, i as int, j as int, tail, c, 1);
                    assert forall|s: Seq<char>|
                        (i + esc(s).len() + 1 <= v@.len() && v@.subrange(
                            i as int,
                            i + esc(s).len() + 1,
                        ) == esc(s) + seq!['"']) implies (r matches Some(q) && q.0@ == s
                        && q.1 as int == i + esc(s).len() + 1) by {
                        lemma_content_empty_or_head(v@, i as int, s);
                        if s.len() == 0 {
                            assert(false);
                        } else if s[0] == '"' || s[0] == '\\' {
                            assert(false);
                        } else {
                            lemma_content_complete_step(v@, i as int, s);
                            assert(s[0] == c);
                            let st = s.skip(1);
                            assert(inner matches Some(q) && q.0@ == st && q.1 as int == i + esc(
                                s,
                            ).len() + 1);
                            assert(out@ =~= s);
                        }
                    }
                }
                r
            },
            Option::None => {
                proof {
                    assert forall|s: Seq<char>|
                        (i + esc(s).len() + 1 <= v@.len() && v@.subrange(
                            i as int,
                            i + esc(s).len() + 1,
                        ) == esc(s) + seq!['"']) implies false by {
                        lemma_content_empty_or_head(v@, i as int, s);
                        if s.len() >= 1 && !(s[0] == '"' || s[0] == '\\') {
                            lemma_content_complete_step(v@, i as int, s);
                            assert(inner matches Some(q));
                        }
                    }
                }
                None
            },
        }
    }
}

/// Parses a quoted string token.
fn parse_str_tok(v: &Vec<char>, i: usize) -> (r: Option<(String, usize)>)
    requires
        i <= v@.len(),
    ensures
        r matches Some(p) ==> i < p.1 <= v@.len() && v@.subrange(i as int, p.1 as int) == str_tok(
            p.0@,
        ),
        forall|s: Seq<char>|
            (i + str_tok(s).len() <= v@.len() && v@.subrange(i as int, i + str_tok(s).len())
                == str_tok(s)) ==> (r matches Some(p) && p.0@ == s && p.1 as int == i + str_tok(
                s,
            ).len()),
{
    let len = v.len();
    if i >= len {
        return None;
    }
    let c = v[i];
    if c != '"' {
        proof {
            assert forall|s: Seq<char>|
                (i + str_tok(s).len() <= v@.len() && v@.subrange(i as int, i + str_tok(s).len())
                    == str_tok(s)) implies false by {
                assert(v@.subrange(i as int, i + str_tok(s).len())[0] == v@[i as int]);
                assert(str_tok(s)[0] == '"');
            }
        }
        return None;
    }
    let inner = parse_str_content(v, i + 1);
    match inner {
        Option::Some(p) => {
            let j = p.1;
            let ghost tail = p.0@;
            let text = chars_to_string(p.0);
            let r = Some((text, j));
            proof {
                assert(text@ == tail);
                assert(v@.subrange(i as int, j as int) =~= str_tok(tail)) by {
                    assert(v@.subrange(i + 1, j as int) == esc(tail) + seq!['"']);
                    assert(v@.subrange(i + 1, j as int).len() == j - (i + 1));
                    assert((esc(tail) + seq!['"']).len() == esc(tail).len() + 1);
                    assert(j - i == 1 + esc(tail).len() + 1);
                    assert(str_tok(tail).len() == esc(tail).len() + 2);
                    assert forall|x: int| 0 <= x < j - i implies v@.subrange(i as int, j as int)[x]
                        == str_tok(tail)[x] by {
                        if x == 0 {
                            assert(v@.subrange(i as int, j as int)[0] == v@[i as int]);
                            assert(str_tok(tail)[0] == '"');
                        } else {
                            assert(v@.subrange(i + 1, j as int)[x - 1] == v@[i + x]);
                            assert(v@.subrange(i as int, j as int)[x] == v@[i + x]);
                            assert(str_tok(tail)[x] == (esc(tail) + seq!['"'])[x - 1]);
                        }
                    }
                }
                assert forall|s: Seq<char>|
                    (i + str_tok(s).len() <= v@.len() && v@.subrange(
                        i as int,
                        i + str_tok(s).len(),
                    ) == str_tok(s)) implies (r matches Some(q) && q.0@ == s && q.1 as int == i
                    + str_tok(s).len()) by {
                    let e = i + str_tok(s).len();
                    assert(v@.subrange(i + 1, e) =~= esc(s) + seq!['"']) by {
                        assert forall|x: int| 0 <= x < e - i - 1 implies v@.subrange(i + 1, e)[x]
                            == (esc(s) + seq!['"'])[x] by {
                            assert(v@.subrange(i as int, e)[x + 1] == v@[i + 1 + x]);
                            assert(v@.subrange(i + 1, e)[x] == v@[i + 1 + x]);
                            assert(str_tok(s)[x + 1] == (esc(s) + seq!['"'])[x]);
                        }
                    }
                    assert(i + 1 + esc(s).len() + 1 == e);
                    assert(inner matches Some(q) && q.0@ == s && q.1 as int == e);
                }
            }
            r
        },
        Option::None => {
            proof {
                assert forall|s: Seq<char>|
                    (i + str_tok(s).len() <= v@.len() && v@.subrange(
                        i as int,
                        i + str_tok(s).len(),
                    ) == str_tok(s)) implies false by {
                    let e = i + str_tok(s).len();
                    assert(v@.subrange(i + 1, e) =~= esc(s) + seq!['"']) by {
                        assert forall|x: int| 0 <= x < e - i - 1 implies v@.subrange(i + 1, e)[x]
                            == (esc(s) + seq!['"'])[x] by {
                            assert(v@.subrange(i as int, e)[x + 1] == v@[i + 1 + x]);
                            assert(v@.subrange(i + 1, e)[x] == v@[i + 1 + x]);
                            assert(str_tok(s)[x + 1] == (esc(s) + seq!['"'])[x]);
                        }
                    }
                    assert(i + 1 + esc(s).len() + 1 == e);
                    assert(inner matches Some(q));
                }
            }
            None
        },
    }
}



proof fn lemma_split_at(v: Seq<char>, i: int, j: int, a: Seq<char>, b: Seq<char>)
    requires
        0 <= i,
        i + a.len() + b.len() == j <= v.len(),
        v.subrange(i, j) == a + b,
    ensures
        v.subrange(i, i + a.len()) == a,
        v.subrange(i + a.len(), j) == b,
{
    assert(v.subrange(i, i + a.len()) =~= a) by {
        assert forall|x: int| 0 <= x < a.len() implies v.subrange(i, i + a.len())[x] == a[x] by {
            assert(v.subrange(i, j)[x] == v[i + x]);
            assert(v.subrange(i, i + a.len())[x] == v[i + x]);
            assert((a + b)[x] == a[x]);
        }
    }
    assert(v.subrange(i + a.len(), j) =~= b) by {
        assert forall|x: int| 0 <= x < b.len() implies v.subrange(i + a.len(), j)[x] == b[x] by {
            assert(v.subrange(i, j)[a.len() + x] == v[i + a.len() + x]);
            assert(v.subrange(i + a.len(), j)[x] == v[i + a.len() + x]);
            assert((a + b)[a.len() + x] == b[x]);
        }
    }
}

proof fn lemma_join_at(v: Seq<char>, i: int, m: int, j: int, a: Seq<char>, b: Seq<char>)
    requires
        0 <= i <= m <= j <= v.len(),
        v.subrange(i, m) == a,
        v.subrange(m, j) == b,
    ensures
        v.subrange(i, j) == a + b,
{
    assert(v.subrange(i, j) =~= a + b) by {
        assert forall|x: int| 0 <= x < j - i implies v.subrange(i, j)[x] == (a + b)[x] by {
            assert(v.subrange(i, j)[x] == v[i + x]);
            if x < m - i {
                assert(v.subrange(i, m)[x] == v[i + x]);
            } else {
                assert(v.subrange(m, j)[x - (m - i)] == v[i + x]);
            }
        }
    }
}

proof fn lemma_job_peel(v: Seq<char>, i: int, jv: JobView)
    requires
        0 <= i,
        i + job_text(jv).len() <= v.len(),
        v.subrange(i, i + job_text(jv).len()) == job_text(jv),
    ensures
        ({
            let o1 = i + k_id().len();
            let o2 = o1 + str_tok(jv.id).len();
            let o3 = o2 + k_name().len();
            let o4 = o3 + str_tok(jv.name).len();
            let o5 = o4 + 1;
            &&& o5 == i + job_text(jv).len()
            &&& v.subrange(i, o1) == k_id()
            &&& v.subrange(o1, o2) == str_tok(jv.id)
            &&& v.subrange(o2, o3) == k_name()
            &&& v.subrange(o3, o4) == str_tok(jv.name)
            &&& v.subrange(o4, o5) == seq!['}']
        }),
{
    let e = i + job_text(jv).len();
    let a1 = k_id();
    let s1 = str_tok(jv.id);
    let a2 = k_name();
    let s2 = str_tok(jv.name);
    let br = seq!['}'];
    assert(job_text(jv) =~= a1 + (s1 + (a2 + (s2 + br))));
    lemma_split_at(v, i, e, a1, s1 + (a2 + (s2 + br)));
    let o1 = i + a1.len();
    lemma_split_at(v, o1, e, s1, a2 + (s2 + br));
    let o2 = o1 + s1.len();
    lemma_split_at(v, o2, e, a2, s2 + br);
    let o3 = o2 + a2.len();
    lemma_split_at(v, o3, e, s2, br);
}

#[verifier::rlimit(100)]
fn parse_job(v: &Vec<char>, i: usize) -> (r: Option<(Job, usize)>)
    requires
        i <= v@.len(),
    ensures
        r matches Some(p) ==> i <= p.1 <= v@.len() && v@.subrange(i as int, p.1 as int)
            == job_text(p.0@),
        forall|jv: JobView|
            (i + job_text(jv).len() <= v@.len() && v@.subrange(i as int, i + job_text(jv).len())
                == job_text(jv)) ==> (r matches Some(p) && p.0@ == jv && p.1 as int == i
                + job_text(jv).len()),
{
    proof {
        reveal_strlit("{\"id\": ");
        assert("{\"id\": "@ =~= k_id());
        reveal_strlit(", \"name\": ");
        assert(", \"name\": "@ =~= k_name());
        reveal_strlit("}");
        assert("}"@ =~= rbrace());
    }
    let step1 = expect_lit(v, i, "{\"id\": ", Ghost(k_id()));
    let o1;
    match step1 {
        Option::Some(q) => { o1 = q; },
        Option::None => {
            proof {
                assert forall|jv: JobView|
                    (i + job_text(jv).len() <= v@.len() && v@.subrange(
                        i as int,
                        i + job_text(jv).len(),
                    ) == job_text(jv)) implies false by {
                    lemma_job_peel(v@, i as int, jv);
                }
            }
            return None;
        },
    }
    let step2 = parse_str_tok(v, o1);
    let f_id;
    let o2;
    match step2 {
        Option::Some(q) => { f_id = q.0; o2 = q.1; },
        Option::None => {
            proof {
                assert forall|jv: JobView|
                    (i + job_text(jv).len() <= v@.len() && v@.subrange(
                        i as int,
                        i + job_text(jv).len(),
                    ) == job_text(jv)) implies false by {
                    lemma_job_peel(v@, i as int, jv);
                    assert(step2 matches Some(q2) && q2.0@ == jv.id);
                }
            }
            return None;
        },
    }
    let step3 = expect_lit(v, o2, ", \"name\": ", Ghost(k_name()));
    let o3;
    match step3 {
        Option::Some(q) => { o3 = q; },
        Option::None => {
            proof {
                assert forall|jv: JobView|
                    (i + job_text(jv).len() <= v@.len() && v@.subrange(
                        i as int,
                        i + job_text(jv).len(),
                    ) == job_text(jv)) implies false by {
                    lemma_job_peel(v@, i as int, jv);
                    assert(step2 matches Some(q2) && q2.0@ == jv.id && q2.1 as int == i + k_id().len()
                        + str_tok(jv.id).len());
                }
            }
            return None;
        },
    }
    let step4 = parse_str_tok(v, o3);
    let f_name;
    let o4;
    match step4 {
        Option::Some(q) => { f_name = q.0; o4 = q.1; },
        Option::None => {
            proof {
                assert forall|jv: JobView|
                    (i + job_text(jv).len() <= v@.len() && v@.subrange(
                        i as int,
                        i + job_text(jv).len(),
                    ) == job_text(jv)) implies false by {
                    lemma_job_peel(v@, i as int, jv);
                    assert(step2 matches Some(q2) && q2.0@ == jv.id && q2.1 as int == i + k_id().len()
                        + str_tok(jv.id).len());
                    assert(step4 matches Some(q4) && q4.0@ == jv.name);
                }
            }
            return None;
        },
    }
    let step5 = expect_lit(v, o4, "}", Ghost(rbrace()));
    let o5;
    match step5 {
        Option::Some(q) => { o5 = q; },
        Option::None => {
            proof {
                assert forall|jv: JobView|
                    (i + job_text(jv).len() <= v@.len() && v@.subrange(
                        i as int,
                        i + job_text(jv).len(),
                    ) == job_text(jv)) implies false by {
                    lemma_job_peel(v@, i as int, jv);
                    assert(step2 matches Some(q2) && q2.0@ == jv.id && q2.1 as int == i + k_id().len()
                        + str_tok(jv.id).len());
                    assert(step4 matches Some(q4) && q4.0@ == jv.name && q4.1 as int == o3 as int
                        + str_tok(jv.name).len());
                }
            }
            return None;
        },
    }
    let out = Job { id: f_id, name: f_name };
    let r = Some((out, o5));
    proof {
        lemma_join_at(v@, i as int, o1 as int, o2 as int, k_id(), str_tok(out@.id));
        lemma_join_at(v@, i as int, o2 as int, o3 as int, k_id() + str_tok(out@.id), k_name());
        lemma_join_at(
            v@,
            i as int,
            o3 as int,
            o4 as int,
            k_id() + str_tok(out@.id) + k_name(),
            str_tok(out@.name),
        );
        lemma_join_at(
            v@,
            i as int,
            o4 as int,
            o5 as int,
            k_id() + str_tok(out@.id) + k_name() + str_tok(out@.name),
            rbrace(),
        );
        assert(v@.subrange(i as int, o5 as int) == job_text(out@));
        assert forall|jv: JobView|
            (i + job_text(jv).len() <= v@.len() && v@.subrange(i as int, i + job_text(jv).len())
                == job_text(jv)) implies (r matches Some(p) && p.0@ == jv && p.1 as int == i
            + job_text(jv).len()) by {
            lemma_job_peel(v@, i as int, jv);
            assert(step2 matches Some(q2) && q2.0@ == jv.id && q2.1 as int == i + k_id().len()
                + str_tok(jv.id).len());
            assert(step4 matches Some(q4) && q4.0@ == jv.name && q4.1 as int == o3 as int
                + str_tok(jv.name).len());
            assert(out@ =~= jv);
        }
    }
    r
}



/// The first half of a work-log record: id through jobId.
pub open spec fn wl_head_text(id: int, date: Seq<char>, job_id: Seq<char>) -> Seq<char> {
    k_id() + int_text(id) + k_date() + str_tok(date) + k_job_id() + str_tok(job_id)
}

/// The second half of a work-log record: hours through the closing brace.
pub open spec fn wl_tail_text(hours: u64, pay_rate: u64, tax_rate: u64, pay_cashed: bool) -> Seq<
    char,
> {
    k_hours() + dec_digits(hours as nat) + k_pay_rate() + dec_digits(pay_rate as nat)
        + k_tax_rate() + dec_digits(tax_rate as nat) + k_pay_cashed() + bool_text(pay_cashed)
        + rbrace()
}

proof fn lemma_wl_text_split(w: WorkLogView)
    ensures
        work_log_text(w) == wl_head_text(w.id, w.date, w.job_id) + wl_tail_text(
            w.hours,
            w.pay_rate,
            w.tax_rate,
            w.pay_cashed,
        ),
{
    assert(work_log_text(w) =~= wl_head_text(w.id, w.date, w.job_id) + wl_tail_text(
        w.hours,
        w.pay_rate,
        w.tax_rate,
        w.pay_cashed,
    ));
}

/// A record view whose id fits the wire's 32-bit signed integers; every
/// record the encoder is given satisfies it.
pub open spec fn wl_wire_ok(w: WorkLogView) -> bool {
    i32::MIN as int <= w.id <= i32::MAX as int
}

#[verifier::rlimit(100)]
proof fn lemma_wl_head_peel(v: Seq<char>, i: int, nid: i32, date: Seq<char>, jid: Seq<char>)
    requires
        0 <= i,
        i + wl_head_text(nid as int, date, jid).len() <= v.len(),
        v.subrange(i, i + wl_head_text(nid as int, date, jid).len()) == wl_head_text(nid as int, date, jid),
    ensures
        ({
            let o1 = i + k_id().len();
            let o2 = o1 + int_text(nid as int).len();
            let o3 = o2 + k_date().len();
            let o4 = o3 + str_tok(date).len();
            let o5 = o4 + k_job_id().len();
            let o6 = o5 + str_tok(jid).len();
            &&& o6 == i + wl_head_text(nid as int, date, jid).len()
            &&& v.subrange(i, o1) == k_id()
            &&& v.subrange(o1, o2) == int_text(nid as int)
            &&& v.subrange(o2, o3) == k_date()
            &&& v.subrange(o3, o4) == str_tok(date)
            &&& v.subrange(o4, o5) == k_job_id()
            &&& v.subrange(o5, o6) == str_tok(jid)
        }),
{
    let e = i + wl_head_text(nid as int, date, jid).len();
    assert(k_id() + int_text(nid as int) + k_date() + str_tok(date) + k_job_id() + (str_tok(jid)) =~= k_id() + int_text(nid as int) + k_date() + str_tok(date) + (k_job_id() + (str_tok(jid))));
    assert(k_id() + int_text(nid as int) + k_date() + str_tok(date) + (k_job_id() + (str_tok(jid))) =~= k_id() + int_text(nid as int) + k_date() + (str_tok(date) + (k_job_id() + (str_tok(jid)))));
    assert(k_id() + int_text(nid as int) + k_date() + (str_tok(date) + (k_job_id() + (str_tok(jid)))) =~= k_id() + int_text(nid as int) + (k_date() + (str_tok(date) + (k_job_id() + (str_tok(jid))))));
    assert(k_id() + int_text(nid as int) + (k_date() + (str_tok(date) + (k_job_id() + (str_tok(jid))))) =~= k_id() + (int_text(nid as int) + (k_date() + (str_tok(date) + (k_job_id() + (str_tok(jid)))))));
    assert(wl_head_text(nid as int, date, jid) =~= k_id() + (int_text(nid as int) + (k_date() + (str_tok(date) + (k_job_id() + (str_tok(jid)))))));
    lemma_split_at(v, i, e, k_id(), int_text(nid as int) + (k_date() + (str_tok(date) + (k_job_id() + (str_tok(jid))))));
    let o1 = i + k_id().len();
    lemma_split_at(v, o1, e, int_text(nid as int), k_date() + (str_tok(date) + (k_job_id() + (str_tok(jid)))));
    let o2 = o1 + int_text(nid as int).len();
    lemma_split_at(v, o2, e, k_date(), str_tok(date) + (k_job_id() + (str_tok(jid))));
    let o3 = o2 + k_date().len();
    lemma_split_at(v, o3, e, str_tok(date), k_job_id() + (str_tok(jid)));
    let o4 = o3 + str_tok(date).len();
    lemma_split_at(v, o4, e, k_job_id(), str_tok(jid));
}

#[verifier::rlimit(100)]
fn parse_wl_head(v: &Vec<char>, i: usize) -> (r: Option<((i32, String, String), usize)>)
    requires
        i <= v@.len(),
    ensures
        r matches Some(p) ==> i <= p.1 <= v@.len() && v@.subrange(i as int, p.1 as int)
            == wl_head_text(p.0.0 as int, p.0.1@, p.0.2@),
        forall|nid: i32, date: Seq<char>, jid: Seq<char>|
            (i + wl_head_text(nid as int, date, jid).len() <= v@.len() && v@.subrange(i as int, i + wl_head_text(nid as int, date, jid).len()) == wl_head_text(nid as int, date, jid)) ==> {
            r matches Some(p)
                && r->Some_0.0.0 == nid
                && r->Some_0.0.1@ == date
                && r->Some_0.0.2@ == jid
                && r->Some_0.1 as int == i + wl_head_text(nid as int, date, jid).len()
        },
{
    proof {
        reveal_strlit("{\"id\": ");
        assert("{\"id\": "@ =~= k_id());
        reveal_strlit(", \"date\": ");
        assert(", \"date\": "@ =~= k_date());
        reveal_strlit(", \"jobId\": ");
        assert(", \"jobId\": "@ =~= k_job_id());
    }
    let step1 = expect_lit(v, i, "{\"id\": ", Ghost(k_id()));
    let o1;
    match step1 {
        Option::Some(q) => { o1 = q; },
        Option::None => {
            proof {
                assert forall|nid: i32, date: Seq<char>, jid: Seq<char>|
                    (i + wl_head_text(nid as int, date, jid).len() <= v@.len() && v@.subrange(i as int, i + wl_head_text(nid as int, date, jid).len()) == wl_head_text(nid as int, date, jid)) implies false by {
                    lemma_wl_head_peel(v@, i as int, nid, date, jid);
                    let po0 = i as int;
                    assert(step1 matches Some(qz));
                }
            }
            return None;
        },
    }
    let step2 = parse_i32(v, o1);
    let f0;
    let o2;
    match step2 {
        Option::Some(q) => { f0 = q.0; o2 = q.1; },
        Option::None => {
            proof {
                assert forall|nid: i32, date: Seq<char>, jid: Seq<char>|
                    (i + wl_head_text(nid as int, date, jid).len() <= v@.len() && v@.subrange(i as int, i + wl_head_text(nid as int, date, jid).len()) == wl_head_text(nid as int, date, jid)) implies false by {
                    lemma_wl_head_peel(v@, i as int, nid, date, jid);
                    let po1 = i + k_id().len();
                    assert(step1 matches Some(qq1) && qq1 as int == po1);
                    let po2 = po1 + int_text(nid as int).len();
                    assert(v@.subrange(po2, po2 + k_date().len())[0] == v@[po2]);
                    assert(!is_digit(v@[po2]));
                    assert(step2 matches Some(qz));
                }
            }
            return None;
        },
    }
    let step3 = expect_lit(v, o2, ", \"date\": ", Ghost(k_date()));
    let o3;
    match step3 {
        Option::Some(q) => { o3 = q; },
        Option::None => {
            proof {
                assert forall|nid: i32, date: Seq<char>, jid: Seq<char>|
                    (i + wl_head_text(nid as int, date, jid).len() <= v@.len() && v@.subrange(i as int, i + wl_head_text(nid as int, date, jid).len()) == wl_head_text(nid as int, date, jid)) implies false by {
                    lemma_wl_head_peel(v@, i as int, nid, date, jid);
                    let po1 = i + k_id().len();
                    assert(step1 matches Some(qq1) && qq1 as int == po1);
                    let po2 = po1 + int_text(nid as int).len();
                    assert(v@.subrange(po2, po2 + k_date().len())[0] == v@[po2]);
                    assert(!is_digit(v@[po2]));
                    assert(step2 matches Some(qq2) && qq2.0 == nid && qq2.1 as int == po2);
                    assert(step3 matches Some(qz));
                }
            }
            return None;
        },
    }
    let step4 = parse_str_tok(v, o3);
    let f1;
    let o4;
    match step4 {
        Option::Some(q) => { f1 = q.0; o4 = q.1; },
        Option::None => {
            proof {
                assert forall|nid: i32, date: Seq<char>, jid: Seq<char>|
                    (i + wl_head_text(nid as int, date, jid).len() <= v@.len() && v@.subrange(i as int, i + wl_head_text(nid as int, date, jid).len()) == wl_head_text(nid as int, date, jid)) implies false by {
                    lemma_wl_head_peel(v@, i as int, nid, date, jid);
                    let po1 = i + k_id().len();
                    assert(step1 matches Some(qq1) && qq1 as int == po1);
                    let po2 = po1 + int_text(nid as int).len();
                    assert(v@.subrange(po2, po2 + k_date().len())[0] == v@[po2]);
                    assert(!is_digit(v@[po2]));
                    assert(step2 matches Some(qq2) && qq2.0 == nid && qq2.1 as int == po2);
                    let po3 = po2 + k_date().len();
                    assert(step3 matches Some(qq3) && qq3 as int == po3);
                    assert(step4 matches Some(qz));
                }
            }
            return None;
        },
    }
    let step5 = expect_lit(v, o4, ", \"jobId\": ", Ghost(k_job_id()));
    let o5;
    match step5 {
        Option::Some(q) => { o5 = q; },
        Option::None => {
            proof {
                assert forall|nid: i32, date: Seq<char>, jid: Seq<char>|
                    (i + wl_head_text(nid as int, date, jid).len() <= v@.len() && v@.subrange(i as int, i + wl_head_text(nid as int, date, jid).len()) == wl_head_text(nid as int, date, jid)) implies false by {
                    lemma_wl_head_peel(v@, i as int, nid, date, jid);
                    let po1 = i + k_id().len();
                    assert(step1 matches Some(qq1) && qq1 as int == po1);
                    let po2 = po1 + int_text(nid as int).len();
                    assert(v@.subrange(po2, po2 + k_date().len())[0] == v@[po2]);
                    assert(!is_digit(v@[po2]));
                    assert(step2 matches Some(qq2) && qq2.0 == nid && qq2.1 as int == po2);
                    let po3 = po2 + k_date().len();
                    assert(step3 matches Some(qq3) && qq3 as int == po3);
                    let po4 = po3 + str_tok(date).len();
                    assert(step4 matches Some(qq4) && qq4.0@ == date && qq4.1 as int == po4);
                    assert(step5 matches Some(qz));
                }
            }
            return None;
        },
    }
    let step6 = parse_str_tok(v, o5);
    let f2;
    let o6;
    match step6 {
        Option::Some(q) => { f2 = q.0; o6 = q.1; },
        Option::None => {
            proof {
                assert forall|nid: i32, date: Seq<char>, jid: Seq<char>|
                    (i + wl_head_text(nid as int, date, jid).len() <= v@.len() && v@.subrange(i as int, i + wl_head_text(nid as int, date, jid).len()) == wl_head_text(nid as int, date, jid)) implies false by {
                    lemma_wl_head_peel(v@, i as int, nid, date, jid);
                    let po1 = i + k_id().len();
                    assert(step1 matches Some(qq1) && qq1 as int == po1);
                    let po2 = po1 + int_text(nid as int).len();
                    assert(v@.subrange(po2, po2 + k_date().len())[0] == v@[po2]);
                    assert(!is_digit(v@[po2]));
                    assert(step2 matches Some(qq2) && qq2.0 == nid && qq2.1 as int == po2);
                    let po3 = po2 + k_date().len();
                    assert(step3 matches Some(qq3) && qq3 as int == po3);
                    let po4 = po3 + str_tok(date).len();
                    assert(step4 matches Some(qq4) && qq4.0@ == date && qq4.1 as int == po4);
                    let po5 = po4 + k_job_id().len();
                    assert(step5 matches Some(qq5) && qq5 as int == po5);
                    assert(step6 matches Some(qz));
                }
            }
            return None;
        },
    }
    let r = Some(((f0, f1, f2), o6));
    proof {
        lemma_join_at(v@, i as int, o1 as int, o2 as int, k_id(), int_text(f0 as int));
        lemma_join_at(v@, i as int, o2 as int, o3 as int, k_id() + int_text(f0 as int), k_date());
        lemma_join_at(v@, i as int, o3 as int, o4 as int, k_id() + int_text(f0 as int) + k_date(), str_tok(f1@));
        lemma_join_at(v@, i as int, o4 as int, o5 as int, k_id() + int_text(f0 as int) + k_date() + str_tok(f1@), k_job_id());
        lemma_join_at(v@, i as int, o5 as int, o6 as int, k_id() + int_text(f0 as int) + k_date() + str_tok(f1@) + k_job_id(), str_tok(f2@));
        assert(v@.subrange(i as int, o6 as int) == wl_head_text(f0 as int, f1@, f2@));
        assert forall|nid: i32, date: Seq<char>, jid: Seq<char>|
            (i + wl_head_text(nid as int, date, jid).len() <= v@.len() && v@.subrange(i as int, i + wl_head_text(nid as int, date, jid).len()) == wl_head_text(nid as int, date, jid)) implies {
            r matches Some(p)
                && r->Some_0.0.0 == nid
                && r->Some_0.0.1@ == date
                && r->Some_0.0.2@ == jid
                && r->Some_0.1 as int == i + wl_head_text(nid as int, date, jid).len()
        } by {
                lemma_wl_head_peel(v@, i as int, nid, date, jid);
                let po1 = i + k_id().len();
                assert(step1 matches Some(qq1) && qq1 as int == po1);
                let po2 = po1 + int_text(nid as int).len();
                assert(v@.subrange(po2, po2 + k_date().len())[0] == v@[po2]);
                assert(!is_digit(v@[po2]));
                assert(step2 matches Some(qq2) && qq2.0 == nid && qq2.1 as int == po2);
                let po3 = po2 + k_date().len();
                assert(step3 matches Some(qq3) && qq3 as int == po3);
                let po4 = po3 + str_tok(date).len();
                assert(step4 matches Some(qq4) && qq4.0@ == date && qq4.1 as int == po4);
                let po5 = po4 + k_job_id().len();
                assert(step5 matches Some(qq5) && qq5 as int == po5);
                let po6 = po5 + str_tok(jid).len();
                assert(step6 matches Some(qq6) && qq6.0@ == jid && qq6.1 as int == po6);
        }
    }
    r
}


/// The hours, payRate and taxRate fields of a work-log record.
pub open spec fn wl_mid_text(hours: u64, pay_rate: u64, tax_rate: u64) -> Seq<char> {
    k_hours() + dec_digits(hours as nat) + k_pay_rate() + dec_digits(pay_rate as nat)
        + k_tax_rate() + dec_digits(tax_rate as nat)
}

/// The payCashed field and the closing brace of a work-log record.
pub open spec fn wl_end_text(pay_cashed: bool) -> Seq<char> {
    k_pay_cashed() + bool_text(pay_cashed) + rbrace()
}

proof fn lemma_wl_tail_split(hours: u64, pay_rate: u64, tax_rate: u64, pay_cashed: bool)
    ensures
        wl_tail_text(hours, pay_rate, tax_rate, pay_cashed) == wl_mid_text(
            hours,
            pay_rate,
            tax_rate,
        ) + wl_end_text(pay_cashed),
{
    assert(wl_tail_text(hours, pay_rate, tax_rate, pay_cashed) =~= wl_mid_text(
        hours,
        pay_rate,
        tax_rate,
    ) + wl_end_text(pay_cashed));
}


/// The hours and payRate fields of a work-log record.
pub open spec fn wl_mid_a_text(hours: u64, pay_rate: u64) -> Seq<char> {
    k_hours() + dec_digits(hours as nat) + k_pay_rate() + dec_digits(pay_rate as nat)
}

/// The taxRate field of a work-log record.
pub open spec fn wl_mid_b_text(tax_rate: u64) -> Seq<char> {
    k_tax_rate() + dec_digits(tax_rate as nat)
}

proof fn lemma_wl_mid_split(hours: u64, pay_rate: u64, tax_rate: u64)
    ensures
        wl_mid_text(hours, pay_rate, tax_rate) == wl_mid_a_text(hours, pay_rate) + wl_mid_b_text(
            tax_rate,
        ),
{
    assert(wl_mid_text(hours, pay_rate, tax_rate) =~= wl_mid_a_text(hours, pay_rate)
        + wl_mid_b_text(tax_rate));
}

#[verifier::rlimit(100)]
proof fn lemma_wl_mid_a_peel(v: Seq<char>, i: int, hours: u64, pr: u64)
    requires
        0 <= i,
        i + wl_mid_a_text(hours, pr).len() <= v.len(),
        v.subrange(i, i + wl_mid_a_text(hours, pr).len()) == wl_mid_a_text(hours, pr),
    ensures
        ({
            let o1 = i + k_hours().len();
            let o2 = o1 + dec_digits(hours as nat).len();
            let o3 = o2 + k_pay_rate().len();
            let o4 = o3 + dec_digits(pr as nat).len();
            &&& o4 == i + wl_mid_a_text(hours, pr).len()
            &&& v.subrange(i, o1) == k_hours()
            &&& v.subrange(o1, o2) == dec_digits(hours as nat)
            &&& v.subrange(o2, o3) == k_pay_rate()
            &&& v.subrange(o3, o4) == dec_digits(pr as nat)
        }),
{
    let e = i + wl_mid_a_text(hours, pr).len();
    assert(k_hours() + dec_digits(hours as nat) + k_pay_rate() + (dec_digits(pr as nat)) =~= k_hours() + dec_digits(hours as nat) + (k_pay_rate() + (dec_digits(pr as nat))));
    assert(k_hours() + dec_digits(hours as nat) + (k_pay_rate() + (dec_digits(pr as nat))) =~= k_hours() + (dec_digits(hours as nat) + (k_pay_rate() + (dec_digits(pr as nat)))));
    assert(wl_mid_a_text(hours, pr) =~= k_hours() + (dec_digits(hours as nat) + (k_pay_rate() + (dec_digits(pr as nat)))));
    lemma_split_at(v, i, e, k_hours(), dec_digits(hours as nat) + (k_pay_rate() + (dec_digits(pr as nat))));
    let o1 = i + k_hours().len();
    lemma_split_at(v, o1, e, dec_digits(hours as nat), k_pay_rate() + (dec_digits(pr as nat)));
    let o2 = o1 + dec_digits(hours as nat).len();
    lemma_split_at(v, o2, e, k_pay_rate(), dec_digits(pr as nat));
}

#[verifier::rlimit(100)]
fn parse_wl_mid_a(v: &Vec<char>, i: usize) -> (r: Option<((u64, u64), usize)>)
    requires
        i <= v@.len(),
    ensures
        r matches Some(p) ==> i <= p.1 <= v@.len() && v@.subrange(i as int, p.1 as int)
            == wl_mid_a_text(p.0.0, p.0.1),
        forall|hours: u64, pr: u64|
            (i + wl_mid_a_text(hours, pr).len() <= v@.len() && v@.subrange(i as int, i + wl_mid_a_text(hours, pr).len()) == wl_mid_a_text(hours, pr) && (i + wl_mid_a_text(hours, pr).len() == v@.len() || !is_digit(v@[i + wl_mid_a_text(hours, pr).len()]))) ==> {
            r matches Some(p)
                && r->Some_0.0.0 == hours
                && r->Some_0.0.1 == pr
                && r->Some_0.1 as int == i + wl_mid_a_text(hours, pr).len()
        },
{
    proof {
        reveal_strlit(", \"hours\": ");
        assert(", \"hours\": "@ =~= k_hours());
        reveal_strlit(", \"payRate\": ");
        assert(", \"payRate\": "@ =~= k_pay_rate());
    }
    let step1 = expect_lit(v, i, ", \"hours\": ", Ghost(k_hours()));
    let o1;
    match step1 {
        Option::Some(q) => { o1 = q; },
        Option::None => {
            proof {
                assert forall|hours: u64, pr: u64|
                    (i + wl_mid_a_text(hours, pr).len() <= v@.len() && v@.subrange(i as int, i + wl_mid_a_text(hours, pr).len()) == wl_mid_a_text(hours, pr) && (i + wl_mid_a_text(hours, pr).len() == v@.len() || !is_digit(v@[i + wl_mid_a_text(hours, pr).len()]))) implies false by {
                    lemma_wl_mid_a_peel(v@, i as int, hours, pr);
                    assert(step1 matches Some(qz));
                }
            }
            return None;
        },
    }
    let step2 = parse_u64(v, o1);
    let f0;
    let o2;
    match step2 {
        Option::Some(q) => { f0 = q.0; o2 = q.1; },
        Option::None => {
            proof {
                assert forall|hours: u64, pr: u64|
                    (i + wl_mid_a_text(hours, pr).len() <= v@.len() && v@.subrange(i as int, i + wl_mid_a_text(hours, pr).len()) == wl_mid_a_text(hours, pr) && (i + wl_mid_a_text(hours, pr).len() == v@.len() || !is_digit(v@[i + wl_mid_a_text(hours, pr).len()]))) implies false by {
                    lemma_wl_mid_a_peel(v@, i as int, hours, pr);
                    let po1 = i + k_hours().len();
                    assert(step1 matches Some(qq1) && qq1 as int == po1);
                    let po2 = po1 + dec_digits(hours as nat).len();
                    assert(v@.subrange(po2, po2 + k_pay_rate().len())[0] == v@[po2]);
                    assert(!is_digit(v@[po2]));
                    assert(step2 matches Some(qz));
                }
            }
            return None;
        },
    }
    let step3 = expect_lit(v, o2, ", \"payRate\": ", Ghost(k_pay_rate()));
    let o3;
    match step3 {
        Option::Some(q) => { o3 = q; },
        Option::None => {
            proof {
                assert forall|hours: u64, pr: u64|
                    (i + wl_mid_a_text(hours, pr).len() <= v@.len() && v@.subrange(i as int, i + wl_mid_a_text(hours, pr).len()) == wl_mid_a_text(hours, pr) && (i + wl_mid_a_text(hours, pr).len() == v@.len() || !is_digit(v@[i + wl_mid_a_text(hours, pr).len()]))) implies false by {
                    lemma_wl_mid_a_peel(v@, i as int, hours, pr);
                    let po1 = i + k_hours().len();
                    assert(step1 matches Some(qq1) && qq1 as int == po1);
                    let po2 = po1 + dec_digits(hours as nat).len();
                    assert(v@.subrange(po2, po2 + k_pay_rate().len())[0] == v@[po2]);
                    assert(!is_digit(v@[po2]));
                    assert(step2 matches Some(qq2) && qq2.0 == hours && qq2.1 as int == po2);
                    assert(step3 matches Some(qz));
                }
            }
            return None;
        },
    }
    let step4 = parse_u64(v, o3);
    let f1;
    let o4;
    match step4 {
        Option::Some(q) => { f1 = q.0; o4 = q.1; },
        Option::None => {
            proof {
                assert forall|hours: u64, pr: u64|
                    (i + wl_mid_a_text(hours, pr).len() <= v@.len() && v@.subrange(i as int, i + wl_mid_a_text(hours, pr).len()) == wl_mid_a_text(hours, pr) && (i + wl_mid_a_text(hours, pr).len() == v@.len() || !is_digit(v@[i + wl_mid_a_text(hours, pr).len()]))) implies false by {
                    lemma_wl_mid_a_peel(v@, i as int, hours, pr);
                    let po1 = i + k_hours().len();
                    assert(step1 matches Some(qq1) && qq1 as int == po1);
                    let po2 = po1 + dec_digits(hours as nat).len();
                    assert(v@.subrange(po2, po2 + k_pay_rate().len())[0] == v@[po2]);
                    assert(!is_digit(v@[po2]));
                    assert(step2 matches Some(qq2) && qq2.0 == hours && qq2.1 as int == po2);
                    let po3 = po2 + k_pay_rate().len();
                    assert(step3 matches Some(qq3) && qq3 as int == po3);
                    let po4 = po3 + dec_digits(pr as nat).len();
                    assert(po4 == i + wl_mid_a_text(hours, pr).len());
                    assert(step4 matches Some(qz));
                }
            }
            return None;
        },
    }
    let r = Some(((f0, f1), o4));
    proof {
        lemma_join_at(v@, i as int, o1 as int, o2 as int, k_hours(), dec_digits(f0 as nat));
        lemma_join_at(v@, i as int, o2 as int, o3 as int, k_hours() + dec_digits(f0 as nat), k_pay_rate());
        lemma_join_at(v@, i as int, o3 as int, o4 as int, k_hours() + dec_digits(f0 as nat) + k_pay_rate(), dec_digits(f1 as nat));
        assert(v@.subrange(i as int, o4 as int) == wl_mid_a_text(f0, f1));
        assert forall|hours: u64, pr: u64|
            (i + wl_mid_a_text(hours, pr).len() <= v@.len() && v@.subrange(i as int, i + wl_mid_a_text(hours, pr).len()) == wl_mid_a_text(hours, pr) && (i + wl_mid_a_text(hours, pr).len() == v@.len() || !is_digit(v@[i + wl_mid_a_text(hours, pr).len()]))) implies {
            r matches Some(p)
                && r->Some_0.0.0 == hours
                && r->Some_0.0.1 == pr
                && r->Some_0.1 as int == i + wl_mid_a_text(hours, pr).len()
        } by {
                    lemma_wl_mid_a_peel(v@, i as int, hours, pr);
                    let po1 = i + k_hours().len();
                    assert(step1 matches Some(qq1) && qq1 as int == po1);
                    let po2 = po1 + dec_digits(hours as nat).len();
                    assert(v@.subrange(po2, po2 + k_pay_rate().len())[0] == v@[po2]);
                    assert(!is_digit(v@[po2]));
                    assert(step2 matches Some(qq2) && qq2.0 == hours && qq2.1 as int == po2);
                    let po3 = po2 + k_pay_rate().len();
                    assert(step3 matches Some(qq3) && qq3 as int == po3);
                    let po4 = po3 + dec_digits(pr as nat).len();
                    assert(po4 == i + wl_mid_a_text(hours, pr).len());
                    assert(step4 matches Some(qq4) && qq4.0 == pr && qq4.1 as int == po4);
        }
    }
    r
}

#[verifier::rlimit(100)]
proof fn lemma_wl_mid_b_peel(v: Seq<char>, i: int, tr: u64)
    requires
        0 <= i,
        i + wl_mid_b_text(tr).len() <= v.len(),
        v.subrange(i, i + wl_mid_b_text(tr).len()) == wl_mid_b_text(tr),
    ensures
        ({
            let o1 = i + k_tax_rate().len();
            let o2 = o1 + dec_digits(tr as nat).len();
            &&& o2 == i + wl_mid_b_text(tr).len()
            &&& v.subrange(i, o1) == k_tax_rate()
            &&& v.subrange(o1, o2) == dec_digits(tr as nat)
        }),
{
    let e = i + wl_mid_b_text(tr).len();
    assert(wl_mid_b_text(tr) =~= k_tax_rate() + (dec_digits(tr as nat)));
    lemma_split_at(v, i, e, k_tax_rate(), dec_digits(tr as nat));
}

#[verifier::rlimit(100)]
fn parse_wl_mid_b(v: &Vec<char>, i: usize) -> (r: Option<(u64, usize)>)
    requires
        i <= v@.len(),
    ensures
        r matches Some(p) ==> i <= p.1 <= v@.len() && v@.subrange(i as int, p.1 as int)
            == wl_mid_b_text(p.0),
        forall|tr: u64|
            (i + wl_mid_b_text(tr).len() <= v@.len() && v@.subrange(i as int, i + wl_mid_b_text(tr).len()) == wl_mid_b_text(tr) && (i + wl_mid_b_text(tr).len() == v@.len() || !is_digit(v@[i + wl_mid_b_text(tr).len()]))) ==> {
            r matches Some(p)
                && r->Some_0.0 == tr
                && r->Some_0.1 as int == i + wl_mid_b_text(tr).len()
        },
{
    proof {
        reveal_strlit(", \"taxRate\": ");
        assert(", \"taxRate\": "@ =~= k_tax_rate());
    }
    let step1 = expect_lit(v, i, ", \"taxRate\": ", Ghost(k_tax_rate()));
    let o1;
    match step1 {
        Option::Some(q) => { o1 = q; },
        Option::None => {
            proof {
                assert forall|tr: u64|
                    (i + wl_mid_b_text(tr).len() <= v@.len() && v@.subrange(i as int, i + wl_mid_b_text(tr).len()) == wl_mid_b_text(tr) && (i + wl_mid_b_text(tr).len() == v@.len() || !is_digit(v@[i + wl_mid_b_text(tr).len()]))) implies false by {
                    lemma_wl_mid_b_peel(v@, i as int, tr);
                    assert(step1 matches Some(qz));
                }
            }
            return None;
        },
    }
    let step2 = parse_u64(v, o1);
    let f0;
    let o2;
    match step2 {
        Option::Some(q) => { f0 = q.0; o2 = q.1; },
        Option::None => {
            proof {
                assert forall|tr: u64|
                    (i + wl_mid_b_text(tr).len() <= v@.len() && v@.subrange(i as int, i + wl_mid_b_text(tr).len()) == wl_mid_b_text(tr) && (i + wl_mid_b_text(tr).len() == v@.len() || !is_digit(v@[i + wl_mid_b_text(tr).len()]))) implies false by {
                    lemma_wl_mid_b_peel(v@, i as int, tr);
                    let po1 = i + k_tax_rate().len();
                    assert(step1 matches Some(qq1) && qq1 as int == po1);
                    let po2 = po1 + dec_digits(tr as nat).len();
                    assert(po2 == i + wl_mid_b_text(tr).len());
                    assert(step2 matches Some(qz));
                }
            }
            return None;
        },
    }
    let r = Some((f0, o2));
    proof {
        lemma_join_at(v@, i as int, o1 as int, o2 as int, k_tax_rate(), dec_digits(f0 as nat));
        assert(v@.subrange(i as int, o2 as int) == wl_mid_b_text(f0));
        assert forall|tr: u64|
            (i + wl_mid_b_text(tr).len() <= v@.len() && v@.subrange(i as int, i + wl_mid_b_text(tr).len()) == wl_mid_b_text(tr) && (i + wl_mid_b_text(tr).len() == v@.len() || !is_digit(v@[i + wl_mid_b_text(tr).len()]))) implies {
            r matches Some(p)
                && r->Some_0.0 == tr
                && r->Some_0.1 as int == i + wl_mid_b_text(tr).len()
        } by {
                    lemma_wl_mid_b_peel(v@, i as int, tr);
                    let po1 = i + k_tax_rate().len();
                    assert(step1 matches Some(qq1) && qq1 as int == po1);
                    let po2 = po1 + dec_digits(tr as nat).len();
                    assert(po2 == i + wl_mid_b_text(tr).len());
                    assert(step2 matches Some(qq2) && qq2.0 == tr && qq2.1 as int == po2);
        }
    }
    r
}

#[verifier::rlimit(100)]
fn parse_wl_mid(v: &Vec<char>, i: usize) -> (r: Option<((u64, u64, u64), usize)>)
    requires
        i <= v@.len(),
    ensures
        r matches Some(p) ==> i <= p.1 <= v@.len() && v@.subrange(i as int, p.1 as int)
            == wl_mid_text(p.0.0, p.0.1, p.0.2),
        forall|hours: u64, pr: u64, tr: u64|
            (i + wl_mid_text(hours, pr, tr).len() <= v@.len() && v@.subrange(
                i as int,
                i + wl_mid_text(hours, pr, tr).len(),
            ) == wl_mid_text(hours, pr, tr) && (i + wl_mid_text(hours, pr, tr).len() == v@.len()
                || !is_digit(v@[i + wl_mid_text(hours, pr, tr).len()]))) ==> {
            r matches Some(p)
                && r->Some_0.0.0 == hours
                && r->Some_0.0.1 == pr
                && r->Some_0.0.2 == tr
                && r->Some_0.1 as int == i + wl_mid_text(hours, pr, tr).len()
        },
{
    let h = parse_wl_mid_a(v, i);
    match h {
        Option::Some(hp) => {
            let m = hp.1;
            let t = parse_wl_mid_b(v, m);
            match t {
                Option::Some(tp) => {
                    let j = tp.1;
                    let r = Some(((hp.0.0, hp.0.1, tp.0), j));
                    proof {
                        lemma_join_at(
                            v@,
                            i as int,
                            m as int,
                            j as int,
                            wl_mid_a_text(hp.0.0, hp.0.1),
                            wl_mid_b_text(tp.0),
                        );
                        lemma_wl_mid_split(hp.0.0, hp.0.1, tp.0);
                        assert forall|hours: u64, pr: u64, tr: u64|
                            (i + wl_mid_text(hours, pr, tr).len() <= v@.len() && v@.subrange(
                                i as int,
                                i + wl_mid_text(hours, pr, tr).len(),
                            ) == wl_mid_text(hours, pr, tr) && (i + wl_mid_text(
                                hours,
                                pr,
                                tr,
                            ).len() == v@.len() || !is_digit(
                                v@[i + wl_mid_text(hours, pr, tr).len()],
                            ))) implies {
                            r matches Some(p)
                                && r->Some_0.0.0 == hours
                                && r->Some_0.0.1 == pr
                                && r->Some_0.0.2 == tr
                                && r->Some_0.1 as int == i + wl_mid_text(hours, pr, tr).len()
                        } by {
                            lemma_wl_mid_split(hours, pr, tr);
                            let at = wl_mid_a_text(hours, pr);
                            let bt = wl_mid_b_text(tr);
                            let e = i + wl_mid_text(hours, pr, tr).len();
                            lemma_split_at(v@, i as int, e, at, bt);
                            assert(v@.subrange(i + at.len(), e)[0] == v@[i + at.len()]);
                            assert(!is_digit(v@[i + at.len()]));
                            assert(h matches Some(hq) && hq.0.0 == hours && hq.0.1 == pr
                                && hq.1 as int == i + at.len());
                            assert(t matches Some(tq) && tq.0 == tr && tq.1 as int == e);
                        }
                    }
                    r
                },
                Option::None => {
                    proof {
                        assert forall|hours: u64, pr: u64, tr: u64|
                            (i + wl_mid_text(hours, pr, tr).len() <= v@.len() && v@.subrange(
                                i as int,
                                i + wl_mid_text(hours, pr, tr).len(),
                            ) == wl_mid_text(hours, pr, tr) && (i + wl_mid_text(
                                hours,
                                pr,
                                tr,
                            ).len() == v@.len() || !is_digit(
                                v@[i + wl_mid_text(hours, pr, tr).len()],
                            ))) implies false by {
                            lemma_wl_mid_split(hours, pr, tr);
                            let at = wl_mid_a_text(hours, pr);
                            let bt = wl_mid_b_text(tr);
                            let e = i + wl_mid_text(hours, pr, tr).len();
                            lemma_split_at(v@, i as int, e, at, bt);
                            assert(v@.subrange(i + at.len(), e)[0] == v@[i + at.len()]);
                            assert(!is_digit(v@[i + at.len()]));
                            assert(h matches Some(hq) && hq.1 as int == i + at.len());
                            assert(t matches Some(tq));
                        }
                    }
                    None
                },
            }
        },
        Option::None => {
            proof {
                assert forall|hours: u64, pr: u64, tr: u64|
                    (i + wl_mid_text(hours, pr, tr).len() <= v@.len() && v@.subrange(
                        i as int,
                        i + wl_mid_text(hours, pr, tr).len(),
                    ) == wl_mid_text(hours, pr, tr) && (i + wl_mid_text(hours, pr, tr).len()
                        == v@.len() || !is_digit(v@[i + wl_mid_text(hours, pr, tr).len()])))
                        implies false by {
                    lemma_wl_mid_split(hours, pr, tr);
                    let at = wl_mid_a_text(hours, pr);
                    let bt = wl_mid_b_text(tr);
                    let e = i + wl_mid_text(hours, pr, tr).len();
                    lemma_split_at(v@, i as int, e, at, bt);
                    assert(v@.subrange(i + at.len(), e)[0] == v@[i + at.len()]);
                    assert(!is_digit(v@[i + at.len()]));
                    assert(h matches Some(hq));
                }
            }
            None
        },
    }
}

#[verifier::rlimit(100)]
proof fn lemma_wl_end_peel(v: Seq<char>, i: int, pc: bool)
    requires
        0 <= i,
        i + wl_end_text(pc).len() <= v.len(),
        v.subrange(i, i + wl_end_text(pc).len()) == wl_end_text(pc),
    ensures
        ({
            let o1 = i + k_pay_cashed().len();
            let o2 = o1 + bool_text(pc).len();
            let o3 = o2 + rbrace().len();
            &&& o3 == i + wl_end_text(pc).len()
            &&& v.subrange(i, o1) == k_pay_cashed()
            &&& v.subrange(o1, o2) == bool_text(pc)
            &&& v.subrange(o2, o3) == rbrace()
        }),
{
    let e = i + wl_end_text(pc).len();
    assert(k_pay_cashed() + bool_text(pc) + (rbrace()) =~= k_pay_cashed() + (bool_text(pc) + (rbrace())));
    assert(wl_end_text(pc) =~= k_pay_cashed() + (bool_text(pc) + (rbrace())));
    lemma_split_at(v, i, e, k_pay_cashed(), bool_text(pc) + (rbrace()));
    let o1 = i + k_pay_cashed().len();
    lemma_split_at(v, o1, e, bool_text(pc), rbrace());
}

#[verifier::rlimit(100)]
fn parse_wl_end(v: &Vec<char>, i: usize) -> (r: Option<(bool, usize)>)
    requires
        i <= v@.len(),
    ensures
        r matches Some(p) ==> i <= p.1 <= v@.len() && v@.subrange(i as int, p.1 as int)
            == wl_end_text(p.0),
        forall|pc: bool|
            (i + wl_end_text(pc).len() <= v@.len() && v@.subrange(i as int, i + wl_end_text(pc).len()) == wl_end_text(pc)) ==> {
            r matches Some(p)
                && r->Some_0.0 == pc
                && r->Some_0.1 as int == i + wl_end_text(pc).len()
        },
{
    proof {
        reveal_strlit(", \"payCashed\": ");
        assert(", \"payCashed\": "@ =~= k_pay_cashed());
        reveal_strlit("}");
        assert("}"@ =~= rbrace());
    }
    let step1 = expect_lit(v, i, ", \"payCashed\": ", Ghost(k_pay_cashed()));
    let o1;
    match step1 {
        Option::Some(q) => { o1 = q; },
        Option::None => {
            proof {
                assert forall|pc: bool|
                    (i + wl_end_text(pc).len() <= v@.len() && v@.subrange(i as int, i + wl_end_text(pc).len()) == wl_end_text(pc)) implies false by {
                    lemma_wl_end_peel(v@, i as int, pc);
                    assert(step1 matches Some(qz));
                }
            }
            return None;
        },
    }
    let step2 = parse_bool(v, o1);
    let f0;
    let o2;
    match step2 {
        Option::Some(q) => { f0 = q.0; o2 = q.1; },
        Option::None => {
            proof {
                assert forall|pc: bool|
                    (i + wl_end_text(pc).len() <= v@.len() && v@.subrange(i as int, i + wl_end_text(pc).len()) == wl_end_text(pc)) implies false by {
                    lemma_wl_end_peel(v@, i as int, pc);
                    let po1 = i + k_pay_cashed().len();
                    assert(step1 matches Some(qq1) && qq1 as int == po1);
                    assert(step2 matches Some(qz));
                }
            }
            return None;
        },
    }
    let step3 = expect_lit(v, o2, "}", Ghost(rbrace()));
    let o3;
    match step3 {
        Option::Some(q) => { o3 = q; },
        Option::None => {
            proof {
                assert forall|pc: bool|
                    (i + wl_end_text(pc).len() <= v@.len() && v@.subrange(i as int, i + wl_end_text(pc).len()) == wl_end_text(pc)) implies false by {
                    lemma_wl_end_peel(v@, i as int, pc);
                    let po1 = i + k_pay_cashed().len();
                    assert(step1 matches Some(qq1) && qq1 as int == po1);
                    let po2 = po1 + bool_text(pc).len();
                    assert(step2 matches Some(qq2) && qq2.0 == pc && qq2.1 as int == po2);
                    assert(step3 matches Some(qz));
                }
            }
            return None;
        },
    }
    let r = Some((f0, o3));
    proof {
        lemma_join_at(v@, i as int, o1 as int, o2 as int, k_pay_cashed(), bool_text(f0));
        lemma_join_at(v@, i as int, o2 as int, o3 as int, k_pay_cashed() + bool_text(f0), rbrace());
        assert(v@.subrange(i as int, o3 as int) == wl_end_text(f0));
        assert forall|pc: bool|
            (i + wl_end_text(pc).len() <= v@.len() && v@.subrange(i as int, i + wl_end_text(pc).len()) == wl_end_text(pc)) implies {
            r matches Some(p)
                && r->Some_0.0 == pc
                && r->Some_0.1 as int == i + wl_end_text(pc).len()
        } by {
                    lemma_wl_end_peel(v@, i as int, pc);
                    let po1 = i + k_pay_cashed().len();
                    assert(step1 matches Some(qq1) && qq1 as int == po1);
                    let po2 = po1 + bool_text(pc).len();
                    assert(step2 matches Some(qq2) && qq2.0 == pc && qq2.1 as int == po2);
                    let po3 = po2 + rbrace().len();
                    assert(step3 matches Some(qq3) && qq3 as int == po3);
        }
    }
    r
}

#[verifier::rlimit(100)]
fn parse_wl_tail(v: &Vec<char>, i: usize) -> (r: Option<((u64, u64, u64, bool), usize)>)
    requires
        i <= v@.len(),
    ensures
        r matches Some(p) ==> i <= p.1 <= v@.len() && v@.subrange(i as int, p.1 as int)
            == wl_tail_text(p.0.0, p.0.1, p.0.2, p.0.3),
        forall|hours: u64, pr: u64, tr: u64, pc: bool|
            (i + wl_tail_text(hours, pr, tr, pc).len() <= v@.len() && v@.subrange(
                i as int,
                i + wl_tail_text(hours, pr, tr, pc).len(),
            ) == wl_tail_text(hours, pr, tr, pc)) ==> {
            r matches Some(p)
                && r->Some_0.0.0 == hours
                && r->Some_0.0.1 == pr
                && r->Some_0.0.2 == tr
                && r->Some_0.0.3 == pc
                && r->Some_0.1 as int == i + wl_tail_text(hours, pr, tr, pc).len()
        },
{
    let h = parse_wl_mid(v, i);
    match h {
        Option::Some(hp) => {
            let m = hp.1;
            let t = parse_wl_end(v, m);
            match t {
                Option::Some(tp) => {
                    let j = tp.1;
                    let r = Some(((hp.0.0, hp.0.1, hp.0.2, tp.0), j));
                    proof {
                        lemma_join_at(
                            v@,
                            i as int,
                            m as int,
                            j as int,
                            wl_mid_text(hp.0.0, hp.0.1, hp.0.2),
                            wl_end_text(tp.0),
                        );
                        lemma_wl_tail_split(hp.0.0, hp.0.1, hp.0.2, tp.0);
                        assert forall|hours: u64, pr: u64, tr: u64, pc: bool|
                            (i + wl_tail_text(hours, pr, tr, pc).len() <= v@.len() && v@.subrange(
                                i as int,
                                i + wl_tail_text(hours, pr, tr, pc).len(),
                            ) == wl_tail_text(hours, pr, tr, pc)) implies {
                            r matches Some(p)
                                && r->Some_0.0.0 == hours
                                && r->Some_0.0.1 == pr
                                && r->Some_0.0.2 == tr
                                && r->Some_0.0.3 == pc
                                && r->Some_0.1 as int == i + wl_tail_text(hours, pr, tr, pc).len()
                        } by {
                            lemma_wl_tail_split(hours, pr, tr, pc);
                            let mt = wl_mid_text(hours, pr, tr);
                            let et = wl_end_text(pc);
                            let e = i + wl_tail_text(hours, pr, tr, pc).len();
                            lemma_split_at(v@, i as int, e, mt, et);
                            assert(v@.subrange(i + mt.len(), e)[0] == v@[i + mt.len()]);
                            assert(!is_digit(v@[i + mt.len()]));
                            assert(h matches Some(hq) && hq.0.0 == hours && hq.0.1 == pr
                                && hq.0.2 == tr && hq.1 as int == i + mt.len());
                            assert(t matches Some(tq) && tq.0 == pc && tq.1 as int == e);
                        }
                    }
                    r
                },
                Option::None => {
                    proof {
                        assert forall|hours: u64, pr: u64, tr: u64, pc: bool|
                            (i + wl_tail_text(hours, pr, tr, pc).len() <= v@.len() && v@.subrange(
                                i as int,
                                i + wl_tail_text(hours, pr, tr, pc).len(),
                            ) == wl_tail_text(hours, pr, tr, pc)) implies false by {
                            lemma_wl_tail_split(hours, pr, tr, pc);
                            let mt = wl_mid_text(hours, pr, tr);
                            let et = wl_end_text(pc);
                            let e = i + wl_tail_text(hours, pr, tr, pc).len();
                            lemma_split_at(v@, i as int, e, mt, et);
                            assert(v@.subrange(i + mt.len(), e)[0] == v@[i + mt.len()]);
                            assert(!is_digit(v@[i + mt.len()]));
                            assert(h matches Some(hq) && hq.1 as int == i + mt.len());
                            assert(t matches Some(tq));
                        }
                    }
                    None
                },
            }
        },
        Option::None => {
            proof {
                assert forall|hours: u64, pr: u64, tr: u64, pc: bool|
                    (i + wl_tail_text(hours, pr, tr, pc).len() <= v@.len() && v@.subrange(
                        i as int,
                        i + wl_tail_text(hours, pr, tr, pc).len(),
                    ) == wl_tail_text(hours, pr, tr, pc)) implies false by {
                    lemma_wl_tail_split(hours, pr, tr, pc);
                    let mt = wl_mid_text(hours, pr, tr);
                    let et = wl_end_text(pc);
                    let e = i + wl_tail_text(hours, pr, tr, pc).len();
                    lemma_split_at(v@, i as int, e, mt, et);
                    assert(v@.subrange(i + mt.len(), e)[0] == v@[i + mt.len()]);
                    assert(!is_digit(v@[i + mt.len()]));
                    assert(h matches Some(hq));
                }
            }
            None
        },
    }
}

#[verifier::rlimit(100)]
fn parse_work_log(v: &Vec<char>, i: usize) -> (r: Option<(WorkLog, usize)>)
    requires
        i <= v@.len(),
    ensures
        r matches Some(p) ==> i <= p.1 <= v@.len() && v@.subrange(i as int, p.1 as int)
            == work_log_text(p.0@),
        forall|w: WorkLogView|
            (wl_wire_ok(w) && i + work_log_text(w).len() <= v@.len() && v@.subrange(
                i as int,
                i + work_log_text(w).len(),
            ) == work_log_text(w)) ==> (r matches Some(p) && p.0@ == w && p.1 as int == i
                + work_log_text(w).len()),
{
    let h = parse_wl_head(v, i);
    match h {
        Option::Some(hp) => {
            let m = hp.1;
            let t = parse_wl_tail(v, m);
            match t {
                Option::Some(tp) => {
                    let j = tp.1;
                    let out = WorkLog {
                        id: hp.0.0,
                        date: hp.0.1,
                        job_id: hp.0.2,
                        hours: tp.0.0,
                        pay_rate: tp.0.1,
                        tax_rate: tp.0.2,
                        pay_cashed: tp.0.3,
                    };
                    let r = Some((out, j));
                    proof {
                        lemma_join_at(
                            v@,
                            i as int,
                            m as int,
                            j as int,
                            wl_head_text(out@.id, out@.date, out@.job_id),
                            wl_tail_text(out@.hours, out@.pay_rate, out@.tax_rate, out@.pay_cashed),
                        );
                        lemma_wl_text_split(out@);
                        assert(v@.subrange(i as int, j as int) == work_log_text(out@));
                        assert forall|w: WorkLogView|
                            (wl_wire_ok(w) && i + work_log_text(w).len() <= v@.len()
                                && v@.subrange(i as int, i + work_log_text(w).len())
                                == work_log_text(w)) implies (r matches Some(p) && p.0@ == w
                            && p.1 as int == i + work_log_text(w).len()) by {
                            lemma_wl_text_split(w);
                            let ht = wl_head_text(w.id, w.date, w.job_id);
                            let tt = wl_tail_text(w.hours, w.pay_rate, w.tax_rate, w.pay_cashed);
                            let e = i + work_log_text(w).len();
                            lemma_split_at(v@, i as int, e, ht, tt);
                            let wid = w.id as i32;
                            assert(wid as int == w.id);
                            assert(wl_head_text(wid as int, w.date, w.job_id) == ht);
                            assert(h matches Some(hq) && hq.0.0 == wid && hq.0.1@ == w.date
                                && hq.0.2@ == w.job_id && hq.1 as int == i + ht.len());
                            assert(t matches Some(tq) && tq.0.0 == w.hours && tq.0.1 == w.pay_rate
                                && tq.0.2 == w.tax_rate && tq.0.3 == w.pay_cashed && tq.1 as int
                                == i + ht.len() + tt.len());
                            assert(out@ =~= w);
                        }
                    }
                    r
                },
                Option::None => {
                    proof {
                        assert forall|w: WorkLogView|
                            (wl_wire_ok(w) && i + work_log_text(w).len() <= v@.len()
                                && v@.subrange(i as int, i + work_log_text(w).len())
                                == work_log_text(w)) implies false by {
                            lemma_wl_text_split(w);
                            let ht = wl_head_text(w.id, w.date, w.job_id);
                            let tt = wl_tail_text(w.hours, w.pay_rate, w.tax_rate, w.pay_cashed);
                            let e = i + work_log_text(w).len();
                            lemma_split_at(v@, i as int, e, ht, tt);
                            let wid = w.id as i32;
                            assert(wid as int == w.id);
                            assert(wl_head_text(wid as int, w.date, w.job_id) == ht);
                            assert(h matches Some(hq) && hq.1 as int == i + ht.len());
                            assert(t matches Some(tq));
                        }
                    }
                    None
                },
            }
        },
        Option::None => {
            proof {
                assert forall|w: WorkLogView|
                    (wl_wire_ok(w) && i + work_log_text(w).len() <= v@.len() && v@.subrange(
                        i as int,
                        i + work_log_text(w).len(),
                    ) == work_log_text(w)) implies false by {
                    lemma_wl_text_split(w);
                    let ht = wl_head_text(w.id, w.date, w.job_id);
                    let tt = wl_tail_text(w.hours, w.pay_rate, w.tax_rate, w.pay_cashed);
                    let e = i + work_log_text(w).len();
                    lemma_split_at(v@, i as int, e, ht, tt);
                    let wid = w.id as i32;
                    assert(wid as int == w.id);
                    assert(wl_head_text(wid as int, w.date, w.job_id) == ht);
                    assert(h matches Some(hq));
                }
            }
            None
        },
    }
}


/// The id and date fields of a balance snapshot.
pub open spec fn bs_head_text(id: int, date: Seq<char>) -> Seq<char> {
    k_id() + int_text(id) + k_date() + str_tok(date)
}

/// The checking and creditAvailable fields.
pub open spec fn bs_mid1_text(checking: u64, credit_available: u64) -> Seq<char> {
    k_checking() + dec_digits(checking as nat) + k_credit_available() + dec_digits(
        credit_available as nat,
    )
}

/// The creditLimit and personalDebt fields.
pub open spec fn bs_mid2_text(credit_limit: u64, personal_debt: u64) -> Seq<char> {
    k_credit_limit() + dec_digits(credit_limit as nat) + k_personal_debt() + dec_digits(
        personal_debt as nat,
    )
}

/// The note field and the closing brace.
pub open spec fn bs_end_text(note: Seq<char>) -> Seq<char> {
    k_note() + str_tok(note) + rbrace()
}

/// creditLimit through the closing brace.
pub open spec fn bs_m2e_text(credit_limit: u64, personal_debt: u64, note: Seq<char>) -> Seq<
    char,
> {
    bs_mid2_text(credit_limit, personal_debt) + bs_end_text(note)
}

/// checking through the closing brace.
pub open spec fn bs_rest_text(
    checking: u64,
    credit_available: u64,
    credit_limit: u64,
    personal_debt: u64,
    note: Seq<char>,
) -> Seq<char> {
    bs_mid1_text(checking, credit_available) + bs_m2e_text(credit_limit, personal_debt, note)
}

proof fn lemma_bs_text_split(w: BalanceSnapshotView)
    ensures
        snapshot_text(w) == bs_head_text(w.id, w.date) + bs_rest_text(
            w.checking,
            w.credit_available,
            w.credit_limit,
            w.personal_debt,
            w.note,
        ),
{
    assert(snapshot_text(w) =~= bs_head_text(w.id, w.date) + bs_rest_text(
        w.checking,
        w.credit_available,
        w.credit_limit,
        w.personal_debt,
        w.note,
    ));
}

/// A snapshot view whose id fits the wire's 32-bit signed integers; every
/// record the encoder is given satisfies it.
pub open spec fn bs_wire_ok(w: BalanceSnapshotView) -> bool {
    i32::MIN as int <= w.id <= i32::MAX as int
}

#[verifier::rlimit(100)]
proof fn lemma_bs_head_peel(v: Seq<char>, i: int, nid: i32, date: Seq<char>)
    requires
        0 <= i,
        i + bs_head_text(nid as int, date).len() <= v.len(),
        v.subrange(i, i + bs_head_text(nid as int, date).len()) == bs_head_text(nid as int, date),
    ensures
        ({
            let o1 = i + k_id().len();
            let o2 = o1 + int_text(nid as int).len();
            let o3 = o2 + k_date().len();
            let o4 = o3 + str_tok(date).len();
            &&& o4 == i + bs_head_text(nid as int, date).len()
            &&& v.subrange(i, o1) == k_id()
            &&& v.subrange(o1, o2) == int_text(nid as int)
            &&& v.subrange(o2, o3) == k_date()
            &&& v.subrange(o3, o4) == str_tok(date)
        }),
{
    let e = i + bs_head_text(nid as int, date).len();
    assert(k_id() + int_text(nid as int) + k_date() + (str_tok(date)) =~= k_id() + int_text(nid as int) + (k_date() + (str_tok(date))));
    assert(k_id() + int_text(nid as int) + (k_date() + (str_tok(date))) =~= k_id() + (int_text(nid as int) + (k_date() + (str_tok(date)))));
    assert(bs_head_text(nid as int, date) =~= k_id() + (int_text(nid as int) + (k_date() + (str_tok(date)))));
    lemma_split_at(v, i, e, k_id(), int_text(nid as int) + (k_date() + (str_tok(date))));
    let o1 = i + k_id().len();
    lemma_split_at(v, o1, e, int_text(nid as int), k_date() + (str_tok(date)));
    let o2 = o1 + int_text(nid as int).len();
    lemma_split_at(v, o2, e, k_date(), str_tok(date));
}

#[verifier::rlimit(100)]
fn parse_bs_head(v: &Vec<char>, i: usize) -> (r: Option<((i32, String), usize)>)
    requires
        i <= v@.len(),
    ensures
        r matches Some(p) ==> i <= p.1 <= v@.len() && v@.subrange(i as int, p.1 as int)
            == bs_head_text(p.0.0 as int, p.0.1@),
        forall|nid: i32, date: Seq<char>|
            (i + bs_head_text(nid as int, date).len() <= v@.len() && v@.subrange(i as int, i + bs_head_text(nid as int, date).len()) == bs_head_text(nid as int, date)) ==> {
            r matches Some(p)
                && r->Some_0.0.0 == nid
                && r->Some_0.0.1@ == date
                && r->Some_0.1 as int == i + bs_head_text(nid as int, date).len()
        },
{
    proof {
        reveal_strlit("{\"id\": ");
        assert("{\"id\": "@ =~= k_id());
        reveal_strlit(", \"date\": ");
        assert(", \"date\": "@ =~= k_date());
    }
    let step1 = expect_lit(v, i, "{\"id\": ", Ghost(k_id()));
    let o1;
    match step1 {
        Option::Some(q) => { o1 = q; },
        Option::None => {
            proof {
                assert forall|nid: i32, date: Seq<char>|
                    (i + bs_head_text(nid as int, date).len() <= v@.len() && v@.subrange(i as int, i + bs_head_text(nid as int, date).len()) == bs_head_text(nid as int, date)) implies false by {
                    lemma_bs_head_peel(v@, i as int, nid, date);
                    assert(step1 matches Some(qz));
                }
            }
            return None;
        },
    }
    let step2 = parse_i32(v, o1);
    let f0;
    let o2;
    match step2 {
        Option::Some(q) => { f0 = q.0; o2 = q.1; },
        Option::None => {
            proof {
                assert forall|nid: i32, date: Seq<char>|
                    (i + bs_head_text(nid as int, date).len() <= v@.len() && v@.subrange(i as int, i + bs_head_text(nid as int, date).len()) == bs_head_text(nid as int, date)) implies false by {
                    lemma_bs_head_peel(v@, i as int, nid, date);
                    let po1 = i + k_id().len();
                    assert(step1 matches Some(qq1) && qq1 as int == po1);
                    let po2 = po1 + int_text(nid as int).len();
                    assert(v@.subrange(po2, po2 + k_date().len())[0] == v@[po2]);
                    assert(!is_digit(v@[po2]));
                    assert(step2 matches Some(qz));
                }
            }
            return None;
        },
    }
    let step3 = expect_lit(v, o2, ", \"date\": ", Ghost(k_date()));
    let o3;
    match step3 {
        Option::Some(q) => { o3 = q; },
        Option::None => {
            proof {
                assert forall|nid: i32, date: Seq<char>|
                    (i + bs_head_text(nid as int, date).len() <= v@.len() && v@.subrange(i as int, i + bs_head_text(nid as int, date).len()) == bs_head_text(nid as int, date)) implies false by {
                    lemma_bs_head_peel(v@, i as int, nid, date);
                    let po1 = i + k_id().len();
                    assert(step1 matches Some(qq1) && qq1 as int == po1);
                    let po2 = po1 + int_text(nid as int).len();
                    assert(v@.subrange(po2, po2 + k_date().len())[0] == v@[po2]);
                    assert(!is_digit(v@[po2]));
                    assert(step2 matches Some(qq2) && qq2.0 == nid && qq2.1 as int == po2);
                    assert(step3 matches Some(qz));
                }
            }
            return None;
        },
    }
    let step4 = parse_str_tok(v, o3);
    let f1;
    let o4;
    match step4 {
        Option::Some(q) => { f1 = q.0; o4 = q.1; },
        Option::None => {
            proof {
                assert forall|nid: i32, date: Seq<char>|
                    (i + bs_head_text(nid as int, date).len() <= v@.len() && v@.subrange(i as int, i + bs_head_text(nid as int, date).len()) == bs_head_text(nid as int, date)) implies false by {
                    lemma_bs_head_peel(v@, i as int, nid, date);
                    let po1 = i + k_id().len();
                    assert(step1 matches Some(qq1) && qq1 as int == po1);
                    let po2 = po1 + int_text(nid as int).len();
                    assert(v@.subrange(po2, po2 + k_date().len())[0] == v@[po2]);
                    assert(!is_digit(v@[po2]));
                    assert(step2 matches Some(qq2) && qq2.0 == nid && qq2.1 as int == po2);
                    let po3 = po2 + k_date().len();
                    assert(step3 matches Some(qq3) && qq3 as int == po3);
                    assert(step4 matches Some(qz));
                }
            }
            return None;
        },
    }
    let r = Some(((f0, f1), o4));
    proof {
        lemma_join_at(v@, i as int, o1 as int, o2 as int, k_id(), int_text(f0 as int));
        lemma_join_at(v@, i as int, o2 as int, o3 as int, k_id() + int_text(f0 as int), k_date());
        lemma_join_at(v@, i as int, o3 as int, o4 as int, k_id() + int_text(f0 as int) + k_date(), str_tok(f1@));
        assert(v@.subrange(i as int, o4 as int) == bs_head_text(f0 as int, f1@));
        assert forall|nid: i32, date: Seq<char>|
            (i + bs_head_text(nid as int, date).len() <= v@.len() && v@.subrange(i as int, i + bs_head_text(nid as int, date).len()) == bs_head_text(nid as int, date)) implies {
            r matches Some(p)
                && r->Some_0.0.0 == nid
                && r->Some_0.0.1@ == date
                && r->Some_0.1 as int == i + bs_head_text(nid as int, date).len()
        } by {
                    lemma_bs_head_peel(v@, i as int, nid, date);
                    let po1 = i + k_id().len();
                    assert(step1 matches Some(qq1) && qq1 as int == po1);
                    let po2 = po1 + int_text(nid as int).len();
                    assert(v@.subrange(po2, po2 + k_date().len())[0] == v@[po2]);
                    assert(!is_digit(v@[po2]));
                    assert(step2 matches Some(qq2) && qq2.0 == nid && qq2.1 as int == po2);
                    let po3 = po2 + k_date().len();
                    assert(step3 matches Some(qq3) && qq3 as int == po3);
                    let po4 = po3 + str_tok(date).len();
                    assert(step4 matches Some(qq4) && qq4.0@ == date && qq4.1 as int == po4);
        }
    }
    r
}

#[verifier::rlimit(100)]
proof fn lemma_bs_mid1_peel(v: Seq<char>, i: int, checking: u64, ca: u64)
    requires
        0 <= i,
        i + bs_mid1_text(checking, ca).len() <= v.len(),
        v.subrange(i, i + bs_mid1_text(checking, ca).len()) == bs_mid1_text(checking, ca),
    ensures
        ({
            let o1 = i + k_checking().len();
            let o2 = o1 + dec_digits(checking as nat).len();
            let o3 = o2 + k_credit_available().len();
            let o4 = o3 + dec_digits(ca as nat).len();
            &&& o4 == i + bs_mid1_text(checking, ca).len()
            &&& v.subrange(i, o1) == k_checking()
            &&& v.subrange(o1, o2) == dec_digits(checking as nat)
            &&& v.subrange(o2, o3) == k_credit_available()
            &&& v.subrange(o3, o4) == dec_digits(ca as nat)
        }),
{
    let e = i + bs_mid1_text(checking, ca).len();
    assert(k_checking() + dec_digits(checking as nat) + k_credit_available() + (dec_digits(ca as nat)) =~= k_checking() + dec_digits(checking as nat) + (k_credit_available() + (dec_digits(ca as nat))));
    assert(k_checking() + dec_digits(checking as nat) + (k_credit_available() + (dec_digits(ca as nat))) =~= k_checking() + (dec_digits(checking as nat) + (k_credit_available() + (dec_digits(ca as nat)))));
    assert(bs_mid1_text(checking, ca) =~= k_checking() + (dec_digits(checking as nat) + (k_credit_available() + (dec_digits(ca as nat)))));
    lemma_split_at(v, i, e, k_checking(), dec_digits(checking as nat) + (k_credit_available() + (dec_digits(ca as nat))));
    let o1 = i + k_checking().len();
    lemma_split_at(v, o1, e, dec_digits(checking as nat), k_credit_available() + (dec_digits(ca as nat)));
    let o2 = o1 + dec_digits(checking as nat).len();
    lemma_split_at(v, o2, e, k_credit_available(), dec_digits(ca as nat));
}

#[verifier::rlimit(100)]
fn parse_bs_mid1(v: &Vec<char>, i: usize) -> (r: Option<((u64, u64), usize)>)
    requires
        i <= v@.len(),
    ensures
        r matches Some(p) ==> i <= p.1 <= v@.len() && v@.subrange(i as int, p.1 as int)
            == bs_mid1_text(p.0.0, p.0.1),
        forall|checking: u64, ca: u64|
            (i + bs_mid1_text(checking, ca).len() <= v@.len() && v@.subrange(i as int, i + bs_mid1_text(checking, ca).len()) == bs_mid1_text(checking, ca) && (i + bs_mid1_text(checking, ca).len() == v@.len() || !is_digit(v@[i + bs_mid1_text(checking, ca).len()]))) ==> {
            r matches Some(p)
                && r->Some_0.0.0 == checking
                && r->Some_0.0.1 == ca
                && r->Some_0.1 as int == i + bs_mid1_text(checking, ca).len()
        },
{
    proof {
        reveal_strlit(", \"checking\": ");
        assert(", \"checking\": "@ =~= k_checking());
        reveal_strlit(", \"creditAvailable\": ");
        assert(", \"creditAvailable\": "@ =~= k_credit_available());
    }
    let step1 = expect_lit(v, i, ", \"checking\": ", Ghost(k_checking()));
    let o1;
    match step1 {
        Option::Some(q) => { o1 = q; },
        Option::None => {
            proof {
                assert forall|checking: u64, ca: u64|
                    (i + bs_mid1_text(checking, ca).len() <= v@.len() && v@.subrange(i as int, i + bs_mid1_text(checking, ca).len()) == bs_mid1_text(checking, ca) && (i + bs_mid1_text(checking, ca).len() == v@.len() || !is_digit(v@[i + bs_mid1_text(checking, ca).len()]))) implies false by {
                    lemma_bs_mid1_peel(v@, i as int, checking, ca);
                    assert(step1 matches Some(qz));
                }
            }
            return None;
        },
    }
    let step2 = parse_u64(v, o1);
    let f0;
    let o2;
    match step2 {
        Option::Some(q) => { f0 = q.0; o2 = q.1; },
        Option::None => {
            proof {
                assert forall|checking: u64, ca: u64|
                    (i + bs_mid1_text(checking, ca).len() <= v@.len() && v@.subrange(i as int, i + bs_mid1_text(checking, ca).len()) == bs_mid1_text(checking, ca) && (i + bs_mid1_text(checking, ca).len() == v@.len() || !is_digit(v@[i + bs_mid1_text(checking, ca).len()]))) implies false by {
                    lemma_bs_mid1_peel(v@, i as int, checking, ca);
                    let po1 = i + k_checking().len();
                    assert(step1 matches Some(qq1) && qq1 as int == po1);
                    let po2 = po1 + dec_digits(checking as nat).len();
                    assert(v@.subrange(po2, po2 + k_credit_available().len())[0] == v@[po2]);
                    assert(!is_digit(v@[po2]));
                    assert(step2 matches Some(qz));
                }
            }
            return None;
        },
    }
    let step3 = expect_lit(v, o2, ", \"creditAvailable\": ", Ghost(k_credit_available()));
    let o3;
    match step3 {
        Option::Some(q) => { o3 = q; },
        Option::None => {
            proof {
                assert forall|checking: u64, ca: u64|
                    (i + bs_mid1_text(checking, ca).len() <= v@.len() && v@.subrange(i as int, i + bs_mid1_text(checking, ca).len()) == bs_mid1_text(checking, ca) && (i + bs_mid1_text(checking, ca).len() == v@.len() || !is_digit(v@[i + bs_mid1_text(checking, ca).len()]))) implies false by {
                    lemma_bs_mid1_peel(v@, i as int, checking, ca);
                    let po1 = i + k_checking().len();
                    assert(step1 matches Some(qq1) && qq1 as int == po1);
                    let po2 = po1 + dec_digits(checking as nat).len();
                    assert(v@.subrange(po2, po2 + k_credit_available().len())[0] == v@[po2]);
                    assert(!is_digit(v@[po2]));
                    assert(step2 matches Some(qq2) && qq2.0 == checking && qq2.1 as int == po2);
                    assert(step3 matches Some(qz));
                }
            }
            return None;
        },
    }
    let step4 = parse_u64(v, o3);
    let f1;
    let o4;
    match step4 {
        Option::Some(q) => { f1 = q.0; o4 = q.1; },
        Option::None => {
            proof {
                assert forall|checking: u64, ca: u64|
                    (i + bs_mid1_text(checking, ca).len() <= v@.len() && v@.subrange(i as int, i + bs_mid1_text(checking, ca).len()) == bs_mid1_text(checking, ca) && (i + bs_mid1_text(checking, ca).len() == v@.len() || !is_digit(v@[i + bs_mid1_text(checking, ca).len()]))) implies false by {
                    lemma_bs_mid1_peel(v@, i as int, checking, ca);
                    let po1 = i + k_checking().len();
                    assert(step1 matches Some(qq1) && qq1 as int == po1);
                    let po2 = po1 + dec_digits(checking as nat).len();
                    assert(v@.subrange(po2, po2 + k_credit_available().len())[0] == v@[po2]);
                    assert(!is_digit(v@[po2]));
                    assert(step2 matches Some(qq2) && qq2.0 == checking && qq2.1 as int == po2);
                    let po3 = po2 + k_credit_available().len();
                    assert(step3 matches Some(qq3) && qq3 as int == po3);
                    let po4 = po3 + dec_digits(ca as nat).len();
                    assert(po4 == i + bs_mid1_text(checking, ca).len());
                    assert(step4 matches Some(qz));
                }
            }
            return None;
        },
    }
    let r = Some(((f0, f1), o4));
    proof {
        lemma_join_at(v@, i as int, o1 as int, o2 as int, k_checking(), dec_digits(f0 as nat));
        lemma_join_at(v@, i as int, o2 as int, o3 as int, k_checking() + dec_digits(f0 as nat), k_credit_available());
        lemma_join_at(v@, i as int, o3 as int, o4 as int, k_checking() + dec_digits(f0 as nat) + k_credit_available(), dec_digits(f1 as nat));
        assert(v@.subrange(i as int, o4 as int) == bs_mid1_text(f0, f1));
        assert forall|checking: u64, ca: u64|
            (i + bs_mid1_text(checking, ca).len() <= v@.len() && v@.subrange(i as int, i + bs_mid1_text(checking, ca).len()) == bs_mid1_text(checking, ca) && (i + bs_mid1_text(checking, ca).len() == v@.len() || !is_digit(v@[i + bs_mid1_text(checking, ca).len()]))) implies {
            r matches Some(p)
                && r->Some_0.0.0 == checking
                && r->Some_0.0.1 == ca
                && r->Some_0.1 as int == i + bs_mid1_text(checking, ca).len()
        } by {
                    lemma_bs_mid1_peel(v@, i as int, checking, ca);
                    let po1 = i + k_checking().len();
                    assert(step1 matches Some(qq1) && qq1 as int == po1);
                    let po2 = po1 + dec_digits(checking as nat).len();
                    assert(v@.subrange(po2, po2 + k_credit_available().len())[0] == v@[po2]);
                    assert(!is_digit(v@[po2]));
                    assert(step2 matches Some(qq2) && qq2.0 == checking && qq2.1 as int == po2);
                    let po3 = po2 + k_credit_available().len();
                    assert(step3 matches Some(qq3) && qq3 as int == po3);
                    let po4 = po3 + dec_digits(ca as nat).len();
                    assert(po4 == i + bs_mid1_text(checking, ca).len());
                    assert(step4 matches Some(qq4) && qq4.0 == ca && qq4.1 as int == po4);
        }
    }
    r
}

#[verifier::rlimit(100)]
proof fn lemma_bs_mid2_peel(v: Seq<char>, i: int, cl: u64, pd: u64)
    requires
        0 <= i,
        i + bs_mid2_text(cl, pd).len() <= v.len(),
        v.subrange(i, i + bs_mid2_text(cl, pd).len()) == bs_mid2_text(cl, pd),
    ensures
        ({
            let o1 = i + k_credit_limit().len();
            let o2 = o1 + dec_digits(cl as nat).len();
            let o3 = o2 + k_personal_debt().len();
            let o4 = o3 + dec_digits(pd as nat).len();
            &&& o4 == i + bs_mid2_text(cl, pd).len()
            &&& v.subrange(i, o1) == k_credit_limit()
            &&& v.subrange(o1, o2) == dec_digits(cl as nat)
            &&& v.subrange(o2, o3) == k_personal_debt()
            &&& v.subrange(o3, o4) == dec_digits(pd as nat)
        }),
{
    let e = i + bs_mid2_text(cl, pd).len();
    assert(k_credit_limit() + dec_digits(cl as nat) + k_personal_debt() + (dec_digits(pd as nat)) =~= k_credit_limit() + dec_digits(cl as nat) + (k_personal_debt() + (dec_digits(pd as nat))));
    assert(k_credit_limit() + dec_digits(cl as nat) + (k_personal_debt() + (dec_digits(pd as nat))) =~= k_credit_limit() + (dec_digits(cl as nat) + (k_personal_debt() + (dec_digits(pd as nat)))));
    assert(bs_mid2_text(cl, pd) =~= k_credit_limit() + (dec_digits(cl as nat) + (k_personal_debt() + (dec_digits(pd as nat)))));
    lemma_split_at(v, i, e, k_credit_limit(), dec_digits(cl as nat) + (k_personal_debt() + (dec_digits(pd as nat))));
    let o1 = i + k_credit_limit().len();
    lemma_split_at(v, o1, e, dec_digits(cl as nat), k_personal_debt() + (dec_digits(pd as nat)));
    let o2 = o1 + dec_digits(cl as nat).len();
    lemma_split_at(v, o2, e, k_personal_debt(), dec_digits(pd as nat));
}

#[verifier::rlimit(100)]
fn parse_bs_mid2(v: &Vec<char>, i: usize) -> (r: Option<((u64, u64), usize)>)
    requires
        i <= v@.len(),
    ensures
        r matches Some(p) ==> i <= p.1 <= v@.len() && v@.subrange(i as int, p.1 as int)
            == bs_mid2_text(p.0.0, p.0.1),
        forall|cl: u64, pd: u64|
            (i + bs_mid2_text(cl, pd).len() <= v@.len() && v@.subrange(i as int, i + bs_mid2_text(cl, pd).len()) == bs_mid2_text(cl, pd) && (i + bs_mid2_text(cl, pd).len() == v@.len() || !is_digit(v@[i + bs_mid2_text(cl, pd).len()]))) ==> {
            r matches Some(p)
                && r->Some_0.0.0 == cl
                && r->Some_0.0.1 == pd
                && r->Some_0.1 as int == i + bs_mid2_text(cl, pd).len()
        },
{
    proof {
        reveal_strlit(", \"creditLimit\": ");
        assert(", \"creditLimit\": "@ =~= k_credit_limit());
        reveal_strlit(", \"personalDebt\": ");
        assert(", \"personalDebt\": "@ =~= k_personal_debt());
    }
    let step1 = expect_lit(v, i, ", \"creditLimit\": ", Ghost(k_credit_limit()));
    let o1;
    match step1 {
        Option::Some(q) => { o1 = q; },
        Option::None => {
            proof {
                assert forall|cl: u64, pd: u64|
                    (i + bs_mid2_text(cl, pd).len() <= v@.len() && v@.subrange(i as int, i + bs_mid2_text(cl, pd).len()) == bs_mid2_text(cl, pd) && (i + bs_mid2_text(cl, pd).len() == v@.len() || !is_digit(v@[i + bs_mid2_text(cl, pd).len()]))) implies false by {
                    lemma_bs_mid2_peel(v@, i as int, cl, pd);
                    assert(step1 matches Some(qz));
                }
            }
            return None;
        },
    }
    let step2 = parse_u64(v, o1);
    let f0;
    let o2;
    match step2 {
        Option::Some(q) => { f0 = q.0; o2 = q.1; },
        Option::None => {
            proof {
                assert forall|cl: u64, pd: u64|
                    (i + bs_mid2_text(cl, pd).len() <= v@.len() && v@.subrange(i as int, i + bs_mid2_text(cl, pd).len()) == bs_mid2_text(cl, pd) && (i + bs_mid2_text(cl, pd).len() == v@.len() || !is_digit(v@[i + bs_mid2_text(cl, pd).len()]))) implies false by {
                    lemma_bs_mid2_peel(v@, i as int, cl, pd);
                    let po1 = i + k_credit_limit().len();
                    assert(step1 matches Some(qq1) && qq1 as int == po1);
                    let po2 = po1 + dec_digits(cl as nat).len();
                    assert(v@.subrange(po2, po2 + k_personal_debt().len())[0] == v@[po2]);
                    assert(!is_digit(v@[po2]));
                    assert(step2 matches Some(qz));
                }
            }
            return None;
        },
    }
    let step3 = expect_lit(v, o2, ", \"personalDebt\": ", Ghost(k_personal_debt()));
    let o3;
    match step3 {
        Option::Some(q) => { o3 = q; },
        Option::None => {
            proof {
                assert forall|cl: u64, pd: u64|
                    (i + bs_mid2_text(cl, pd).len() <= v@.len() && v@.subrange(i as int, i + bs_mid2_text(cl, pd).len()) == bs_mid2_text(cl, pd) && (i + bs_mid2_text(cl, pd).len() == v@.len() || !is_digit(v@[i + bs_mid2_text(cl, pd).len()]))) implies false by {
                    lemma_bs_mid2_peel(v@, i as int, cl, pd);
                    let po1 = i + k_credit_limit().len();
                    assert(step1 matches Some(qq1) && qq1 as int == po1);
                    let po2 = po1 + dec_digits(cl as nat).len();
                    assert(v@.subrange(po2, po2 + k_personal_debt().len())[0] == v@[po2]);
                    assert(!is_digit(v@[po2]));
                    assert(step2 matches Some(qq2) && qq2.0 == cl && qq2.1 as int == po2);
                    assert(step3 matches Some(qz));
                }
            }
            return None;
        },
    }
    let step4 = parse_u64(v, o3);
    let f1;
    let o4;
    match step4 {
        Option::Some(q) => { f1 = q.0; o4 = q.1; },
        Option::None => {
            proof {
                assert forall|cl: u64, pd: u64|
                    (i + bs_mid2_text(cl, pd).len() <= v@.len() && v@.subrange(i as int, i + bs_mid2_text(cl, pd).len()) == bs_mid2_text(cl, pd) && (i + bs_mid2_text(cl, pd).len() == v@.len() || !is_digit(v@[i + bs_mid2_text(cl, pd).len()]))) implies false by {
                    lemma_bs_mid2_peel(v@, i as int, cl, pd);
                    let po1 = i + k_credit_limit().len();
                    assert(step1 matches Some(qq1) && qq1 as int == po1);
                    let po2 = po1 + dec_digits(cl as nat).len();
                    assert(v@.subrange(po2, po2 + k_personal_debt().len())[0] == v@[po2]);
                    assert(!is_digit(v@[po2]));
                    assert(step2 matches Some(qq2) && qq2.0 == cl && qq2.1 as int == po2);
                    let po3 = po2 + k_personal_debt().len();
                    assert(step3 matches Some(qq3) && qq3 as int == po3);
                    let po4 = po3 + dec_digits(pd as nat).len();
                    assert(po4 == i + bs_mid2_text(cl, pd).len());
                    assert(step4 matches Some(qz));
                }
            }
            return None;
        },
    }
    let r = Some(((f0, f1), o4));
    proof {
        lemma_join_at(v@, i as int, o1 as int, o2 as int, k_credit_limit(), dec_digits(f0 as nat));
        lemma_join_at(v@, i as int, o2 as int, o3 as int, k_credit_limit() + dec_digits(f0 as nat), k_personal_debt());
        lemma_join_at(v@, i as int, o3 as int, o4 as int, k_credit_limit() + dec_digits(f0 as nat) + k_personal_debt(), dec_digits(f1 as nat));
        assert(v@.subrange(i as int, o4 as int) == bs_mid2_text(f0, f1));
        assert forall|cl: u64, pd: u64|
            (i + bs_mid2_text(cl, pd).len() <= v@.len() && v@.subrange(i as int, i + bs_mid2_text(cl, pd).len()) == bs_mid2_text(cl, pd) && (i + bs_mid2_text(cl, pd).len() == v@.len() || !is_digit(v@[i + bs_mid2_text(cl, pd).len()]))) implies {
            r matches Some(p)
                && r->Some_0.0.0 == cl
                && r->Some_0.0.1 == pd
                && r->Some_0.1 as int == i + bs_mid2_text(cl, pd).len()
        } by {
                    lemma_bs_mid2_peel(v@, i as int, cl, pd);
                    let po1 = i + k_credit_limit().len();
                    assert(step1 matches Some(qq1) && qq1 as int == po1);
                    let po2 = po1 + dec_digits(cl as nat).len();
                    assert(v@.subrange(po2, po2 + k_personal_debt().len())[0] == v@[po2]);
                    assert(!is_digit(v@[po2]));
                    assert(step2 matches Some(qq2) && qq2.0 == cl && qq2.1 as int == po2);
                    let po3 = po2 + k_personal_debt().len();
                    assert(step3 matches Some(qq3) && qq3 as int == po3);
                    let po4 = po3 + dec_digits(pd as nat).len();
                    assert(po4 == i + bs_mid2_text(cl, pd).len());
                    assert(step4 matches Some(qq4) && qq4.0 == pd && qq4.1 as int == po4);
        }
    }
    r
}

#[verifier::rlimit(100)]
proof fn lemma_bs_end_peel(v: Seq<char>, i: int, note: Seq<char>)
    requires
        0 <= i,
        i + bs_end_text(note).len() <= v.len(),
        v.subrange(i, i + bs_end_text(note).len()) == bs_end_text(note),
    ensures
        ({
            let o1 = i + k_note().len();
            let o2 = o1 + str_tok(note).len();
            let o3 = o2 + rbrace().len();
            &&& o3 == i + bs_end_text(note).len()
            &&& v.subrange(i, o1) == k_note()
            &&& v.subrange(o1, o2) == str_tok(note)
            &&& v.subrange(o2, o3) == rbrace()
        }),
{
    let e = i + bs_end_text(note).len();
    assert(k_note() + str_tok(note) + (rbrace()) =~= k_note() + (str_tok(note) + (rbrace())));
    assert(bs_end_text(note) =~= k_note() + (str_tok(note) + (rbrace())));
    lemma_split_at(v, i, e, k_note(), str_tok(note) + (rbrace()));
    let o1 = i + k_note().len();
    lemma_split_at(v, o1, e, str_tok(note), rbrace());
}

#[verifier::rlimit(100)]
fn parse_bs_end(v: &Vec<char>, i: usize) -> (r: Option<(String, usize)>)
    requires
        i <= v@.len(),
    ensures
        r matches Some(p) ==> i <= p.1 <= v@.len() && v@.subrange(i as int, p.1 as int)
            == bs_end_text(p.0@),
        forall|note: Seq<char>|
            (i + bs_end_text(note).len() <= v@.len() && v@.subrange(i as int, i + bs_end_text(note).len()) == bs_end_text(note)) ==> {
            r matches Some(p)
                && r->Some_0.0@ == note
                && r->Some_0.1 as int == i + bs_end_text(note).len()
        },
{
    proof {
        reveal_strlit(", \"note\": ");
        assert(", \"note\": "@ =~= k_note());
        reveal_strlit("}");
        assert("}"@ =~= rbrace());
    }
    let step1 = expect_lit(v, i, ", \"note\": ", Ghost(k_note()));
    let o1;
    match step1 {
        Option::Some(q) => { o1 = q; },
        Option::None => {
            proof {
                assert forall|note: Seq<char>|
                    (i + bs_end_text(note).len() <= v@.len() && v@.subrange(i as int, i + bs_end_text(note).len()) == bs_end_text(note)) implies false by {
                    lemma_bs_end_peel(v@, i as int, note);
                    assert(step1 matches Some(qz));
                }
            }
            return None;
        },
    }
    let step2 = parse_str_tok(v, o1);
    let f0;
    let o2;
    match step2 {
        Option::Some(q) => { f0 = q.0; o2 = q.1; },
        Option::None => {
            proof {
                assert forall|note: Seq<char>|
                    (i + bs_end_text(note).len() <= v@.len() && v@.subrange(i as int, i + bs_end_text(note).len()) == bs_end_text(note)) implies false by {
                    lemma_bs_end_peel(v@, i as int, note);
                    let po1 = i + k_note().len();
                    assert(step1 matches Some(qq1) && qq1 as int == po1);
                    assert(step2 matches Some(qz));
                }
            }
            return None;
        },
    }
    let step3 = expect_lit(v, o2, "}", Ghost(rbrace()));
    let o3;
    match step3 {
        Option::Some(q) => { o3 = q; },
        Option::None => {
            proof {
                assert forall|note: Seq<char>|
                    (i + bs_end_text(note).len() <= v@.len() && v@.subrange(i as int, i + bs_end_text(note).len()) == bs_end_text(note)) implies false by {
                    lemma_bs_end_peel(v@, i as int, note);
                    let po1 = i + k_note().len();
                    assert(step1 matches Some(qq1) && qq1 as int == po1);
                    let po2 = po1 + str_tok(note).len();
                    assert(step2 matches Some(qq2) && qq2.0@ == note && qq2.1 as int == po2);
                    assert(step3 matches Some(qz));
                }
            }
            return None;
        },
    }
    let r = Some((f0, o3));
    proof {
        lemma_join_at(v@, i as int, o1 as int, o2 as int, k_note(), str_tok(f0@));
        lemma_join_at(v@, i as int, o2 as int, o3 as int, k_note() + str_tok(f0@), rbrace());
        assert(v@.subrange(i as int, o3 as int) == bs_end_text(f0@));
        assert forall|note: Seq<char>|
            (i + bs_end_text(note).len() <= v@.len() && v@.subrange(i as int, i + bs_end_text(note).len()) == bs_end_text(note)) implies {
            r matches Some(p)
                && r->Some_0.0@ == note
                && r->Some_0.1 as int == i + bs_end_text(note).len()
        } by {
                    lemma_bs_end_peel(v@, i as int, note);
                    let po1 = i + k_note().len();
                    assert(step1 matches Some(qq1) && qq1 as int == po1);
                    let po2 = po1 + str_tok(note).len();
                    assert(step2 matches Some(qq2) && qq2.0@ == note && qq2.1 as int == po2);
                    let po3 = po2 + rbrace().len();
                    assert(step3 matches Some(qq3) && qq3 as int == po3);
        }
    }
    r
}

#[verifier::rlimit(100)]
fn parse_bs_m2e(v: &Vec<char>, i: usize) -> (r: Option<((u64, u64, String), usize)>)
    requires
        i <= v@.len(),
    ensures
        r matches Some(p) ==> i <= p.1 <= v@.len() && v@.subrange(i as int, p.1 as int)
            == bs_m2e_text(p.0.0, p.0.1, p.0.2@),
        forall|cl: u64, pd: u64, note: Seq<char>|
            (i + bs_m2e_text(cl, pd, note).len() <= v@.len() && v@.subrange(
                i as int,
                i + bs_m2e_text(cl, pd, note).len(),
            ) == bs_m2e_text(cl, pd, note)) ==> {
            r matches Some(p)
                && r->Some_0.0.0 == cl
                && r->Some_0.0.1 == pd
                && r->Some_0.0.2@ == note
                && r->Some_0.1 as int == i + bs_m2e_text(cl, pd, note).len()
        },
{
    let h = parse_bs_mid2(v, i);
    match h {
        Option::Some(hp) => {
            let m = hp.1;
            let t = parse_bs_end(v, m);
            match t {
                Option::Some(tp) => {
                    let j = tp.1;
                    let r = Some(((hp.0.0, hp.0.1, tp.0), j));
                    proof {
                        lemma_join_at(
                            v@,
                            i as int,
                            m as int,
                            j as int,
                            bs_mid2_text(hp.0.0, hp.0.1),
                            bs_end_text(tp.0@),
                        );
                        assert forall|cl: u64, pd: u64, note: Seq<char>|
                            (i + bs_m2e_text(cl, pd, note).len() <= v@.len() && v@.subrange(
                                i as int,
                                i + bs_m2e_text(cl, pd, note).len(),
                            ) == bs_m2e_text(cl, pd, note)) implies {
                            r matches Some(p)
                                && r->Some_0.0.0 == cl
                                && r->Some_0.0.1 == pd
                                && r->Some_0.0.2@ == note
                                && r->Some_0.1 as int == i + bs_m2e_text(cl, pd, note).len()
                        } by {
                            let mt = bs_mid2_text(cl, pd);
                            let et = bs_end_text(note);
                            let e = i + bs_m2e_text(cl, pd, note).len();
                            lemma_split_at(v@, i as int, e, mt, et);
                            assert(v@.subrange(i + mt.len(), e)[0] == v@[i + mt.len()]);
                            assert(!is_digit(v@[i + mt.len()]));
                            assert(h matches Some(hq) && hq.0.0 == cl && hq.0.1 == pd
                                && hq.1 as int == i + mt.len());
                            assert(t matches Some(tq) && tq.0@ == note && tq.1 as int == e);
                        }
                    }
                    r
                },
                Option::None => {
                    proof {
                        assert forall|cl: u64, pd: u64, note: Seq<char>|
                            (i + bs_m2e_text(cl, pd, note).len() <= v@.len() && v@.subrange(
                                i as int,
                                i + bs_m2e_text(cl, pd, note).len(),
                            ) == bs_m2e_text(cl, pd, note)) implies false by {
                            let mt = bs_mid2_text(cl, pd);
                            let et = bs_end_text(note);
                            let e = i + bs_m2e_text(cl, pd, note).len();
                            lemma_split_at(v@, i as int, e, mt, et);
                            assert(v@.subrange(i + mt.len(), e)[0] == v@[i + mt.len()]);
                            assert(!is_digit(v@[i + mt.len()]));
                            assert(h matches Some(hq) && hq.1 as int == i + mt.len());
                            assert(t matches Some(tq));
                        }
                    }
                    None
                },
            }
        },
        Option::None => {
            proof {
                assert forall|cl: u64, pd: u64, note: Seq<char>|
                    (i + bs_m2e_text(cl, pd, note).len() <= v@.len() && v@.subrange(
                        i as int,
                        i + bs_m2e_text(cl, pd, note).len(),
                    ) == bs_m2e_text(cl, pd, note)) implies false by {
                    let mt = bs_mid2_text(cl, pd);
                    let et = bs_end_text(note);
                    let e = i + bs_m2e_text(cl, pd, note).len();
                    lemma_split_at(v@, i as int, e, mt, et);
                    assert(v@.subrange(i + mt.len(), e)[0] == v@[i + mt.len()]);
                    assert(!is_digit(v@[i + mt.len()]));
                    assert(h matches Some(hq));
                }
            }
            None
        },
    }
}


#[verifier::rlimit(100)]
fn parse_bs_rest(v: &Vec<char>, i: usize) -> (r: Option<((u64, u64, u64, u64, String), usize)>)
    requires
        i <= v@.len(),
    ensures
        r matches Some(p) ==> i <= p.1 <= v@.len() && v@.subrange(i as int, p.1 as int)
            == bs_rest_text(p.0.0, p.0.1, p.0.2, p.0.3, p.0.4@),
        forall|checking: u64, ca: u64, cl: u64, pd: u64, note: Seq<char>|
            (i + bs_rest_text(checking, ca, cl, pd, note).len() <= v@.len() && v@.subrange(
                i as int,
                i + bs_rest_text(checking, ca, cl, pd, note).len(),
            ) == bs_rest_text(checking, ca, cl, pd, note)) ==> {
            r matches Some(p)
                && r->Some_0.0.0 == checking
                && r->Some_0.0.1 == ca
                && r->Some_0.0.2 == cl
                && r->Some_0.0.3 == pd
                && r->Some_0.0.4@ == note
                && r->Some_0.1 as int == i + bs_rest_text(checking, ca, cl, pd, note).len()
        },
{
    let h = parse_bs_mid1(v, i);
    match h {
        Option::Some(hp) => {
            let m = hp.1;
            let t = parse_bs_m2e(v, m);
            match t {
                Option::Some(tp) => {
                    let j = tp.1;
                    let r = Some(((hp.0.0, hp.0.1, tp.0.0, tp.0.1, tp.0.2), j));
                    proof {
                        lemma_join_at(
                            v@,
                            i as int,
                            m as int,
                            j as int,
                            bs_mid1_text(hp.0.0, hp.0.1),
                            bs_m2e_text(tp.0.0, tp.0.1, tp.0.2@),
                        );
                        assert forall|checking: u64, ca: u64, cl: u64, pd: u64, note: Seq<char>|
                            (i + bs_rest_text(checking, ca, cl, pd, note).len() <= v@.len()
                                && v@.subrange(
                                i as int,
                                i + bs_rest_text(checking, ca, cl, pd, note).len(),
                            ) == bs_rest_text(checking, ca, cl, pd, note)) implies {
                            r matches Some(p)
                                && r->Some_0.0.0 == checking
                                && r->Some_0.0.1 == ca
                                && r->Some_0.0.2 == cl
                                && r->Some_0.0.3 == pd
                                && r->Some_0.0.4@ == note
                                && r->Some_0.1 as int == i + bs_rest_text(
                                checking,
                                ca,
                                cl,
                                pd,
                                note,
                            ).len()
                        } by {
                            let mt = bs_mid1_text(checking, ca);
                            let et = bs_m2e_text(cl, pd, note);
                            let e = i + bs_rest_text(checking, ca, cl, pd, note).len();
                            lemma_split_at(v@, i as int, e, mt, et);
                            assert(v@.subrange(i + mt.len(), e)[0] == v@[i + mt.len()]);
                            assert(!is_digit(v@[i + mt.len()]));
                            assert(h matches Some(hq) && hq.0.0 == checking && hq.0.1 == ca
                                && hq.1 as int == i + mt.len());
                            assert(t matches Some(tq) && tq.0.0 == cl && tq.0.1 == pd
                                && tq.0.2@ == note && tq.1 as int == e);
                        }
                    }
                    r
                },
                Option::None => {
                    proof {
                        assert forall|checking: u64, ca: u64, cl: u64, pd: u64, note: Seq<char>|
                            (i + bs_rest_text(checking, ca, cl, pd, note).len() <= v@.len()
                                && v@.subrange(
                                i as int,
                                i + bs_rest_text(checking, ca, cl, pd, note).len(),
                            ) == bs_rest_text(checking, ca, cl, pd, note)) implies false by {
                            let mt = bs_mid1_text(checking, ca);
                            let et = bs_m2e_text(cl, pd, note);
                            let e = i + bs_rest_text(checking, ca, cl, pd, note).len();
                            lemma_split_at(v@, i as int, e, mt, et);
                            assert(v@.subrange(i + mt.len(), e)[0] == v@[i + mt.len()]);
                            assert(!is_digit(v@[i + mt.len()]));
                            assert(h matches Some(hq) && hq.1 as int == i + mt.len());
                            assert(t matches Some(tq));
                        }
                    }
                    None
                },
            }
        },
        Option::None => {
            proof {
                assert forall|checking: u64, ca: u64, cl: u64, pd: u64, note: Seq<char>|
                    (i + bs_rest_text(checking, ca, cl, pd, note).len() <= v@.len() && v@.subrange(
                        i as int,
                        i + bs_rest_text(checking, ca, cl, pd, note).len(),
                    ) == bs_rest_text(checking, ca, cl, pd, note)) implies false by {
                    let mt = bs_mid1_text(checking, ca);
                    let et = bs_m2e_text(cl, pd, note);
                    let e = i + bs_rest_text(checking, ca, cl, pd, note).len();
                    lemma_split_at(v@, i as int, e, mt, et);
                    assert(v@.subrange(i + mt.len(), e)[0] == v@[i + mt.len()]);
                    assert(!is_digit(v@[i + mt.len()]));
                    assert(h matches Some(hq));
                }
            }
            None
        },
    }
}


#[verifier::rlimit(100)]
fn parse_snapshot(v: &Vec<char>, i: usize) -> (r: Option<(BalanceSnapshot, usize)>)
    requires
        i <= v@.len(),
    ensures
        r matches Some(p) ==> i <= p.1 <= v@.len() && v@.subrange(i as int, p.1 as int)
            == snapshot_text(p.0@),
        forall|w: BalanceSnapshotView|
            (bs_wire_ok(w) && i + snapshot_text(w).len() <= v@.len() && v@.subrange(
                i as int,
                i + snapshot_text(w).len(),
            ) == snapshot_text(w)) ==> (r matches Some(p) && p.0@ == w && p.1 as int == i
                + snapshot_text(w).len()),
{
    let h = parse_bs_head(v, i);
    match h {
        Option::Some(hp) => {
            let m = hp.1;
            let t = parse_bs_rest(v, m);
            match t {
                Option::Some(tp) => {
                    let j = tp.1;
                    let out = BalanceSnapshot {
                        id: hp.0.0,
                        date: hp.0.1,
                        checking: tp.0.0,
                        credit_available: tp.0.1,
                        credit_limit: tp.0.2,
                        personal_debt: tp.0.3,
                        note: tp.0.4,
                    };
                    let r = Some((out, j));
                    proof {
                        lemma_join_at(
                            v@,
                            i as int,
                            m as int,
                            j as int,
                            bs_head_text(out@.id, out@.date),
                            bs_rest_text(
                                out@.checking,
                                out@.credit_available,
                                out@.credit_limit,
                                out@.personal_debt,
                                out@.note,
                            ),
                        );
                        lemma_bs_text_split(out@);
                        assert(v@.subrange(i as int, j as int) == snapshot_text(out@));
                        assert forall|w: BalanceSnapshotView|
                            (bs_wire_ok(w) && i + snapshot_text(w).len() <= v@.len()
                                && v@.subrange(i as int, i + snapshot_text(w).len())
                                == snapshot_text(w)) implies (r matches Some(p) && p.0@ == w
                            && p.1 as int == i + snapshot_text(w).len()) by {
                            lemma_bs_text_split(w);
                            let ht = bs_head_text(w.id, w.date);
                            let tt = bs_rest_text(
                                w.checking,
                                w.credit_available,
                                w.credit_limit,
                                w.personal_debt,
                                w.note,
                            );
                            let e = i + snapshot_text(w).len();
                            lemma_split_at(v@, i as int, e, ht, tt);
                            let wid = w.id as i32;
                            assert(wid as int == w.id);
                            assert(bs_head_text(wid as int, w.date) == ht);
                            assert(h matches Some(hq) && hq.0.0 == wid && hq.0.1@ == w.date
                                && hq.1 as int == i + ht.len());
                            assert(t matches Some(tq) && tq.0.0 == w.checking
                                && tq.0.1 == w.credit_available && tq.0.2 == w.credit_limit
                                && tq.0.3 == w.personal_debt && tq.0.4@ == w.note && tq.1 as int
                                == i + ht.len() + tt.len());
                            assert(out@ =~= w);
                        }
                    }
                    r
                },
                Option::None => {
                    proof {
                        assert forall|w: BalanceSnapshotView|
                            (bs_wire_ok(w) && i + snapshot_text(w).len() <= v@.len()
                                && v@.subrange(i as int, i + snapshot_text(w).len())
                                == snapshot_text(w)) implies false by {
                            lemma_bs_text_split(w);
                            let ht = bs_head_text(w.id, w.date);
                            let tt = bs_rest_text(
                                w.checking,
                                w.credit_available,
                                w.credit_limit,
                                w.personal_debt,
                                w.note,
                            );
                            let e = i + snapshot_text(w).len();
                            lemma_split_at(v@, i as int, e, ht, tt);
                            let wid = w.id as i32;
                            assert(wid as int == w.id);
                            assert(bs_head_text(wid as int, w.date) == ht);
                            assert(h matches Some(hq) && hq.1 as int == i + ht.len());
                            assert(t matches Some(tq));
                        }
                    }
                    None
                },
            }
        },
        Option::None => {
            proof {
                assert forall|w: BalanceSnapshotView|
                    (bs_wire_ok(w) && i + snapshot_text(w).len() <= v@.len() && v@.subrange(
                        i as int,
                        i + snapshot_text(w).len(),
                    ) == snapshot_text(w)) implies false by {
                    lemma_bs_text_split(w);
                    let ht = bs_head_text(w.id, w.date);
                    let tt = bs_rest_text(
                        w.checking,
                        w.credit_available,
                        w.credit_limit,
                        w.personal_debt,
                        w.note,
                    );
                    let e = i + snapshot_text(w).len();
                    lemma_split_at(v@, i as int, e, ht, tt);
                    let wid = w.id as i32;
                    assert(wid as int == w.id);
                    assert(bs_head_text(wid as int, w.date) == ht);
                    assert(h matches Some(hq));
                }
            }
            None
        },
    }
}



proof fn lemma_job_items_decompose(s: Seq<JobView>)
    requires
        s.len() >= 1,
    ensures
        s.len() == 1 ==> jobs_items(s) + list_close() == job_text(s[0]) + list_close(),
        s.len() >= 2 ==> jobs_items(s) + list_close() == job_text(s[0]) + (item_sep() + (jobs_items(
            s.skip(1),
        ) + list_close())),
{
    if s.len() == 1 {
        assert(jobs_items(s) == job_text(s[0]));
    } else {
        assert(jobs_items(s) == job_text(s[0]) + item_sep() + jobs_items(s.skip(1)));
        assert(jobs_items(s) + list_close() =~= job_text(s[0]) + (item_sep() + (jobs_items(s.skip(1))
            + list_close())));
    }
}

#[verifier::rlimit(100)]
fn parse_job_items(v: &Vec<char>, i: usize) -> (r: Option<(Vec<Job>, usize)>)
    requires
        i <= v@.len(),
    ensures
        r matches Some(p) ==> i <= p.1 <= v@.len() && p.0@.len() >= 1 && v@.subrange(
            i as int,
            p.1 as int,
        ) == jobs_items(p.0.deep_view()) + list_close(),
        forall|s: Seq<JobView>|
            (s.len() >= 1 && true && i + (jobs_items(s) + list_close()).len() <= v@.len()
                && v@.subrange(i as int, i + (jobs_items(s) + list_close()).len()) == jobs_items(s)
                + list_close()) ==> (r matches Some(p) && p.0.deep_view() == s && p.1 as int == i
                + (jobs_items(s) + list_close()).len()),
    decreases v@.len() - i,
{
    proof {
        reveal_strlit(",\n    ");
        assert(",\n    "@ =~= item_sep());
        reveal_strlit("\n  ]");
        assert("\n  ]"@ =~= list_close());
    }
    let item = parse_job(v, i);
    match item {
        Option::Some(ip) => {
            let x = ip.0;
            let m = ip.1;
            proof {
                assert(m > i) by {
                    assert(v@.subrange(i as int, m as int).len() == m - i);
                }
            }
            let sep = expect_lit(v, m, ",\n    ", Ghost(item_sep()));
            match sep {
                Option::Some(m2) => {
                    let rest = parse_job_items(v, m2);
                    match rest {
                        Option::Some(rp) => {
                            let mut xs = rp.0;
                            let j = rp.1;
                            let ghost rv = xs@;
                            let ghost dvp = xs.deep_view();
                            xs.insert(0, x);
                            let r = Some((xs, j));
                            proof {
                                assert(dvp =~= Seq::new(rv.len(), |k: int| rv[k].deep_view()));
                                assert(xs@ == rv.insert(0, x));
                                assert(xs.deep_view() =~= seq![x.deep_view()] + dvp) by {
                                    assert forall|k: int| 0 <= k < rv.len() + 1 implies
                                        xs.deep_view()[k] == (seq![x.deep_view()] + dvp)[k] by {
                                        assert(xs.deep_view()[k] == xs@[k].deep_view());
                                        if k > 0 {
                                            assert(xs@[k] == rv[k - 1]);
                                            assert(dvp[k - 1] == rv[k - 1].deep_view());
                                        } else {
                                            assert(xs@[0] == x);
                                        }
                                    }
                                }
                                let cd = xs.deep_view();
                                assert(cd[0] == x.deep_view());
                                assert(cd.skip(1) =~= dvp);
                                assert(cd.len() >= 2);
                                assert(jobs_items(cd) == job_text(cd[0]) + item_sep() + jobs_items(dvp));
                                lemma_join_at(
                                    v@,
                                    i as int,
                                    m as int,
                                    m2 as int,
                                    job_text(x.deep_view()),
                                    item_sep(),
                                );
                                lemma_join_at(
                                    v@,
                                    i as int,
                                    m2 as int,
                                    j as int,
                                    job_text(x.deep_view()) + item_sep(),
                                    jobs_items(dvp) + list_close(),
                                );
                                assert(v@.subrange(i as int, j as int) =~= jobs_items(cd)
                                    + list_close());
                                assert forall|s: Seq<JobView>|
                                    (s.len() >= 1 && true && i + (jobs_items(s)
                                        + list_close()).len() <= v@.len() && v@.subrange(
                                        i as int,
                                        i + (jobs_items(s) + list_close()).len(),
                                    ) == jobs_items(s) + list_close()) implies (r matches Some(p)
                                    && p.0.deep_view() == s && p.1 as int == i + (jobs_items(s)
                                    + list_close()).len()) by {
                                    lemma_job_items_decompose(s);
                                    let e = i + (jobs_items(s) + list_close()).len();
                                    
                                    if s.len() == 1 {
                                        lemma_split_at(v@, i as int, e, job_text(s[0]), list_close());
                                        assert(item matches Some(q) && q.0.deep_view() == s[0]
                                            && q.1 as int == i + job_text(s[0]).len());
                                        assert(v@.subrange(m as int, e)[0] == v@[m as int]);
                                        assert(v@.subrange(m as int, m + 6)[0] == v@[m as int]);
                                        assert(false);
                                    } else {
                                        lemma_split_at(
                                            v@,
                                            i as int,
                                            e,
                                            job_text(s[0]),
                                            item_sep() + (jobs_items(s.skip(1)) + list_close()),
                                        );
                                        assert(item matches Some(q) && q.0.deep_view() == s[0]
                                            && q.1 as int == i + job_text(s[0]).len());
                                        lemma_split_at(
                                            v@,
                                            m as int,
                                            e,
                                            item_sep(),
                                            jobs_items(s.skip(1)) + list_close(),
                                        );
                                        assert(sep matches Some(q2) && q2 as int == m + 6);
                                        let st = s.skip(1);
                                        assert(st.len() >= 1);
                                        
                                        assert(rest matches Some(q3) && q3.0.deep_view() == st
                                            && q3.1 as int == e);
                                        assert(cd =~= s);
                                    }
                                }
                            }
                            r
                        },
                        Option::None => {
                            proof {
                                assert forall|s: Seq<JobView>|
                                    (s.len() >= 1 && true && i + (jobs_items(s)
                                        + list_close()).len() <= v@.len() && v@.subrange(
                                        i as int,
                                        i + (jobs_items(s) + list_close()).len(),
                                    ) == jobs_items(s) + list_close()) implies false by {
                                    lemma_job_items_decompose(s);
                                    let e = i + (jobs_items(s) + list_close()).len();
                                    
                                    if s.len() == 1 {
                                        lemma_split_at(v@, i as int, e, job_text(s[0]), list_close());
                                        assert(item matches Some(q) && q.1 as int == i + job_text(
                                            s[0],
                                        ).len());
                                        assert(v@.subrange(m as int, e)[0] == v@[m as int]);
                                        assert(v@.subrange(m as int, m + 6)[0] == v@[m as int]);
                                        assert(false);
                                    } else {
                                        lemma_split_at(
                                            v@,
                                            i as int,
                                            e,
                                            job_text(s[0]),
                                            item_sep() + (jobs_items(s.skip(1)) + list_close()),
                                        );
                                        assert(item matches Some(q) && q.1 as int == i + job_text(
                                            s[0],
                                        ).len());
                                        lemma_split_at(
                                            v@,
                                            m as int,
                                            e,
                                            item_sep(),
                                            jobs_items(s.skip(1)) + list_close(),
                                        );
                                        assert(sep matches Some(q2) && q2 as int == m + 6);
                                        let st = s.skip(1);
                                        
                                        assert(rest matches Some(q3));
                                    }
                                }
                            }
                            None
                        },
                    }
                },
                Option::None => {
                    let closed = expect_lit(v, m, "\n  ]", Ghost(list_close()));
                    match closed {
                        Option::Some(j) => {
                            let mut xs: Vec<Job> = Vec::new();
                            xs.push(x);
                            let r = Some((xs, j));
                            proof {
                                assert(xs.deep_view() =~= seq![x.deep_view()]);
                                assert(jobs_items(xs.deep_view()) == job_text(x.deep_view()));
                                lemma_join_at(
                                    v@,
                                    i as int,
                                    m as int,
                                    j as int,
                                    job_text(x.deep_view()),
                                    list_close(),
                                );
                                assert forall|s: Seq<JobView>|
                                    (s.len() >= 1 && true && i + (jobs_items(s)
                                        + list_close()).len() <= v@.len() && v@.subrange(
                                        i as int,
                                        i + (jobs_items(s) + list_close()).len(),
                                    ) == jobs_items(s) + list_close()) implies (r matches Some(p)
                                    && p.0.deep_view() == s && p.1 as int == i + (jobs_items(s)
                                    + list_close()).len()) by {
                                    lemma_job_items_decompose(s);
                                    let e = i + (jobs_items(s) + list_close()).len();
                                    
                                    if s.len() >= 2 {
                                        lemma_split_at(
                                            v@,
                                            i as int,
                                            e,
                                            job_text(s[0]),
                                            item_sep() + (jobs_items(s.skip(1)) + list_close()),
                                        );
                                        assert(item matches Some(q) && q.1 as int == i + job_text(
                                            s[0],
                                        ).len());
                                        lemma_split_at(
                                            v@,
                                            m as int,
                                            e,
                                            item_sep(),
                                            jobs_items(s.skip(1)) + list_close(),
                                        );
                                        assert(sep matches Some(q2));
                                        assert(false);
                                    } else {
                                        lemma_split_at(v@, i as int, e, job_text(s[0]), list_close());
                                        assert(item matches Some(q) && q.0.deep_view() == s[0]
                                            && q.1 as int == i + job_text(s[0]).len());
                                        assert(closed matches Some(q4) && q4 as int == e);
                                        assert(xs.deep_view() =~= s);
                                    }
                                }
                            }
                            r
                        },
                        Option::None => {
                            proof {
                                assert forall|s: Seq<JobView>|
                                    (s.len() >= 1 && true && i + (jobs_items(s)
                                        + list_close()).len() <= v@.len() && v@.subrange(
                                        i as int,
                                        i + (jobs_items(s) + list_close()).len(),
                                    ) == jobs_items(s) + list_close()) implies false by {
                                    lemma_job_items_decompose(s);
                                    let e = i + (jobs_items(s) + list_close()).len();
                                    
                                    if s.len() >= 2 {
                                        lemma_split_at(
                                            v@,
                                            i as int,
                                            e,
                                            job_text(s[0]),
                                            item_sep() + (jobs_items(s.skip(1)) + list_close()),
                                        );
                                        assert(item matches Some(q) && q.1 as int == i + job_text(
                                            s[0],
                                        ).len());
                                        lemma_split_at(
                                            v@,
                                            m as int,
                                            e,
                                            item_sep(),
                                            jobs_items(s.skip(1)) + list_close(),
                                        );
                                        assert(sep matches Some(q2));
                                    } else {
                                        lemma_split_at(v@, i as int, e, job_text(s[0]), list_close());
                                        assert(item matches Some(q) && q.1 as int == i + job_text(
                                            s[0],
                                        ).len());
                                        assert(closed matches Some(q4));
                                    }
                                }
                            }
                            None
                        },
                    }
                },
            }
        },
        Option::None => {
            proof {
                assert forall|s: Seq<JobView>|
                    (s.len() >= 1 && true && i + (jobs_items(s) + list_close()).len()
                        <= v@.len() && v@.subrange(
                        i as int,
                        i + (jobs_items(s) + list_close()).len(),
                    ) == jobs_items(s) + list_close()) implies false by {
                    lemma_job_items_decompose(s);
                    let e = i + (jobs_items(s) + list_close()).len();
                    
                    if s.len() == 1 {
                        lemma_split_at(v@, i as int, e, job_text(s[0]), list_close());
                        assert(item matches Some(q));
                    } else {
                        lemma_split_at(
                            v@,
                            i as int,
                            e,
                            job_text(s[0]),
                            item_sep() + (jobs_items(s.skip(1)) + list_close()),
                        );
                        assert(item matches Some(q));
                    }
                }
            }
            None
        },
    }
}

#[verifier::rlimit(100)]
fn parse_job_list(v: &Vec<char>, i: usize) -> (r: Option<(Vec<Job>, usize)>)
    requires
        i <= v@.len(),
    ensures
        r matches Some(p) ==> i <= p.1 <= v@.len() && v@.subrange(i as int, p.1 as int)
            == jobs_text(p.0.deep_view()),
        forall|s: Seq<JobView>|
            (true && i + jobs_text(s).len() <= v@.len() && v@.subrange(
                i as int,
                i + jobs_text(s).len(),
            ) == jobs_text(s)) ==> (r matches Some(p) && p.0.deep_view() == s && p.1 as int == i
                + jobs_text(s).len()),
{
    proof {
        reveal_strlit("[]");
        assert("[]"@ =~= list_empty());
        reveal_strlit("[\n    ");
        assert("[\n    "@ =~= list_open());
    }
    let empty = expect_lit(v, i, "[]", Ghost(list_empty()));
    match empty {
        Option::Some(j) => {
            let xs: Vec<Job> = Vec::new();
            let r = Some((xs, j));
            proof {
                assert(xs.deep_view() =~= Seq::<JobView>::empty());
                assert(jobs_text(xs.deep_view()) == list_empty());
                assert forall|s: Seq<JobView>|
                    (true && i + jobs_text(s).len() <= v@.len() && v@.subrange(
                        i as int,
                        i + jobs_text(s).len(),
                    ) == jobs_text(s)) implies (r matches Some(p) && p.0.deep_view() == s
                    && p.1 as int == i + jobs_text(s).len()) by {
                    if s.len() > 0 {
                        assert(jobs_text(s) == list_open() + jobs_items(s) + list_close());
                        assert(v@.subrange(i as int, i + jobs_text(s).len())[1] == v@[i + 1]);
                        assert(v@.subrange(i as int, i + 2)[1] == v@[i + 1]);
                        assert(false);
                    } else {
                        assert(xs.deep_view() =~= s);
                    }
                }
            }
            r
        },
        Option::None => {
            let opened = expect_lit(v, i, "[\n    ", Ghost(list_open()));
            match opened {
                Option::Some(m) => {
                    let inner = parse_job_items(v, m);
                    match inner {
                        Option::Some(ip) => {
                            let xs = ip.0;
                            let j = ip.1;
                            let r = Some((xs, j));
                            proof {
                                lemma_join_at(
                                    v@,
                                    i as int,
                                    m as int,
                                    j as int,
                                    list_open(),
                                    jobs_items(ip.0.deep_view()) + list_close(),
                                );
                                assert(v@.subrange(i as int, j as int) =~= jobs_text(
                                    ip.0.deep_view(),
                                ));
                                assert forall|s: Seq<JobView>|
                                    (true && i + jobs_text(s).len() <= v@.len() && v@.subrange(
                                        i as int,
                                        i + jobs_text(s).len(),
                                    ) == jobs_text(s)) implies (r matches Some(p) && p.0.deep_view()
                                    == s && p.1 as int == i + jobs_text(s).len()) by {
                                    let e = i + jobs_text(s).len();
                                    if s.len() == 0 {
                                        assert(v@.subrange(i as int, e) == list_empty());
                                        assert(empty matches Some(qq));
                                        assert(false);
                                    } else {
                                        assert(jobs_text(s) =~= list_open() + (jobs_items(s)
                                            + list_close()));
                                        lemma_split_at(
                                            v@,
                                            i as int,
                                            e,
                                            list_open(),
                                            jobs_items(s) + list_close(),
                                        );
                                        assert(opened matches Some(q0) && q0 as int == i + 6);
                                        assert(inner matches Some(q) && q.0.deep_view() == s
                                            && q.1 as int == e);
                                    }
                                }
                            }
                            r
                        },
                        Option::None => {
                            proof {
                                assert forall|s: Seq<JobView>|
                                    (true && i + jobs_text(s).len() <= v@.len() && v@.subrange(
                                        i as int,
                                        i + jobs_text(s).len(),
                                    ) == jobs_text(s)) implies false by {
                                    let e = i + jobs_text(s).len();
                                    if s.len() == 0 {
                                        assert(v@.subrange(i as int, e) == list_empty());
                                        assert(empty matches Some(qq));
                                    } else {
                                        assert(jobs_text(s) =~= list_open() + (jobs_items(s)
                                            + list_close()));
                                        lemma_split_at(
                                            v@,
                                            i as int,
                                            e,
                                            list_open(),
                                            jobs_items(s) + list_close(),
                                        );
                                        assert(opened matches Some(q0) && q0 as int == i + 6);
                                        assert(inner matches Some(q));
                                    }
                                }
                            }
                            None
                        },
                    }
                },
                Option::None => {
                    proof {
                        assert forall|s: Seq<JobView>|
                            (true && i + jobs_text(s).len() <= v@.len() && v@.subrange(
                                i as int,
                                i + jobs_text(s).len(),
                            ) == jobs_text(s)) implies false by {
                            let e = i + jobs_text(s).len();
                            if s.len() == 0 {
                                assert(v@.subrange(i as int, e) == list_empty());
                                assert(empty matches Some(qq));
                            } else {
                                assert(jobs_text(s) =~= list_open() + (jobs_items(s) + list_close()));
                                lemma_split_at(
                                    v@,
                                    i as int,
                                    e,
                                    list_open(),
                                    jobs_items(s) + list_close(),
                                );
                                assert(opened matches Some(q0));
                            }
                        }
                    }
                    None
                },
            }
        },
    }
}


proof fn lemma_work_log_items_decompose(s: Seq<WorkLogView>)
    requires
        s.len() >= 1,
    ensures
        s.len() == 1 ==> work_logs_items(s) + list_close() == work_log_text(s[0]) + list_close(),
        s.len() >= 2 ==> work_logs_items(s) + list_close() == work_log_text(s[0]) + (item_sep() + (work_logs_items(
            s.skip(1),
        ) + list_close())),
{
    if s.len() == 1 {
        assert(work_logs_items(s) == work_log_text(s[0]));
    } else {
        assert(work_logs_items(s) == work_log_text(s[0]) + item_sep() + work_logs_items(s.skip(1)));
        assert(work_logs_items(s) + list_close() =~= work_log_text(s[0]) + (item_sep() + (work_logs_items(s.skip(1))
            + list_close())));
    }
}

#[verifier::rlimit(100)]
fn parse_work_log_items(v: &Vec<char>, i: usize) -> (r: Option<(Vec<WorkLog>, usize)>)
    requires
        i <= v@.len(),
    ensures
        r matches Some(p) ==> i <= p.1 <= v@.len() && p.0@.len() >= 1 && v@.subrange(
            i as int,
            p.1 as int,
        ) == work_logs_items(p.0.deep_view()) + list_close(),
        forall|s: Seq<WorkLogView>|
            (s.len() >= 1 && (forall|k: int| 0 <= k < s.len() ==> wl_wire_ok(#[trigger] s[k])) && i + (work_logs_items(s) + list_close()).len() <= v@.len()
                && v@.subrange(i as int, i + (work_logs_items(s) + list_close()).len()) == work_logs_items(s)
                + list_close()) ==> (r matches Some(p) && p.0.deep_view() == s && p.1 as int == i
                + (work_logs_items(s) + list_close()).len()),
    decreases v@.len() - i,
{
    proof {
        reveal_strlit(",\n    ");
        assert(",\n    "@ =~= item_sep());
        reveal_strlit("\n  ]");
        assert("\n  ]"@ =~= list_close());
    }
    let item = parse_work_log(v, i);
    match item {
        Option::Some(ip) => {
            let x = ip.0;
            let m = ip.1;
            proof {
                assert(m > i) by {
                    assert(v@.subrange(i as int, m as int).len() == m - i);
                }
            }
            let sep = expect_lit(v, m, ",\n    ", Ghost(item_sep()));
            match sep {
                Option::Some(m2) => {
                    let rest = parse_work_log_items(v, m2);
                    match rest {
                        Option::Some(rp) => {
                            let mut xs = rp.0;
                            let j = rp.1;
                            let ghost rv = xs@;
                            let ghost dvp = xs.deep_view();
                            xs.insert(0, x);
                            let r = Some((xs, j));
                            proof {
                                assert(dvp =~= Seq::new(rv.len(), |k: int| rv[k].deep_view()));
                                assert(xs@ == rv.insert(0, x));
                                assert(xs.deep_view() =~= seq![x.deep_view()] + dvp) by {
                                    assert forall|k: int| 0 <= k < rv.len() + 1 implies
                                        xs.deep_view()[k] == (seq![x.deep_view()] + dvp)[k] by {
                                        assert(xs.deep_view()[k] == xs@[k].deep_view());
                                        if k > 0 {
                                            assert(xs@[k] == rv[k - 1]);
                                            assert(dvp[k - 1] == rv[k - 1].deep_view());
                                        } else {
                                            assert(xs@[0] == x);
                                        }
                                    }
                                }
                                let cd = xs.deep_view();
                                assert(cd[0] == x.deep_view());
                                assert(cd.skip(1) =~= dvp);
                                assert(cd.len() >= 2);
                                assert(work_logs_items(cd) == work_log_text(cd[0]) + item_sep() + work_logs_items(dvp));
                                lemma_join_at(
                                    v@,
                                    i as int,
                                    m as int,
                                    m2 as int,
                                    work_log_text(x.deep_view()),
                                    item_sep(),
                                );
                                lemma_join_at(
                                    v@,
                                    i as int,
                                    m2 as int,
                                    j as int,
                                    work_log_text(x.deep_view()) + item_sep(),
                                    work_logs_items(dvp) + list_close(),
                                );
                                assert(v@.subrange(i as int, j as int) =~= work_logs_items(cd)
                                    + list_close());
                                assert forall|s: Seq<WorkLogView>|
                                    (s.len() >= 1 && (forall|k: int| 0 <= k < s.len() ==> wl_wire_ok(#[trigger] s[k])) && i + (work_logs_items(s)
                                        + list_close()).len() <= v@.len() && v@.subrange(
                                        i as int,
                                        i + (work_logs_items(s) + list_close()).len(),
                                    ) == work_logs_items(s) + list_close()) implies (r matches Some(p)
                                    && p.0.deep_view() == s && p.1 as int == i + (work_logs_items(s)
                                    + list_close()).len()) by {
                                    lemma_work_log_items_decompose(s);
                                    let e = i + (work_logs_items(s) + list_close()).len();
                                    assert(wl_wire_ok(s[0]));
                                    if s.len() == 1 {
                                        lemma_split_at(v@, i as int, e, work_log_text(s[0]), list_close());
                                        assert(item matches Some(q) && q.0.deep_view() == s[0]
                                            && q.1 as int == i + work_log_text(s[0]).len());
                                        assert(v@.subrange(m as int, e)[0] == v@[m as int]);
                                        assert(v@.subrange(m as int, m + 6)[0] == v@[m as int]);
                                        assert(false);
                                    } else {
                                        lemma_split_at(
                                            v@,
                                            i as int,
                                            e,
                                            work_log_text(s[0]),
                                            item_sep() + (work_logs_items(s.skip(1)) + list_close()),
                                        );
                                        assert(item matches Some(q) && q.0.deep_view() == s[0]
                                            && q.1 as int == i + work_log_text(s[0]).len());
                                        lemma_split_at(
                                            v@,
                                            m as int,
                                            e,
                                            item_sep(),
                                            work_logs_items(s.skip(1)) + list_close(),
                                        );
                                        assert(sep matches Some(q2) && q2 as int == m + 6);
                                        let st = s.skip(1);
                                        assert(st.len() >= 1);
                                        assert forall|k: int| 0 <= k < st.len() implies wl_wire_ok(#[trigger] st[k]) by { assert(st[k] == s[k + 1]); }
                                        assert(rest matches Some(q3) && q3.0.deep_view() == st
                                            && q3.1 as int == e);
                                        assert(cd =~= s);
                                    }
                                }
                            }
                            r
                        },
                        Option::None => {
                            proof {
                                assert forall|s: Seq<WorkLogView>|
                                    (s.len() >= 1 && (forall|k: int| 0 <= k < s.len() ==> wl_wire_ok(#[trigger] s[k])) && i + (work_logs_items(s)
                                        + list_close()).len() <= v@.len() && v@.subrange(
                                        i as int,
                                        i + (work_logs_items(s) + list_close()).len(),
                                    ) == work_logs_items(s) + list_close()) implies false by {
                                    lemma_work_log_items_decompose(s);
                                    let e = i + (work_logs_items(s) + list_close()).len();
                                    assert(wl_wire_ok(s[0]));
                                    if s.len() == 1 {
                                        lemma_split_at(v@, i as int, e, work_log_text(s[0]), list_close());
                                        assert(item matches Some(q) && q.1 as int == i + work_log_text(
                                            s[0],
                                        ).len());
                                        assert(v@.subrange(m as int, e)[0] == v@[m as int]);
                                        assert(v@.subrange(m as int, m + 6)[0] == v@[m as int]);
                                        assert(false);
                                    } else {
                                        lemma_split_at(
                                            v@,
                                            i as int,
                                            e,
                                            work_log_text(s[0]),
                                            item_sep() + (work_logs_items(s.skip(1)) + list_close()),
                                        );
                                        assert(item matches Some(q) && q.1 as int == i + work_log_text(
                                            s[0],
                                        ).len());
                                        lemma_split_at(
                                            v@,
                                            m as int,
                                            e,
                                            item_sep(),
                                            work_logs_items(s.skip(1)) + list_close(),
                                        );
                                        assert(sep matches Some(q2) && q2 as int == m + 6);
                                        let st = s.skip(1);
                                        assert forall|k: int| 0 <= k < st.len() implies wl_wire_ok(#[trigger] st[k]) by { assert(st[k] == s[k + 1]); }
                                        assert(rest matches Some(q3));
                                    }
                                }
                            }
                            None
                        },
                    }
                },
                Option::None => {
                    let closed = expect_lit(v, m, "\n  ]", Ghost(list_close()));
                    match closed {
                        Option::Some(j) => {
                            let mut xs: Vec<WorkLog> = Vec::new();
                            xs.push(x);
                            let r = Some((xs, j));
                            proof {
                                assert(xs.deep_view() =~= seq![x.deep_view()]);
                                assert(work_logs_items(xs.deep_view()) == work_log_text(x.deep_view()));
                                lemma_join_at(
                                    v@,
                                    i as int,
                                    m as int,
                                    j as int,
                                    work_log_text(x.deep_view()),
                                    list_close(),
                                );
                                assert forall|s: Seq<WorkLogView>|
                                    (s.len() >= 1 && (forall|k: int| 0 <= k < s.len() ==> wl_wire_ok(#[trigger] s[k])) && i + (work_logs_items(s)
                                        + list_close()).len() <= v@.len() && v@.subrange(
                                        i as int,
                                        i + (work_logs_items(s) + list_close()).len(),
                                    ) == work_logs_items(s) + list_close()) implies (r matches Some(p)
                                    && p.0.deep_view() == s && p.1 as int == i + (work_logs_items(s)
                                    + list_close()).len()) by {
                                    lemma_work_log_items_decompose(s);
                                    let e = i + (work_logs_items(s) + list_close()).len();
                                    assert(wl_wire_ok(s[0]));
                                    if s.len() >= 2 {
                                        lemma_split_at(
                                            v@,
                                            i as int,
                                            e,
                                            work_log_text(s[0]),
                                            item_sep() + (work_logs_items(s.skip(1)) + list_close()),
                                        );
                                        assert(item matches Some(q) && q.1 as int == i + work_log_text(
                                            s[0],
                                        ).len());
                                        lemma_split_at(
                                            v@,
                                            m as int,
                                            e,
                                            item_sep(),
                                            work_logs_items(s.skip(1)) + list_close(),
                                        );
                                        assert(sep matches Some(q2));
                                        assert(false);
                                    } else {
                                        lemma_split_at(v@, i as int, e, work_log_text(s[0]), list_close());
                                        assert(item matches Some(q) && q.0.deep_view() == s[0]
                                            && q.1 as int == i + work_log_text(s[0]).len());
                                        assert(closed matches Some(q4) && q4 as int == e);
                                        assert(xs.deep_view() =~= s);
                                    }
                                }
                            }
                            r
                        },
                        Option::None => {
                            proof {
                                assert forall|s: Seq<WorkLogView>|
                                    (s.len() >= 1 && (forall|k: int| 0 <= k < s.len() ==> wl_wire_ok(#[trigger] s[k])) && i + (work_logs_items(s)
                                        + list_close()).len() <= v@.len() && v@.subrange(
                                        i as int,
                                        i + (work_logs_items(s) + list_close()).len(),
                                    ) == work_logs_items(s) + list_close()) implies false by {
                                    lemma_work_log_items_decompose(s);
                                    let e = i + (work_logs_items(s) + list_close()).len();
                                    assert(wl_wire_ok(s[0]));
                                    if s.len() >= 2 {
                                        lemma_split_at(
                                            v@,
                                            i as int,
                                            e,
                                            work_log_text(s[0]),
                                            item_sep() + (work_logs_items(s.skip(1)) + list_close()),
                                        );
                                        assert(item matches Some(q) && q.1 as int == i + work_log_text(
                                            s[0],
                                        ).len());
                                        lemma_split_at(
                                            v@,
                                            m as int,
                                            e,
                                            item_sep(),
                                            work_logs_items(s.skip(1)) + list_close(),
                                        );
                                        assert(sep matches Some(q2));
                                    } else {
                                        lemma_split_at(v@, i as int, e, work_log_text(s[0]), list_close());
                                        assert(item matches Some(q) && q.1 as int == i + work_log_text(
                                            s[0],
                                        ).len());
                                        assert(closed matches Some(q4));
                                    }
                                }
                            }
                            None
                        },
                    }
                },
            }
        },
        Option::None => {
            proof {
                assert forall|s: Seq<WorkLogView>|
                    (s.len() >= 1 && (forall|k: int| 0 <= k < s.len() ==> wl_wire_ok(#[trigger] s[k])) && i + (work_logs_items(s) + list_close()).len()
                        <= v@.len() && v@.subrange(
                        i as int,
                        i + (work_logs_items(s) + list_close()).len(),
                    ) == work_logs_items(s) + list_close()) implies false by {
                    lemma_work_log_items_decompose(s);
                    let e = i + (work_logs_items(s) + list_close()).len();
                    assert(wl_wire_ok(s[0]));
                    if s.len() == 1 {
                        lemma_split_at(v@, i as int, e, work_log_text(s[0]), list_close());
                        assert(item matches Some(q));
                    } else {
                        lemma_split_at(
                            v@,
                            i as int,
                            e,
                            work_log_text(s[0]),
                            item_sep() + (work_logs_items(s.skip(1)) + list_close()),
                        );
                        assert(item matches Some(q));
                    }
                }
            }
            None
        },
    }
}

#[verifier::rlimit(100)]
fn parse_work_log_list(v: &Vec<char>, i: usize) -> (r: Option<(Vec<WorkLog>, usize)>)
    requires
        i <= v@.len(),
    ensures
        r matches Some(p) ==> i <= p.1 <= v@.len() && v@.subrange(i as int, p.1 as int)
            == work_logs_text(p.0.deep_view()),
        forall|s: Seq<WorkLogView>|
            ((forall|k: int| 0 <= k < s.len() ==> wl_wire_ok(#[trigger] s[k])) && i + work_logs_text(s).len() <= v@.len() && v@.subrange(
                i as int,
                i + work_logs_text(s).len(),
            ) == work_logs_text(s)) ==> (r matches Some(p) && p.0.deep_view() == s && p.1 as int == i
                + work_logs_text(s).len()),
{
    proof {
        reveal_strlit("[]");
        assert("[]"@ =~= list_empty());
        reveal_strlit("[\n    ");
        assert("[\n    "@ =~= list_open());
    }
    let empty = expect_lit(v, i, "[]", Ghost(list_empty()));
    match empty {
        Option::Some(j) => {
            let xs: Vec<WorkLog> = Vec::new();
            let r = Some((xs, j));
            proof {
                assert(xs.deep_view() =~= Seq::<WorkLogView>::empty());
                assert(work_logs_text(xs.deep_view()) == list_empty());
                assert forall|s: Seq<WorkLogView>|
                    ((forall|k: int| 0 <= k < s.len() ==> wl_wire_ok(#[trigger] s[k])) && i + work_logs_text(s).len() <= v@.len() && v@.subrange(
                        i as int,
                        i + work_logs_text(s).len(),
                    ) == work_logs_text(s)) implies (r matches Some(p) && p.0.deep_view() == s
                    && p.1 as int == i + work_logs_text(s).len()) by {
                    if s.len() > 0 {
                        assert(work_logs_text(s) == list_open() + work_logs_items(s) + list_close());
                        assert(v@.subrange(i as int, i + work_logs_text(s).len())[1] == v@[i + 1]);
                        assert(v@.subrange(i as int, i + 2)[1] == v@[i + 1]);
                        assert(false);
                    } else {
                        assert(xs.deep_view() =~= s);
                    }
                }
            }
            r
        },
        Option::None => {
            let opened = expect_lit(v, i, "[\n    ", Ghost(list_open()));
            match opened {
                Option::Some(m) => {
                    let inner = parse_work_log_items(v, m);
                    match inner {
                        Option::Some(ip) => {
                            let xs = ip.0;
                            let j = ip.1;
                            let r = Some((xs, j));
                            proof {
                                lemma_join_at(
                                    v@,
                                    i as int,
                                    m as int,
                                    j as int,
                                    list_open(),
                                    work_logs_items(ip.0.deep_view()) + list_close(),
                                );
                                assert(v@.subrange(i as int, j as int) =~= work_logs_text(
                                    ip.0.deep_view(),
                                ));
                                assert forall|s: Seq<WorkLogView>|
                                    ((forall|k: int| 0 <= k < s.len() ==> wl_wire_ok(#[trigger] s[k])) && i + work_logs_text(s).len() <= v@.len() && v@.subrange(
                                        i as int,
                                        i + work_logs_text(s).len(),
                                    ) == work_logs_text(s)) implies (r matches Some(p) && p.0.deep_view()
                                    == s && p.1 as int == i + work_logs_text(s).len()) by {
                                    let e = i + work_logs_text(s).len();
                                    if s.len() == 0 {
                                        assert(v@.subrange(i as int, e) == list_empty());
                                        assert(empty matches Some(qq));
                                        assert(false);
                                    } else {
                                        assert(work_logs_text(s) =~= list_open() + (work_logs_items(s)
                                            + list_close()));
                                        lemma_split_at(
                                            v@,
                                            i as int,
                                            e,
                                            list_open(),
                                            work_logs_items(s) + list_close(),
                                        );
                                        assert(opened matches Some(q0) && q0 as int == i + 6);
                                        assert(inner matches Some(q) && q.0.deep_view() == s
                                            && q.1 as int == e);
                                    }
                                }
                            }
                            r
                        },
                        Option::None => {
                            proof {
                                assert forall|s: Seq<WorkLogView>|
                                    ((forall|k: int| 0 <= k < s.len() ==> wl_wire_ok(#[trigger] s[k])) && i + work_logs_text(s).len() <= v@.len() && v@.subrange(
                                        i as int,
                                        i + work_logs_text(s).len(),
                                    ) == work_logs_text(s)) implies false by {
                                    let e = i + work_logs_text(s).len();
                                    if s.len() == 0 {
                                        assert(v@.subrange(i as int, e) == list_empty());
                                        assert(empty matches Some(qq));
                                    } else {
                                        assert(work_logs_text(s) =~= list_open() + (work_logs_items(s)
                                            + list_close()));
                                        lemma_split_at(
                                            v@,
                                            i as int,
                                            e,
                                            list_open(),
                                            work_logs_items(s) + list_close(),
                                        );
                                        assert(opened matches Some(q0) && q0 as int == i + 6);
                                        assert(inner matches Some(q));
                                    }
                                }
                            }
                            None
                        },
                    }
                },
                Option::None => {
                    proof {
                        assert forall|s: Seq<WorkLogView>|
                            ((forall|k: int| 0 <= k < s.len() ==> wl_wire_ok(#[trigger] s[k])) && i + work_logs_text(s).len() <= v@.len() && v@.subrange(
                                i as int,
                                i + work_logs_text(s).len(),
                            ) == work_logs_text(s)) implies false by {
                            let e = i + work_logs_text(s).len();
                            if s.len() == 0 {
                                assert(v@.subrange(i as int, e) == list_empty());
                                assert(empty matches Some(qq));
                            } else {
                                assert(work_logs_text(s) =~= list_open() + (work_logs_items(s) + list_close()));
                                lemma_split_at(
                                    v@,
                                    i as int,
                                    e,
                                    list_open(),
                                    work_logs_items(s) + list_close(),
                                );
                                assert(opened matches Some(q0));
                            }
                        }
                    }
                    None
                },
            }
        },
    }
}


proof fn lemma_snapshot_items_decompose(s: Seq<BalanceSnapshotView>)
    requires
        s.len() >= 1,
    ensures
        s.len() == 1 ==> snapshots_items(s) + list_close() == snapshot_text(s[0]) + list_close(),
        s.len() >= 2 ==> snapshots_items(s) + list_close() == snapshot_text(s[0]) + (item_sep() + (snapshots_items(
            s.skip(1),
        ) + list_close())),
{
    if s.len() == 1 {
        assert(snapshots_items(s) == snapshot_text(s[0]));
    } else {
        assert(snapshots_items(s) == snapshot_text(s[0]) + item_sep() + snapshots_items(s.skip(1)));
        assert(snapshots_items(s) + list_close() =~= snapshot_text(s[0]) + (item_sep() + (snapshots_items(s.skip(1))
            + list_close())));
    }
}

#[verifier::rlimit(100)]
fn parse_snapshot_items(v: &Vec<char>, i: usize) -> (r: Option<(Vec<BalanceSnapshot>, usize)>)
    requires
        i <= v@.len(),
    ensures
        r matches Some(p) ==> i <= p.1 <= v@.len() && p.0@.len() >= 1 && v@.subrange(
            i as int,
            p.1 as int,
        ) == snapshots_items(p.0.deep_view()) + list_close(),
        forall|s: Seq<BalanceSnapshotView>|
            (s.len() >= 1 && (forall|k: int| 0 <= k < s.len() ==> bs_wire_ok(#[trigger] s[k])) && i + (snapshots_items(s) + list_close()).len() <= v@.len()
                && v@.subrange(i as int, i + (snapshots_items(s) + list_close()).len()) == snapshots_items(s)
                + list_close()) ==> (r matches Some(p) && p.0.deep_view() == s && p.1 as int == i
                + (snapshots_items(s) + list_close()).len()),
    decreases v@.len() - i,
{
    proof {
        reveal_strlit(",\n    ");
        assert(",\n    "@ =~= item_sep());
        reveal_strlit("\n  ]");
        assert("\n  ]"@ =~= list_close());
    }
    let item = parse_snapshot(v, i);
    match item {
        Option::Some(ip) => {
            let x = ip.0;
            let m = ip.1;
            proof {
                assert(m > i) by {
                    assert(v@.subrange(i as int, m as int).len() == m - i);
                }
            }
            let sep = expect_lit(v, m, ",\n    ", Ghost(item_sep()));
            match sep {
                Option::Some(m2) => {
                    let rest = parse_snapshot_items(v, m2);
                    match rest {
                        Option::Some(rp) => {
                            let mut xs = rp.0;
                            let j = rp.1;
                            let ghost rv = xs@;
                            let ghost dvp = xs.deep_view();
                            xs.insert(0, x);
                            let r = Some((xs, j));
                            proof {
                                assert(dvp =~= Seq::new(rv.len(), |k: int| rv[k].deep_view()));
                                assert(xs@ == rv.insert(0, x));
                                assert(xs.deep_view() =~= seq![x.deep_view()] + dvp) by {
                                    assert forall|k: int| 0 <= k < rv.len() + 1 implies
                                        xs.deep_view()[k] == (seq![x.deep_view()] + dvp)[k] by {
                                        assert(xs.deep_view()[k] == xs@[k].deep_view());
                                        if k > 0 {
                                            assert(xs@[k] == rv[k - 1]);
                                            assert(dvp[k - 1] == rv[k - 1].deep_view());
                                        } else {
                                            assert(xs@[0] == x);
                                        }
                                    }
                                }
                                let cd = xs.deep_view();
                                assert(cd[0] == x.deep_view());
                                assert(cd.skip(1) =~= dvp);
                                assert(cd.len() >= 2);
                                assert(snapshots_items(cd) == snapshot_text(cd[0]) + item_sep() + snapshots_items(dvp));
                                lemma_join_at(
                                    v@,
                                    i as int,
                                    m as int,
                                    m2 as int,
                                    snapshot_text(x.deep_view()),
                                    item_sep(),
                                );
                                lemma_join_at(
                                    v@,
                                    i as int,
                                    m2 as int,
                                    j as int,
                                    snapshot_text(x.deep_view()) + item_sep(),
                                    snapshots_items(dvp) + list_close(),
                                );
                                assert(v@.subrange(i as int, j as int) =~= snapshots_items(cd)
                                    + list_close());
                                assert forall|s: Seq<BalanceSnapshotView>|
                                    (s.len() >= 1 && (forall|k: int| 0 <= k < s.len() ==> bs_wire_ok(#[trigger] s[k])) && i + (snapshots_items(s)
                                        + list_close()).len() <= v@.len() && v@.subrange(
                                        i as int,
                                        i + (snapshots_items(s) + list_close()).len(),
                                    ) == snapshots_items(s) + list_close()) implies (r matches Some(p)
                                    && p.0.deep_view() == s && p.1 as int == i + (snapshots_items(s)
                                    + list_close()).len()) by {
                                    lemma_snapshot_items_decompose(s);
                                    let e = i + (snapshots_items(s) + list_close()).len();
                                    assert(bs_wire_ok(s[0]));
                                    if s.len() == 1 {
                                        lemma_split_at(v@, i as int, e, snapshot_text(s[0]), list_close());
                                        assert(item matches Some(q) && q.0.deep_view() == s[0]
                                            && q.1 as int == i + snapshot_text(s[0]).len());
                                        assert(v@.subrange(m as int, e)[0] == v@[m as int]);
                                        assert(v@.subrange(m as int, m + 6)[0] == v@[m as int]);
                                        assert(false);
                                    } else {
                                        lemma_split_at(
                                            v@,
                                            i as int,
                                            e,
                                            snapshot_text(s[0]),
                                            item_sep() + (snapshots_items(s.skip(1)) + list_close()),
                                        );
                                        assert(item matches Some(q) && q.0.deep_view() == s[0]
                                            && q.1 as int == i + snapshot_text(s[0]).len());
                                        lemma_split_at(
                                            v@,
                                            m as int,
                                            e,
                                            item_sep(),
                                            snapshots_items(s.skip(1)) + list_close(),
                                        );
                                        assert(sep matches Some(q2) && q2 as int == m + 6);
                                        let st = s.skip(1);
                                        assert(st.len() >= 1);
                                        assert forall|k: int| 0 <= k < st.len() implies bs_wire_ok(#[trigger] st[k]) by { assert(st[k] == s[k + 1]); }
                                        assert(rest matches Some(q3) && q3.0.deep_view() == st
                                            && q3.1 as int == e);
                                        assert(cd =~= s);
                                    }
                                }
                            }
                            r
                        },
                        Option::None => {
                            proof {
                                assert forall|s: Seq<BalanceSnapshotView>|
                                    (s.len() >= 1 && (forall|k: int| 0 <= k < s.len() ==> bs_wire_ok(#[trigger] s[k])) && i + (snapshots_items(s)
                                        + list_close()).len() <= v@.len() && v@.subrange(
                                        i as int,
                                        i + (snapshots_items(s) + list_close()).len(),
                                    ) == snapshots_items(s) + list_close()) implies false by {
                                    lemma_snapshot_items_decompose(s);
                                    let e = i + (snapshots_items(s) + list_close()).len();
                                    assert(bs_wire_ok(s[0]));
                                    if s.len() == 1 {
                                        lemma_split_at(v@, i as int, e, snapshot_text(s[0]), list_close());
                                        assert(item matches Some(q) && q.1 as int == i + snapshot_text(
                                            s[0],
                                        ).len());
                                        assert(v@.subrange(m as int, e)[0] == v@[m as int]);
                                        assert(v@.subrange(m as int, m + 6)[0] == v@[m as int]);
                                        assert(false);
                                    } else {
                                        lemma_split_at(
                                            v@,
                                            i as int,
                                            e,
                                            snapshot_text(s[0]),
                                            item_sep() + (snapshots_items(s.skip(1)) + list_close()),
                                        );
                                        assert(item matches Some(q) && q.1 as int == i + snapshot_text(
                                            s[0],
                                        ).len());
                                        lemma_split_at(
                                            v@,
                                            m as int,
                                            e,
                                            item_sep(),
                                            snapshots_items(s.skip(1)) + list_close(),
                                        );
                                        assert(sep matches Some(q2) && q2 as int == m + 6);
                                        let st = s.skip(1);
                                        assert forall|k: int| 0 <= k < st.len() implies bs_wire_ok(#[trigger] st[k]) by { assert(st[k] == s[k + 1]); }
                                        assert(rest matches Some(q3));
                                    }
                                }
                            }
                            None
                        },
                    }
                },
                Option::None => {
                    let closed = expect_lit(v, m, "\n  ]", Ghost(list_close()));
                    match closed {
                        Option::Some(j) => {
                            let mut xs: Vec<BalanceSnapshot> = Vec::new();
                            xs.push(x);
                            let r = Some((xs, j));
                            proof {
                                assert(xs.deep_view() =~= seq![x.deep_view()]);
                                assert(snapshots_items(xs.deep_view()) == snapshot_text(x.deep_view()));
                                lemma_join_at(
                                    v@,
                                    i as int,
                                    m as int,
                                    j as int,
                                    snapshot_text(x.deep_view()),
                                    list_close(),
                                );
                                assert forall|s: Seq<BalanceSnapshotView>|
                                    (s.len() >= 1 && (forall|k: int| 0 <= k < s.len() ==> bs_wire_ok(#[trigger] s[k])) && i + (snapshots_items(s)
                                        + list_close()).len() <= v@.len() && v@.subrange(
                                        i as int,
                                        i + (snapshots_items(s) + list_close()).len(),
                                    ) == snapshots_items(s) + list_close()) implies (r matches Some(p)
                                    && p.0.deep_view() == s && p.1 as int == i + (snapshots_items(s)
                                    + list_close()).len()) by {
                                    lemma_snapshot_items_decompose(s);
                                    let e = i + (snapshots_items(s) + list_close()).len();
                                    assert(bs_wire_ok(s[0]));
                                    if s.len() >= 2 {
                                        lemma_split_at(
                                            v@,
                                            i as int,
                                            e,
                                            snapshot_text(s[0]),
                                            item_sep() + (snapshots_items(s.skip(1)) + list_close()),
                                        );
                                        assert(item matches Some(q) && q.1 as int == i + snapshot_text(
                                            s[0],
                                        ).len());
                                        lemma_split_at(
                                            v@,
                                            m as int,
                                            e,
                                            item_sep(),
                                            snapshots_items(s.skip(1)) + list_close(),
                                        );
                                        assert(sep matches Some(q2));
                                        assert(false);
                                    } else {
                                        lemma_split_at(v@, i as int, e, snapshot_text(s[0]), list_close());
                                        assert(item matches Some(q) && q.0.deep_view() == s[0]
                                            && q.1 as int == i + snapshot_text(s[0]).len());
                                        assert(closed matches Some(q4) && q4 as int == e);
                                        assert(xs.deep_view() =~= s);
                                    }
                                }
                            }
                            r
                        },
                        Option::None => {
                            proof {
                                assert forall|s: Seq<BalanceSnapshotView>|
                                    (s.len() >= 1 && (forall|k: int| 0 <= k < s.len() ==> bs_wire_ok(#[trigger] s[k])) && i + (snapshots_items(s)
                                        + list_close()).len() <= v@.len() && v@.subrange(
                                        i as int,
                                        i + (snapshots_items(s) + list_close()).len(),
                                    ) == snapshots_items(s) + list_close()) implies false by {
                                    lemma_snapshot_items_decompose(s);
                                    let e = i + (snapshots_items(s) + list_close()).len();
                                    assert(bs_wire_ok(s[0]));
                                    if s.len() >= 2 {
                                        lemma_split_at(
                                            v@,
                                            i as int,
                                            e,
                                            snapshot_text(s[0]),
                                            item_sep() + (snapshots_items(s.skip(1)) + list_close()),
                                        );
                                        assert(item matches Some(q) && q.1 as int == i + snapshot_text(
                                            s[0],
                                        ).len());
                                        lemma_split_at(
                                            v@,
                                            m as int,
                                            e,
                                            item_sep(),
                                            snapshots_items(s.skip(1)) + list_close(),
                                        );
                                        assert(sep matches Some(q2));
                                    } else {
                                        lemma_split_at(v@, i as int, e, snapshot_text(s[0]), list_close());
                                        assert(item matches Some(q) && q.1 as int == i + snapshot_text(
                                            s[0],
                                        ).len());
                                        assert(closed matches Some(q4));
                                    }
                                }
                            }
                            None
                        },
                    }
                },
            }
        },
        Option::None => {
            proof {
                assert forall|s: Seq<BalanceSnapshotView>|
                    (s.len() >= 1 && (forall|k: int| 0 <= k < s.len() ==> bs_wire_ok(#[trigger] s[k])) && i + (snapshots_items(s) + list_close()).len()
                        <= v@.len() && v@.subrange(
                        i as int,
                        i + (snapshots_items(s) + list_close()).len(),
                    ) == snapshots_items(s) + list_close()) implies false by {
                    lemma_snapshot_items_decompose(s);
                    let e = i + (snapshots_items(s) + list_close()).len();
                    assert(bs_wire_ok(s[0]));
                    if s.len() == 1 {
                        lemma_split_at(v@, i as int, e, snapshot_text(s[0]), list_close());
                        assert(item matches Some(q));
                    } else {
                        lemma_split_at(
                            v@,
                            i as int,
                            e,
                            snapshot_text(s[0]),
                            item_sep() + (snapshots_items(s.skip(1)) + list_close()),
                        );
                        assert(item matches Some(q));
                    }
                }
            }
            None
        },
    }
}

#[verifier::rlimit(100)]
fn parse_snapshot_list(v: &Vec<char>, i: usize) -> (r: Option<(Vec<BalanceSnapshot>, usize)>)
    requires
        i <= v@.len(),
    ensures
        r matches Some(p) ==> i <= p.1 <= v@.len() && v@.subrange(i as int, p.1 as int)
            == snapshots_text(p.0.deep_view()),
        forall|s: Seq<BalanceSnapshotView>|
            ((forall|k: int| 0 <= k < s.len() ==> bs_wire_ok(#[trigger] s[k])) && i + snapshots_text(s).len() <= v@.len() && v@.subrange(
                i as int,
                i + snapshots_text(s).len(),
            ) == snapshots_text(s)) ==> (r matches Some(p) && p.0.deep_view() == s && p.1 as int == i
                + snapshots_text(s).len()),
{
    proof {
        reveal_strlit("[]");
        assert("[]"@ =~= list_empty());
        reveal_strlit("[\n    ");
        assert("[\n    "@ =~= list_open());
    }
    let empty = expect_lit(v, i, "[]", Ghost(list_empty()));
    match empty {
        Option::Some(j) => {
            let xs: Vec<BalanceSnapshot> = Vec::new();
            let r = Some((xs, j));
            proof {
                assert(xs.deep_view() =~= Seq::<BalanceSnapshotView>::empty());
                assert(snapshots_text(xs.deep_view()) == list_empty());
                assert forall|s: Seq<BalanceSnapshotView>|
                    ((forall|k: int| 0 <= k < s.len() ==> bs_wire_ok(#[trigger] s[k])) && i + snapshots_text(s).len() <= v@.len() && v@.subrange(
                        i as int,
                        i + snapshots_text(s).len(),
                    ) == snapshots_text(s)) implies (r matches Some(p) && p.0.deep_view() == s
                    && p.1 as int == i + snapshots_text(s).len()) by {
                    if s.len() > 0 {
                        assert(snapshots_text(s) == list_open() + snapshots_items(s) + list_close());
                        assert(v@.subrange(i as int, i + snapshots_text(s).len())[1] == v@[i + 1]);
                        assert(v@.subrange(i as int, i + 2)[1] == v@[i + 1]);
                        assert(false);
                    } else {
                        assert(xs.deep_view() =~= s);
                    }
                }
            }
            r
        },
        Option::None => {
            let opened = expect_lit(v, i, "[\n    ", Ghost(list_open()));
            match opened {
                Option::Some(m) => {
                    let inner = parse_snapshot_items(v, m);
                    match inner {
                        Option::Some(ip) => {
                            let xs = ip.0;
                            let j = ip.1;
                            let r = Some((xs, j));
                            proof {
                                lemma_join_at(
                                    v@,
                                    i as int,
                                    m as int,
                                    j as int,
                                    list_open(),
                                    snapshots_items(ip.0.deep_view()) + list_close(),
                                );
                                assert(v@.subrange(i as int, j as int) =~= snapshots_text(
                                    ip.0.deep_view(),
                                ));
                                assert forall|s: Seq<BalanceSnapshotView>|
                                    ((forall|k: int| 0 <= k < s.len() ==> bs_wire_ok(#[trigger] s[k])) && i + snapshots_text(s).len() <= v@.len() && v@.subrange(
                                        i as int,
                                        i + snapshots_text(s).len(),
                                    ) == snapshots_text(s)) implies (r matches Some(p) && p.0.deep_view()
                                    == s && p.1 as int == i + snapshots_text(s).len()) by {
                                    let e = i + snapshots_text(s).len();
                                    if s.len() == 0 {
                                        assert(v@.subrange(i as int, e) == list_empty());
                                        assert(empty matches Some(qq));
                                        assert(false);
                                    } else {
                                        assert(snapshots_text(s) =~= list_open() + (snapshots_items(s)
                                            + list_close()));
                                        lemma_split_at(
                                            v@,
                                            i as int,
                                            e,
                                            list_open(),
                                            snapshots_items(s) + list_close(),
                                        );
                                        assert(opened matches Some(q0) && q0 as int == i + 6);
                                        assert(inner matches Some(q) && q.0.deep_view() == s
                                            && q.1 as int == e);
                                    }
                                }
                            }
                            r
                        },
                        Option::None => {
                            proof {
                                assert forall|s: Seq<BalanceSnapshotView>|
                                    ((forall|k: int| 0 <= k < s.len() ==> bs_wire_ok(#[trigger] s[k])) && i + snapshots_text(s).len() <= v@.len() && v@.subrange(
                                        i as int,
                                        i + snapshots_text(s).len(),
                                    ) == snapshots_text(s)) implies false by {
                                    let e = i + snapshots_text(s).len();
                                    if s.len() == 0 {
                                        assert(v@.subrange(i as int, e) == list_empty());
                                        assert(empty matches Some(qq));
                                    } else {
                                        assert(snapshots_text(s) =~= list_open() + (snapshots_items(s)
                                            + list_close()));
                                        lemma_split_at(
                                            v@,
                                            i as int,
                                            e,
                                            list_open(),
                                            snapshots_items(s) + list_close(),
                                        );
                                        assert(opened matches Some(q0) && q0 as int == i + 6);
                                        assert(inner matches Some(q));
                                    }
                                }
                            }
                            None
                        },
                    }
                },
                Option::None => {
                    proof {
                        assert forall|s: Seq<BalanceSnapshotView>|
                            ((forall|k: int| 0 <= k < s.len() ==> bs_wire_ok(#[trigger] s[k])) && i + snapshots_text(s).len() <= v@.len() && v@.subrange(
                                i as int,
                                i + snapshots_text(s).len(),
                            ) == snapshots_text(s)) implies false by {
                            let e = i + snapshots_text(s).len();
                            if s.len() == 0 {
                                assert(v@.subrange(i as int, e) == list_empty());
                                assert(empty matches Some(qq));
                            } else {
                                assert(snapshots_text(s) =~= list_open() + (snapshots_items(s) + list_close()));
                                lemma_split_at(
                                    v@,
                                    i as int,
                                    e,
                                    list_open(),
                                    snapshots_items(s) + list_close(),
                                );
                                assert(opened matches Some(q0));
                            }
                        }
                    }
                    None
                },
            }
        },
    }
}


/// A dataset view whose record ids fit the wire's 32-bit signed integers;
/// the view of every `FinanceData` value satisfies it.
pub open spec fn fd_wire_ok(d: FinanceDataView) -> bool {
    &&& forall|k: int| 0 <= k < d.work_logs.len() ==> wl_wire_ok(#[trigger] d.work_logs[k])
    &&& forall|k: int|
        0 <= k < d.balance_snapshots.len() ==> bs_wire_ok(#[trigger] d.balance_snapshots[k])
}

proof fn lemma_fd_wire_ok(d: FinanceData)
    ensures
        fd_wire_ok(d@),
{
    assert forall|k: int| 0 <= k < d@.work_logs.len() implies wl_wire_ok(
        #[trigger] d@.work_logs[k],
    ) by {
        assert(d@.work_logs[k] == d.work_logs@[k].deep_view());
    }
    assert forall|k: int| 0 <= k < d@.balance_snapshots.len() implies bs_wire_ok(
        #[trigger] d@.balance_snapshots[k],
    ) by {
        assert(d@.balance_snapshots[k] == d.balance_snapshots@[k].deep_view());
    }
}

#[verifier::rlimit(100)]
proof fn lemma_fd_peel(v: Seq<char>, d: FinanceDataView)
    requires
        v == finance_data_text(d),
    ensures
        ({
            let o1 = top_jobs().len() as int;
            let o2 = o1 + jobs_text(d.jobs).len();
            let o3 = o2 + top_work_logs().len();
            let o4 = o3 + work_logs_text(d.work_logs).len();
            let o5 = o4 + top_snapshots().len();
            let o6 = o5 + snapshots_text(d.balance_snapshots).len();
            let o7 = o6 + top_close().len();
            &&& o7 == v.len()
            &&& v.subrange(0, o1) == top_jobs()
            &&& v.subrange(o1, o2) == jobs_text(d.jobs)
            &&& v.subrange(o2, o3) == top_work_logs()
            &&& v.subrange(o3, o4) == work_logs_text(d.work_logs)
            &&& v.subrange(o4, o5) == top_snapshots()
            &&& v.subrange(o5, o6) == snapshots_text(d.balance_snapshots)
            &&& v.subrange(o6, o7) == top_close()
        }),
{
    let a1 = top_jobs();
    let a2 = jobs_text(d.jobs);
    let a3 = top_work_logs();
    let a4 = work_logs_text(d.work_logs);
    let a5 = top_snapshots();
    let a6 = snapshots_text(d.balance_snapshots);
    let a7 = top_close();
    let e = v.len() as int;
    assert(v.subrange(0, e) =~= v);
    assert(a1 + a2 + a3 + a4 + a5 + a6 + (a7) =~= a1 + a2 + a3 + a4 + a5 + (a6 + (a7)));
    assert(a1 + a2 + a3 + a4 + a5 + (a6 + (a7)) =~= a1 + a2 + a3 + a4 + (a5 + (a6 + (a7))));
    assert(a1 + a2 + a3 + a4 + (a5 + (a6 + (a7))) =~= a1 + a2 + a3 + (a4 + (a5 + (a6 + (a7)))));
    assert(a1 + a2 + a3 + (a4 + (a5 + (a6 + (a7)))) =~= a1 + a2 + (a3 + (a4 + (a5 + (a6 + (
    a7))))));
    assert(a1 + a2 + (a3 + (a4 + (a5 + (a6 + (a7))))) =~= a1 + (a2 + (a3 + (a4 + (a5 + (a6 + (
    a7)))))));
    assert(finance_data_text(d) == a1 + a2 + a3 + a4 + a5 + a6 + a7);
    assert(v.subrange(0, e) == a1 + (a2 + (a3 + (a4 + (a5 + (a6 + (a7)))))));
    lemma_split_at(v, 0, e, a1, a2 + (a3 + (a4 + (a5 + (a6 + (a7))))));
    let o1 = a1.len() as int;
    lemma_split_at(v, o1, e, a2, a3 + (a4 + (a5 + (a6 + (a7)))));
    let o2 = o1 + a2.len();
    lemma_split_at(v, o2, e, a3, a4 + (a5 + (a6 + (a7))));
    let o3 = o2 + a3.len();
    lemma_split_at(v, o3, e, a4, a5 + (a6 + (a7)));
    let o4 = o3 + a4.len();
    lemma_split_at(v, o4, e, a5, a6 + (a7));
    let o5 = o4 + a5.len();
    lemma_split_at(v, o5, e, a6, a7);
}

/// Decodes a dataset from its canonical text. It accepts exactly the
/// encoder's output: a decoded value always re-encodes to the given text,
/// and the text of any dataset decodes back to that dataset.
#[verifier::rlimit(100)]
pub fn parse_finance_data(text: &str) -> (r: Option<FinanceData>)
    ensures
        r matches Some(d) ==> text@ == finance_data_text(d@) && fd_wire_ok(d@),
        forall|dv: FinanceDataView|
            (fd_wire_ok(dv) && text@ == finance_data_text(dv)) ==> (r matches Some(d) && d@
                == dv),
{
    let v = str_to_chars(text);
    proof {
        reveal_strlit("{\n  \"jobs\": ");
        assert("{\n  \"jobs\": "@ =~= top_jobs());
        reveal_strlit(",\n  \"workLogs\": ");
        assert(",\n  \"workLogs\": "@ =~= top_work_logs());
        reveal_strlit(",\n  \"balanceSnapshots\": ");
        assert(",\n  \"balanceSnapshots\": "@ =~= top_snapshots());
        reveal_strlit("\n}");
        assert("\n}"@ =~= top_close());
    }
    let s1 = expect_lit(&v, 0, "{\n  \"jobs\": ", Ghost(top_jobs()));
    let o1;
    match s1 {
        Option::Some(q) => { o1 = q; },
        Option::None => {
            proof {
                assert forall|dv: FinanceDataView|
                    (fd_wire_ok(dv) && text@ == finance_data_text(dv)) implies false by {
                    lemma_fd_peel(v@, dv);
                    assert(s1 matches Some(qz));
                }
            }
            return None;
        },
    }
    let s2 = parse_job_list(&v, o1);
    let jobs;
    let o2;
    match s2 {
        Option::Some(q) => { jobs = q.0; o2 = q.1; },
        Option::None => {
            proof {
                assert forall|dv: FinanceDataView|
                    (fd_wire_ok(dv) && text@ == finance_data_text(dv)) implies false by {
                    lemma_fd_peel(v@, dv);
                    assert(s1 matches Some(q1) && q1 as int == top_jobs().len());
                    assert(s2 matches Some(qz));
                }
            }
            return None;
        },
    }
    let s3 = expect_lit(&v, o2, ",\n  \"workLogs\": ", Ghost(top_work_logs()));
    let o3;
    match s3 {
        Option::Some(q) => { o3 = q; },
        Option::None => {
            proof {
                assert forall|dv: FinanceDataView|
                    (fd_wire_ok(dv) && text@ == finance_data_text(dv)) implies false by {
                    lemma_fd_peel(v@, dv);
                    let p1 = top_jobs().len() as int;
                    let p2 = p1 + jobs_text(dv.jobs).len();
                    let p3 = p2 + top_work_logs().len();
                    let p4 = p3 + work_logs_text(dv.work_logs).len();
                    let p5 = p4 + top_snapshots().len();
                    let p6 = p5 + snapshots_text(dv.balance_snapshots).len();
                    assert(s1 matches Some(q1) && q1 as int == p1);
                    assert(s2 matches Some(q2) && q2.1 as int == p2);
                    assert(s3 matches Some(qz));
                }
            }
            return None;
        },
    }
    let s4 = parse_work_log_list(&v, o3);
    let work_logs;
    let o4;
    match s4 {
        Option::Some(q) => { work_logs = q.0; o4 = q.1; },
        Option::None => {
            proof {
                assert forall|dv: FinanceDataView|
                    (fd_wire_ok(dv) && text@ == finance_data_text(dv)) implies false by {
                    lemma_fd_peel(v@, dv);
                    let p1 = top_jobs().len() as int;
                    let p2 = p1 + jobs_text(dv.jobs).len();
                    let p3 = p2 + top_work_logs().len();
                    let p4 = p3 + work_logs_text(dv.work_logs).len();
                    let p5 = p4 + top_snapshots().len();
                    let p6 = p5 + snapshots_text(dv.balance_snapshots).len();
                    assert(s1 matches Some(q1) && q1 as int == p1);
                    assert(s2 matches Some(q2) && q2.1 as int == p2);
                    assert(s3 matches Some(q3) && q3 as int == p3);
                    assert(s4 matches Some(qz));
                }
            }
            return None;
        },
    }
    let s5 = expect_lit(&v, o4, ",\n  \"balanceSnapshots\": ", Ghost(top_snapshots()));
    let o5;
    match s5 {
        Option::Some(q) => { o5 = q; },
        Option::None => {
            proof {
                assert forall|dv: FinanceDataView|
                    (fd_wire_ok(dv) && text@ == finance_data_text(dv)) implies false by {
                    lemma_fd_peel(v@, dv);
                    let p1 = top_jobs().len() as int;
                    let p2 = p1 + jobs_text(dv.jobs).len();
                    let p3 = p2 + top_work_logs().len();
                    let p4 = p3 + work_logs_text(dv.work_logs).len();
                    let p5 = p4 + top_snapshots().len();
                    let p6 = p5 + snapshots_text(dv.balance_snapshots).len();
                    assert(s1 matches Some(q1) && q1 as int == p1);
                    assert(s2 matches Some(q2) && q2.1 as int == p2);
                    assert(s3 matches Some(q3) && q3 as int == p3);
                    assert(s4 matches Some(q4) && q4.1 as int == p4);
                    assert(s5 matches Some(qz));
                }
            }
            return None;
        },
    }
    let s6 = parse_snapshot_list(&v, o5);
    let balance_snapshots;
    let o6;
    match s6 {
        Option::Some(q) => { balance_snapshots = q.0; o6 = q.1; },
        Option::None => {
            proof {
                assert forall|dv: FinanceDataView|
                    (fd_wire_ok(dv) && text@ == finance_data_text(dv)) implies false by {
                    lemma_fd_peel(v@, dv);
                    let p1 = top_jobs().len() as int;
                    let p2 = p1 + jobs_text(dv.jobs).len();
                    let p3 = p2 + top_work_logs().len();
                    let p4 = p3 + work_logs_text(dv.work_logs).len();
                    let p5 = p4 + top_snapshots().len();
                    let p6 = p5 + snapshots_text(dv.balance_snapshots).len();
                    assert(s1 matches Some(q1) && q1 as int == p1);
                    assert(s2 matches Some(q2) && q2.1 as int == p2);
                    assert(s3 matches Some(q3) && q3 as int == p3);
                    assert(s4 matches Some(q4) && q4.1 as int == p4);
                    assert(s5 matches Some(q5) && q5 as int == p5);
                    assert(s6 matches Some(qz));
                }
            }
            return None;
        },
    }
    let s7 = expect_lit(&v, o6, "\n}", Ghost(top_close()));
    let o7;
    match s7 {
        Option::Some(q) => { o7 = q; },
        Option::None => {
            proof {
                assert forall|dv: FinanceDataView|
                    (fd_wire_ok(dv) && text@ == finance_data_text(dv)) implies false by {
                    lemma_fd_peel(v@, dv);
                    let p1 = top_jobs().len() as int;
                    let p2 = p1 + jobs_text(dv.jobs).len();
                    let p3 = p2 + top_work_logs().len();
                    let p4 = p3 + work_logs_text(dv.work_logs).len();
                    let p5 = p4 + top_snapshots().len();
                    let p6 = p5 + snapshots_text(dv.balance_snapshots).len();
                    assert(s1 matches Some(q1) && q1 as int == p1);
                    assert(s2 matches Some(q2) && q2.1 as int == p2);
                    assert(s3 matches Some(q3) && q3 as int == p3);
                    assert(s4 matches Some(q4) && q4.1 as int == p4);
                    assert(s5 matches Some(q5) && q5 as int == p5);
                    assert(s6 matches Some(q6) && q6.1 as int == p6);
                    assert(s7 matches Some(qz));
                }
            }
            return None;
        },
    }
    if o7 != v.len() {
        proof {
            assert forall|dv: FinanceDataView|
                (fd_wire_ok(dv) && text@ == finance_data_text(dv)) implies false by {
                lemma_fd_peel(v@, dv);
                let p1 = top_jobs().len() as int;
                let p2 = p1 + jobs_text(dv.jobs).len();
                let p3 = p2 + top_work_logs().len();
                let p4 = p3 + work_logs_text(dv.work_logs).len();
                let p5 = p4 + top_snapshots().len();
                let p6 = p5 + snapshots_text(dv.balance_snapshots).len();
                assert(s1 matches Some(q1) && q1 as int == p1);
                assert(s2 matches Some(q2) && q2.1 as int == p2);
                assert(s3 matches Some(q3) && q3 as int == p3);
                assert(s4 matches Some(q4) && q4.1 as int == p4);
                assert(s5 matches Some(q5) && q5 as int == p5);
                assert(s6 matches Some(q6) && q6.1 as int == p6);
                assert(s7 matches Some(q7) && q7 as int == p6 + top_close().len());
                assert(o7 as int == v@.len());
            }
        }
        return None;
    }
    let d = FinanceData { jobs, work_logs, balance_snapshots };
    let r = Some(d);
    proof {
        let dd = r->Some_0;
        lemma_join_at(v@, 0, o1 as int, o2 as int, top_jobs(), jobs_text(dd@.jobs));
        lemma_join_at(
            v@,
            0,
            o2 as int,
            o3 as int,
            top_jobs() + jobs_text(dd@.jobs),
            top_work_logs(),
        );
        lemma_join_at(
            v@,
            0,
            o3 as int,
            o4 as int,
            top_jobs() + jobs_text(dd@.jobs) + top_work_logs(),
            work_logs_text(dd@.work_logs),
        );
        lemma_join_at(
            v@,
            0,
            o4 as int,
            o5 as int,
            top_jobs() + jobs_text(dd@.jobs) + top_work_logs() + work_logs_text(dd@.work_logs),
            top_snapshots(),
        );
        lemma_join_at(
            v@,
            0,
            o5 as int,
            o6 as int,
            top_jobs() + jobs_text(dd@.jobs) + top_work_logs() + work_logs_text(dd@.work_logs)
                + top_snapshots(),
            snapshots_text(dd@.balance_snapshots),
        );
        lemma_join_at(
            v@,
            0,
            o6 as int,
            o7 as int,
            top_jobs() + jobs_text(dd@.jobs) + top_work_logs() + work_logs_text(dd@.work_logs)
                + top_snapshots() + snapshots_text(dd@.balance_snapshots),
            top_close(),
        );
        assert(v@.subrange(0, o7 as int) =~= v@);
        assert(text@ == finance_data_text(dd@));
        lemma_fd_wire_ok(dd);
        assert forall|dv: FinanceDataView|
            (fd_wire_ok(dv) && text@ == finance_data_text(dv)) implies (r matches Some(d2) && d2@
            == dv) by {
            lemma_fd_peel(v@, dv);
            let p1 = top_jobs().len() as int;
            let p2 = p1 + jobs_text(dv.jobs).len();
            let p3 = p2 + top_work_logs().len();
            let p4 = p3 + work_logs_text(dv.work_logs).len();
            let p5 = p4 + top_snapshots().len();
            let p6 = p5 + snapshots_text(dv.balance_snapshots).len();
            assert(s1 matches Some(q1) && q1 as int == p1);
            assert(s2 matches Some(q2) && q2.0.deep_view() == dv.jobs && q2.1 as int == p2);
            assert(s3 matches Some(q3) && q3 as int == p3);
            assert(s4 matches Some(q4) && q4.0.deep_view() == dv.work_logs && q4.1 as int == p4);
            assert(s5 matches Some(q5) && q5 as int == p5);
            assert(s6 matches Some(q6) && q6.0.deep_view() == dv.balance_snapshots && q6.1 as int
                == p6);
            assert(dd@ =~= dv);
        }
    }
    r
}

} // verus!
