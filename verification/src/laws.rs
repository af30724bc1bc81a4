use vstd::prelude::*;

use crate::order::lex_le;
use crate::store::{
    bs_find_date, bs_from_new, bs_overwritten, bs_sorted, create_work_log_spec,
    delete_work_log_spec, lemma_bs_find_date_props, lemma_bs_find_date_unique,
    lemma_bs_insert_pos_props, lemma_wl_find_id_props, lemma_wl_find_id_unique,
    lemma_wl_insert_pos_props, upsert_balance_snapshot_spec, valid_loaded, wl_find_id,
    wl_insert_pos, AppDataView,
};
use crate::types::{
    BalanceSnapshotView, FinanceDataView, NewBalanceSnapshotView, NewWorkLogView, WorkLogView,
};

verus! {

// Laws that relate several store operations. Each speaks over the transition
// relations that the operations' own contracts establish, so a caller that
// chains real calls can apply these to the views it observed.

proof fn lemma_next_id_monotone(
    states: Seq<AppDataView>,
    inputs: Seq<NewWorkLogView>,
    rets: Seq<WorkLogView>,
    i: int,
    j: int,
)
    requires
        states.len() == rets.len() + 1,
        inputs.len() == rets.len(),
        forall|k: int|
            #![trigger rets[k]]
            0 <= k < rets.len() ==> create_work_log_spec(states[k], states[k + 1], inputs[k], rets[k]),
        0 <= i <= j < states.len(),
    ensures
        states[j].next_work_log_id >= states[i].next_work_log_id + (j - i),
    decreases j - i,
{
    if i < j {
        lemma_next_id_monotone(states, inputs, rets, i, j - 1);
        assert(create_work_log_spec(states[j - 1], states[j], inputs[j - 1], rets[j - 1]));
    }
}

/// Law: over any chain of work-log creations, the returned ids are pairwise
/// distinct and strictly increase in call order.
pub proof fn lemma_create_ids_increase(
    states: Seq<AppDataView>,
    inputs: Seq<NewWorkLogView>,
    rets: Seq<WorkLogView>,
)
    requires
        states.len() == rets.len() + 1,
        inputs.len() == rets.len(),
        forall|k: int|
            #![trigger rets[k]]
            0 <= k < rets.len() ==> create_work_log_spec(states[k], states[k + 1], inputs[k], rets[k]),
    ensures
        forall|i: int, j: int|
            #![trigger rets[i], rets[j]]
            0 <= i < j < rets.len() ==> rets[i].id < rets[j].id,
{
    assert forall|i: int, j: int|
        #![trigger rets[i], rets[j]]
        0 <= i < j < rets.len() implies rets[i].id < rets[j].id by {
        assert(create_work_log_spec(states[i], states[i + 1], inputs[i], rets[i]));
        assert(create_work_log_spec(states[j], states[j + 1], inputs[j], rets[j]));
        lemma_next_id_monotone(states, inputs, rets, i, j);
    }
}

/// Law: a creation inserts the new record after every entry whose date is at
/// or below its own and before every later-dated entry, and leaves all
/// existing entries in their relative order; so entries with equal dates
/// stand in creation order.
pub proof fn lemma_create_is_stable(
    pre: AppDataView,
    post: AppDataView,
    input: NewWorkLogView,
    r: WorkLogView,
)
    requires
        pre.wf(),
        create_work_log_spec(pre, post, input, r),
    ensures
        ({
            let p = wl_insert_pos(pre.work_logs, input.date);
            &&& 0 <= p <= pre.work_logs.len()
            &&& post.work_logs[p] == r
            &&& forall|k: int| 0 <= k < p ==> #[trigger] post.work_logs[k] == pre.work_logs[k]
            &&& forall|k: int|
                p <= k < pre.work_logs.len() ==> #[trigger] post.work_logs[k + 1]
                    == pre.work_logs[k]
            &&& forall|k: int|
                0 <= k < p ==> lex_le(#[trigger] pre.work_logs[k].date, input.date)
            &&& forall|k: int|
                p <= k < pre.work_logs.len() ==> !lex_le(
                    #[trigger] pre.work_logs[k].date,
                    input.date,
                )
        }),
{
    let p = wl_insert_pos(pre.work_logs, input.date);
    lemma_wl_insert_pos_props(pre.work_logs, input.date);
    assert forall|k: int| p <= k < pre.work_logs.len() implies !lex_le(
        #[trigger] pre.work_logs[k].date,
        input.date,
    ) by {
        if k > p {
            crate::order::lemma_lex_lt_le_trans(
                input.date,
                pre.work_logs[p].date,
                pre.work_logs[k].date,
            );
        }
        crate::order::lemma_lex_lt_asymm(input.date, pre.work_logs[k].date);
    }
}

/// Law: the dataset a well-formed store lists is itself valid to load.
/// Together with the encoder's and loader's contracts this gives the save
/// round trip: the loader adopts the text the encoder wrote for any
/// well-formed store, reproducing its collections and recomputing the
/// allocators from the largest ids present.
pub proof fn lemma_store_data_loadable(v: AppDataView)
    requires
        v.wf(),
    ensures
        valid_loaded(
            FinanceDataView {
                jobs: v.jobs,
                work_logs: v.work_logs,
                balance_snapshots: v.balance_snapshots,
            },
        ),
{
    let d = FinanceDataView {
        jobs: v.jobs,
        work_logs: v.work_logs,
        balance_snapshots: v.balance_snapshots,
    };
    assert forall|i: int|
        #![trigger d.work_logs[i]]
        0 < i < d.work_logs.len() implies lex_le(d.work_logs[i - 1].date, d.work_logs[i].date) by {
        assert(v.work_logs[i - 1] == d.work_logs[i - 1]);
        assert(v.work_logs[i] == d.work_logs[i]);
    }
    assert forall|i: int|
        #![trigger d.balance_snapshots[i]]
        0 < i < d.balance_snapshots.len() implies lex_le(
        d.balance_snapshots[i - 1].date,
        d.balance_snapshots[i].date,
    ) by {
        assert(v.balance_snapshots[i - 1] == d.balance_snapshots[i - 1]);
        assert(v.balance_snapshots[i] == d.balance_snapshots[i]);
    }
}

/// Law: deleting a work log removes its id for good; a second deletion of
/// the same id reports not-found and leaves the store exactly as it was.
pub proof fn lemma_delete_work_log_twice(
    s0: AppDataView,
    s1: AppDataView,
    s2: AppDataView,
    id: int,
    r1: bool,
    r2: bool,
)
    requires
        s0.wf(),
        delete_work_log_spec(s0, s1, id, r1),
        delete_work_log_spec(s1, s2, id, r2),
        r1,
    ensures
        !r2,
        s2 == s1,
{
    let i = wl_find_id(s0.work_logs, id);
    lemma_wl_find_id_props(s0.work_logs, id);
    assert(s1.work_logs == s0.work_logs.remove(i));
    assert forall|j: int|
        0 <= j < s1.work_logs.len() implies #[trigger] s1.work_logs[j].id != id by {
        let j0 = if j < i {
            j
        } else {
            j + 1
        };
        assert(s1.work_logs[j] == s0.work_logs[j0]);
        assert(s0.work_logs[i].id == id);
    }
    lemma_wl_find_id_unique(s1.work_logs, id, s1.work_logs.len() as int);
    assert(wl_find_id(s1.work_logs, id) < 0);
    assert(s2 =~= s1);
}

/// Law: submitting a snapshot for a date that already went through an upsert
/// leaves exactly one snapshot for that date; it carries the second call's
/// field values and keeps the id the first call stored.
pub proof fn lemma_upsert_same_date(
    s0: AppDataView,
    s1: AppDataView,
    s2: AppDataView,
    in1: NewBalanceSnapshotView,
    in2: NewBalanceSnapshotView,
    r1: BalanceSnapshotView,
    r2: BalanceSnapshotView,
)
    requires
        s0.wf(),
        s1.wf(),
        upsert_balance_snapshot_spec(s0, s1, in1, r1),
        upsert_balance_snapshot_spec(s1, s2, in2, r2),
        in2.date == in1.date,
    ensures
        r2.id == r1.id,
        r2 == bs_overwritten(r1, in2),
        s2.balance_snapshots.len() == s1.balance_snapshots.len(),
        exists|k: int|
            0 <= k < s2.balance_snapshots.len() && #[trigger] s2.balance_snapshots[k] == bs_overwritten(
                r1,
                in2,
            ),
        forall|k: int|
            #![trigger s2.balance_snapshots[k]]
            0 <= k < s2.balance_snapshots.len() && s2.balance_snapshots[k].date == in1.date
                ==> s2.balance_snapshots[k] == bs_overwritten(r1, in2),
{
    let d = in1.date;
    let i0 = bs_find_date(s0.balance_snapshots, d);
    lemma_bs_find_date_props(s0.balance_snapshots, d);
    if i0 >= 0 {
        assert(r1 == bs_overwritten(s0.balance_snapshots[i0], in1));
        assert(s1.balance_snapshots == s0.balance_snapshots.update(i0, r1));
        assert forall|j: int|
            #![trigger s1.balance_snapshots[j]]
            0 <= j < i0 implies s1.balance_snapshots[j].date != d by {
            assert(s1.balance_snapshots[j] == s0.balance_snapshots[j]);
        }
        assert(s1.balance_snapshots[i0].date == d);
        lemma_bs_find_date_unique(s1.balance_snapshots, d, i0);
        assert(bs_find_date(s1.balance_snapshots, d) == i0);
        assert(r2 == bs_overwritten(s1.balance_snapshots[i0], in2));
        assert(r2 == bs_overwritten(r1, in2));
        assert(s2.balance_snapshots == s1.balance_snapshots.update(i0, r2));
        assert(s2.balance_snapshots[i0] == bs_overwritten(r1, in2));
        assert forall|k: int|
            #![trigger s2.balance_snapshots[k]]
            0 <= k < s2.balance_snapshots.len() && s2.balance_snapshots[k].date == in1.date
                implies s2.balance_snapshots[k] == bs_overwritten(r1, in2) by {
            if k != i0 {
                assert(s2.balance_snapshots[k] == s0.balance_snapshots[k]);
                assert(s0.balance_snapshots[k].date != d);
            }
        }
    } else {
        let p = crate::store::bs_insert_pos(s0.balance_snapshots, d);
        lemma_bs_insert_pos_props(s0.balance_snapshots, d);
        assert(r1 == bs_from_new(in1, s0.next_snapshot_id));
        assert(s1.balance_snapshots == s0.balance_snapshots.insert(p, r1));
        assert forall|j: int|
            #![trigger s1.balance_snapshots[j]]
            0 <= j < p implies s1.balance_snapshots[j].date != d by {
            assert(s1.balance_snapshots[j] == s0.balance_snapshots[j]);
        }
        assert(s1.balance_snapshots[p].date == d);
        lemma_bs_find_date_unique(s1.balance_snapshots, d, p);
        assert(bs_find_date(s1.balance_snapshots, d) == p);
        assert(r2 == bs_overwritten(s1.balance_snapshots[p], in2));
        assert(s1.balance_snapshots[p] == r1);
        assert(r2 == bs_overwritten(r1, in2));
        assert(s2.balance_snapshots == s1.balance_snapshots.update(p, r2));
        assert(s2.balance_snapshots[p] == bs_overwritten(r1, in2));
        assert forall|k: int|
            #![trigger s2.balance_snapshots[k]]
            0 <= k < s2.balance_snapshots.len() && s2.balance_snapshots[k].date == in1.date
                implies s2.balance_snapshots[k] == bs_overwritten(r1, in2) by {
            if k != p {
                assert(s2.balance_snapshots[k] == s1.balance_snapshots[k]);
                if k < p {
                    assert(s1.balance_snapshots[k] == s0.balance_snapshots[k]);
                } else {
                    assert(s1.balance_snapshots[k] == s0.balance_snapshots[k - 1]);
                }
            }
        }
    }
}

/// Law: upserting two snapshots with different dates into a store that holds
/// neither date adds exactly two records, both present afterwards, and the
/// collection stays sorted by date.
pub proof fn lemma_upsert_two_dates(
    s0: AppDataView,
    s1: AppDataView,
    s2: AppDataView,
    in1: NewBalanceSnapshotView,
    in2: NewBalanceSnapshotView,
    r1: BalanceSnapshotView,
    r2: BalanceSnapshotView,
)
    requires
        s0.wf(),
        s1.wf(),
        s2.wf(),
        upsert_balance_snapshot_spec(s0, s1, in1, r1),
        upsert_balance_snapshot_spec(s1, s2, in2, r2),
        in1.date != in2.date,
        bs_find_date(s0.balance_snapshots, in1.date) < 0,
        bs_find_date(s0.balance_snapshots, in2.date) < 0,
    ensures
        s2.balance_snapshots.len() == s0.balance_snapshots.len() + 2,
        bs_sorted(s2.balance_snapshots),
        exists|k: int| 0 <= k < s2.balance_snapshots.len() && #[trigger] s2.balance_snapshots[k] == r1,
        exists|k: int| 0 <= k < s2.balance_snapshots.len() && #[trigger] s2.balance_snapshots[k] == r2,
{
    let d1 = in1.date;
    let d2 = in2.date;
    lemma_bs_find_date_props(s0.balance_snapshots, d1);
    lemma_bs_find_date_props(s0.balance_snapshots, d2);
    let p1 = crate::store::bs_insert_pos(s0.balance_snapshots, d1);
    lemma_bs_insert_pos_props(s0.balance_snapshots, d1);
    assert(s1.balance_snapshots == s0.balance_snapshots.insert(p1, r1));
    assert(r1.date == d1);
    // no snapshot in s1 carries d2
    assert forall|j: int|
        #![trigger s1.balance_snapshots[j]]
        0 <= j < s1.balance_snapshots.len() implies s1.balance_snapshots[j].date != d2 by {
        if j < p1 {
            assert(s1.balance_snapshots[j] == s0.balance_snapshots[j]);
        } else if j == p1 {
        } else {
            assert(s1.balance_snapshots[j] == s0.balance_snapshots[j - 1]);
        }
    }
    lemma_bs_find_date_unique(s1.balance_snapshots, d2, s1.balance_snapshots.len() as int);
    assert(bs_find_date(s1.balance_snapshots, d2) < 0);
    let p2 = crate::store::bs_insert_pos(s1.balance_snapshots, d2);
    lemma_bs_insert_pos_props(s1.balance_snapshots, d2);
    assert(s2.balance_snapshots == s1.balance_snapshots.insert(p2, r2));
    assert(s2.balance_snapshots.len() == s0.balance_snapshots.len() + 2);
    if p1 < p2 {
        assert(s2.balance_snapshots[p1] == s1.balance_snapshots[p1]);
        assert(s2.balance_snapshots[p1] == r1);
    } else {
        assert(s2.balance_snapshots[p1 + 1] == s1.balance_snapshots[p1]);
        assert(s2.balance_snapshots[p1 + 1] == r1);
    }
    assert(s2.balance_snapshots[p2] == r2);
}

} // verus!
