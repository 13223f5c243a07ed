//! The engine's guarantees, stated and proved over the store model: change
//! suppression, key uniqueness, exact sweep behaviour, handle freshness and
//! liveness toggling.

use vstd::prelude::*;
use crate::driver::destroy_events;
use crate::driver::report_event;
use crate::driver::report_store;
use crate::events::destroy_event;
use crate::events::spawn_event;
use crate::record::INITIAL_LIVENESS;
use crate::record::RecordModel;
use crate::report::ReportModel;
use crate::report::valid_report;
use crate::store::Outcome;
use crate::store::StoreModel;
use crate::store::expired;
use crate::store::handles_distinct;
use crate::store::has_handle;
use crate::store::has_key;
use crate::store::lemma_distinct_drop_last;
use crate::store::lemma_upsert_lookup;
use crate::store::lemma_upsert_wf;
use crate::store::live_after_sweep;
use crate::store::lookup;
use crate::store::swept_out;
use crate::store::upsert_outcome;
use crate::store::upsert_store;
use crate::store::wf_model;

verus! {

/// Only the first of a run of identical reports for one key produces a
/// spawn: once the first has been applied, a field-wise identical
/// re-report is classified `Unchanged`, emits no event, and only advances
/// the record's `last_seen`; its handle, liveness flag and content stay as
/// they were.
pub proof fn lemma_identical_rereport_suppressed(
    s: StoreModel,
    rep: ReportModel,
    t1: u64,
    t2: u64,
)
    requires
        wf_model(s),
        valid_report(rep),
    ensures
        ({
            let s1 = report_store(s, rep, t1);
            let s2 = report_store(s1, rep, t2);
            let r1 = lookup(s1.records, rep.key);
            let r2 = lookup(s2.records, rep.key);
            &&& !has_key(s.records, rep.key) ==> report_event(s, rep, t1) == Option::Some(
                spawn_event(r1),
            )
            &&& upsert_outcome(s1, rep) == Outcome::Unchanged
            &&& report_event(s1, rep, t2) is None
            &&& r2.last_seen == t2
            &&& r2.key == r1.key
            &&& r2.fields == r1.fields
            &&& r2.position == r1.position
            &&& r2.live == r1.live
            &&& r2.handle == r1.handle
        }),
{
    let s1 = upsert_store(s, rep, t1);
    lemma_upsert_lookup(s, rep, t1);
    lemma_upsert_wf(s, rep, t1);
    lemma_upsert_lookup(s1, rep, t2);
}

/// At most one live record exists per key at any instant: the stored key
/// sequence has no duplicates, so the store's size equals the number of
/// distinct non-evicted keys.
pub proof fn lemma_one_record_per_key(s: StoreModel)
    requires
        wf_model(s),
    ensures
        s.records.map_values(|r: RecordModel| r.key).no_duplicates(),
        s.records.map_values(|r: RecordModel| r.key).to_set().len() == s.records.len(),
{
    let keys = s.records.map_values(|r: RecordModel| r.key);
    assert forall|i: int, j: int| 0 <= i < keys.len() && 0 <= j < keys.len() && i != j implies
        keys[i] != keys[j] by {
        assert(keys[i] == s.records[i].key);
        assert(keys[j] == s.records[j].key);
        if i < j {
            assert(s.records[i].key != s.records[j].key);
        } else {
            assert(s.records[j].key != s.records[i].key);
        }
    }
    keys.unique_seq_to_set();
}

/// The records a sweep evicts have distinct handles, each taken from the
/// swept sequence.
proof fn lemma_swept_out_handles(rs: Seq<RecordModel>, now: u64, timeout: u64)
    requires
        crate::store::keys_distinct(rs),
        handles_distinct(rs),
    ensures
        handles_distinct(swept_out(rs, now, timeout)),
        forall|h: int| has_handle(swept_out(rs, now, timeout), h) ==> has_handle(rs, h),
    decreases rs.len(),
{
    let sw = swept_out(rs, now, timeout);
    if rs.len() == 0 {
        assert forall|h: int| has_handle(sw, h) implies has_handle(rs, h) by {}
    } else {
        let dl = rs.drop_last();
        lemma_distinct_drop_last(rs);
        lemma_swept_out_handles(dl, now, timeout);
        let swdl = swept_out(dl, now, timeout);
        assert forall|h: int| has_handle(dl, h) implies has_handle(rs, h) by {
            let i = choose|i: int| 0 <= i < dl.len() && dl[i].handle == h;
            assert(dl[i] == rs[i]);
            assert(rs[i].handle == h);
        }
        if expired(rs.last(), now, timeout) {
            assert(sw == swdl.push(rs.last()));
            assert forall|i: int, j: int| 0 <= i < j < sw.len() implies #[trigger] sw[i].handle
                != #[trigger] sw[j].handle by {
                if j < swdl.len() {
                    assert(sw[i] == swdl[i]);
                    assert(sw[j] == swdl[j]);
                } else {
                    assert(sw[j] == rs.last());
                    assert(sw[i] == swdl[i]);
                    if sw[i].handle == rs.last().handle {
                        assert(has_handle(swdl, rs.last().handle));
                        assert(has_handle(dl, rs.last().handle));
                        let w = choose|w: int|
                            0 <= w < dl.len() && dl[w].handle == rs.last().handle;
                        assert(dl[w] == rs[w]);
                        assert(rs[w].handle == rs[rs.len() - 1].handle);
                        assert(false);
                    }
                }
            }
        } else {
            assert(sw == swdl);
        }
        assert forall|h: int| has_handle(sw, h) implies has_handle(rs, h) by {
            let i = choose|i: int| 0 <= i < sw.len() && sw[i].handle == h;
            if expired(rs.last(), now, timeout) && i == swdl.len() {
                assert(rs[rs.len() - 1].handle == h);
            } else {
                assert(sw[i] == swdl[i]);
                assert(has_handle(swdl, h));
            }
        }
    }
}

/// A sweep partitions the store: every stale record is evicted, every
/// fresh one is kept, and nothing else appears on either side.
proof fn lemma_sweep_partition(rs: Seq<RecordModel>, now: u64, timeout: u64)
    ensures
        live_after_sweep(rs, now, timeout).len() + swept_out(rs, now, timeout).len() == rs.len(),
        forall|j: int| 0 <= j < swept_out(rs, now, timeout).len() ==> expired(
            #[trigger] swept_out(rs, now, timeout)[j],
            now,
            timeout,
        ),
        forall|j: int| 0 <= j < live_after_sweep(rs, now, timeout).len() ==> !expired(
            #[trigger] live_after_sweep(rs, now, timeout)[j],
            now,
            timeout,
        ),
        forall|i: int|
            0 <= i < rs.len() && expired(#[trigger] rs[i], now, timeout) ==> swept_out(
                rs,
                now,
                timeout,
            ).contains(rs[i]),
        forall|i: int|
            0 <= i < rs.len() && !expired(#[trigger] rs[i], now, timeout) ==> live_after_sweep(
                rs,
                now,
                timeout,
            ).contains(rs[i]),
        forall|j: int| 0 <= j < swept_out(rs, now, timeout).len() ==> rs.contains(
            #[trigger] swept_out(rs, now, timeout)[j],
        ),
        forall|j: int| 0 <= j < live_after_sweep(rs, now, timeout).len() ==> rs.contains(
            #[trigger] live_after_sweep(rs, now, timeout)[j],
        ),
    decreases rs.len(),
{
    let lv = live_after_sweep(rs, now, timeout);
    let sw = swept_out(rs, now, timeout);
    if rs.len() == 0 {
    } else {
        let dl = rs.drop_last();
        lemma_sweep_partition(dl, now, timeout);
        let lvdl = live_after_sweep(dl, now, timeout);
        let swdl = swept_out(dl, now, timeout);
        assert forall|i: int|
            0 <= i < rs.len() && expired(#[trigger] rs[i], now, timeout) implies sw.contains(
            rs[i],
        ) by {
            if i < rs.len() - 1 {
                assert(rs[i] == dl[i]);
                assert(swdl.contains(dl[i]));
                let w = choose|w: int| 0 <= w < swdl.len() && swdl[w] == dl[i];
                assert(sw[w] == rs[i]);
            } else {
                assert(sw[sw.len() - 1] == rs[i]);
            }
        }
        assert forall|i: int|
            0 <= i < rs.len() && !expired(#[trigger] rs[i], now, timeout) implies lv.contains(
            rs[i],
        ) by {
            if i < rs.len() - 1 {
                assert(rs[i] == dl[i]);
                assert(lvdl.contains(dl[i]));
                let w = choose|w: int| 0 <= w < lvdl.len() && lvdl[w] == dl[i];
                assert(lv[w] == rs[i]);
            } else {
                assert(lv[lv.len() - 1] == rs[i]);
            }
        }
        assert forall|j: int| 0 <= j < sw.len() implies rs.contains(#[trigger] sw[j]) by {
            if expired(rs.last(), now, timeout) && j == sw.len() - 1 {
                assert(sw[j] == rs[rs.len() - 1]);
            } else {
                assert(sw[j] == swdl[j]);
                assert(dl.contains(swdl[j]));
                let w = choose|w: int| 0 <= w < dl.len() && dl[w] == swdl[j];
                assert(rs[w] == sw[j]);
            }
        }
        assert forall|j: int| 0 <= j < lv.len() implies rs.contains(#[trigger] lv[j]) by {
            if !expired(rs.last(), now, timeout) && j == lv.len() - 1 {
                assert(lv[j] == rs[rs.len() - 1]);
            } else {
                assert(lv[j] == lvdl[j]);
                assert(dl.contains(lvdl[j]));
                let w = choose|w: int| 0 <= w < dl.len() && dl[w] == lvdl[j];
                assert(rs[w] == lv[j]);
            }
        }
    }
}

/// A record stale at sweep time is always evicted and produces exactly one
/// destroy event, at exactly one place in the emitted sequence; a record
/// refreshed within the window is never evicted and no destroy event
/// carries its handle.
pub proof fn lemma_sweep_exact(s: StoreModel, i: int, now: u64, timeout: u64)
    requires
        wf_model(s),
        0 <= i < s.records.len(),
    ensures
        ({
            let evs = destroy_events(s.records, now, timeout);
            &&& expired(s.records[i], now, timeout) ==> !has_key(
                live_after_sweep(s.records, now, timeout),
                s.records[i].key,
            ) && (exists|j: int|
                0 <= j < evs.len() && evs[j] == destroy_event(s.records[i].handle)) && (forall|
                j1: int,
                j2: int,
            |
                0 <= j1 < evs.len() && 0 <= j2 < evs.len() && #[trigger] evs[j1]
                    == #[trigger] evs[j2] && evs[j1] == destroy_event(s.records[i].handle) ==> j1
                    == j2)
            &&& !expired(s.records[i], now, timeout) ==> has_key(
                live_after_sweep(s.records, now, timeout),
                s.records[i].key,
            ) && !has_handle(swept_out(s.records, now, timeout), s.records[i].handle)
        }),
{
    let rs = s.records;
    let lv = live_after_sweep(rs, now, timeout);
    let sw = swept_out(rs, now, timeout);
    let evs = destroy_events(rs, now, timeout);
    lemma_sweep_partition(rs, now, timeout);
    lemma_swept_out_handles(rs, now, timeout);
    if expired(rs[i], now, timeout) {
        // evicted: its handle appears in the destroy events
        let w = choose|w: int| 0 <= w < sw.len() && sw[w] == rs[i];
        assert(evs[w] == destroy_event(rs[i].handle));
        // and exactly once, because evicted handles are distinct
        assert forall|j1: int, j2: int|
            0 <= j1 < evs.len() && 0 <= j2 < evs.len() && #[trigger] evs[j1] == #[trigger] evs[j2]
                && evs[j1] == destroy_event(rs[i].handle) implies j1 == j2 by {
            assert(evs[j1] == destroy_event(sw[j1].handle));
            assert(evs[j2] == destroy_event(sw[j2].handle));
            assert(sw[j1].handle == sw[j2].handle);
            if j1 < j2 {
                assert(sw[j1].handle != sw[j2].handle);
            } else if j2 < j1 {
                assert(sw[j2].handle != sw[j1].handle);
            }
        }
        // and it no longer answers to its key
        if has_key(lv, rs[i].key) {
            let m = choose|m: int| 0 <= m < lv.len() && lv[m].key == rs[i].key;
            assert(rs.contains(lv[m]));
            let w2 = choose|w2: int| 0 <= w2 < rs.len() && rs[w2] == lv[m];
            assert(!expired(lv[m], now, timeout));
            if w2 < i {
                assert(rs[w2].key != rs[i].key);
            } else if i < w2 {
                assert(rs[i].key != rs[w2].key);
            }
            assert(false);
        }
    } else {
        assert(lv.contains(rs[i]));
        let m = choose|m: int| 0 <= m < lv.len() && lv[m] == rs[i];
        assert(lv[m].key == rs[i].key);
        assert(has_key(lv, rs[i].key));
        if has_handle(sw, rs[i].handle) {
            let w = choose|w: int| 0 <= w < sw.len() && sw[w].handle == rs[i].handle;
            assert(expired(sw[w], now, timeout));
            let w2 = choose|w2: int| 0 <= w2 < rs.len() && rs[w2] == sw[w];
            if w2 != i {
                if w2 < i {
                    assert(rs[w2].handle != rs[i].handle);
                } else {
                    assert(rs[i].handle != rs[w2].handle);
                }
            }
            assert(false);
        }
    }
}

/// A record refreshed at the current tick is never swept in the same tick:
/// the upsert takes precedence over the sweeper.
pub proof fn lemma_refresh_never_swept_same_tick(
    s: StoreModel,
    rep: ReportModel,
    now: u64,
    timeout: u64,
)
    requires
        wf_model(s),
    ensures
        has_key(
            live_after_sweep(upsert_store(s, rep, now).records, now, timeout),
            rep.key,
        ),
{
    let s1 = upsert_store(s, rep, now);
    lemma_upsert_wf(s, rep, now);
    lemma_upsert_lookup(s, rep, now);
    let r1 = lookup(s1.records, rep.key);
    assert(!expired(r1, now, timeout));
    lemma_sweep_partition(s1.records, now, timeout);
    let w = crate::store::key_index(s1.records, rep.key);
    assert(0 <= w < s1.records.len() && s1.records[w].key == rep.key);
    assert(s1.records[w] == r1);
    assert(live_after_sweep(s1.records, now, timeout).contains(r1));
    let m = choose|m: int|
        0 <= m < live_after_sweep(s1.records, now, timeout).len() && live_after_sweep(
            s1.records,
            now,
            timeout,
        )[m] == r1;
    assert(live_after_sweep(s1.records, now, timeout)[m].key == rep.key);
}

/// Re-creating a record after eviction assigns a fresh handle, distinct
/// from every handle assigned before it: handles are handed out from a
/// counter that no operation ever moves backwards (upserts only raise it,
/// sweeps and removals keep it), every assigned handle sits below the
/// counter, and a spawn hands out exactly the counter's value.
pub proof fn lemma_recreated_handle_fresh(s: StoreModel, rep: ReportModel, now: u64, h: int)
    requires
        wf_model(s),
        h < s.next_handle,
        upsert_outcome(s, rep) == Outcome::Added,
    ensures
        lookup(upsert_store(s, rep, now).records, rep.key).handle == s.next_handle,
        lookup(upsert_store(s, rep, now).records, rep.key).handle != h,
{
    lemma_upsert_lookup(s, rep, now);
}

/// The liveness flag starts at the fixed initial value on a spawn, flips
/// on every accepted change relative to its prior value, and holds still
/// on an identical re-report.
pub proof fn lemma_liveness_toggle(s: StoreModel, rep: ReportModel, now: u64)
    requires
        wf_model(s),
    ensures
        upsert_outcome(s, rep) == Outcome::Added ==> lookup(
            upsert_store(s, rep, now).records,
            rep.key,
        ).live == INITIAL_LIVENESS,
        upsert_outcome(s, rep) == Outcome::Changed ==> lookup(
            upsert_store(s, rep, now).records,
            rep.key,
        ).live == !lookup(s.records, rep.key).live,
        upsert_outcome(s, rep) == Outcome::Unchanged ==> lookup(
            upsert_store(s, rep, now).records,
            rep.key,
        ).live == lookup(s.records, rep.key).live,
{
    lemma_upsert_lookup(s, rep, now);
}

} // verus!
