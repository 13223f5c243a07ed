//! Reconciliation driver: feeds accepted reports into the track store and
//! turns the outcomes into lifecycle events, one event per accepted add or
//! change and one per swept timeout, in the order they are produced. A
//! report that fails validation is skipped and leaves no partial record.

use vstd::prelude::*;
use crate::events::EventKind;
use crate::events::EventModel;
use crate::events::LifecycleEvent;
use crate::events::destroy_event;
use crate::events::emit_for_record;
use crate::events::spawn_event;
use crate::events::update_event;
use crate::record::RecordModel;
use crate::report::Report;
use crate::report::ReportModel;
use crate::report::valid_report;
use crate::store::Eviction;
use crate::store::Outcome;
use crate::store::StoreModel;
use crate::store::TrackStore;
use crate::store::has_key;
use crate::store::key_index;
use crate::store::live_after_sweep;
use crate::store::lookup;
use crate::store::swept_out;
use crate::store::sweep_evictions;
use crate::store::upsert_outcome;
use crate::store::upsert_store;
use crate::store::wf_model;

verus! {

/// The store after one driver step: an accepted report is upserted, an
/// invalid one is skipped.
pub open spec fn report_store(s: StoreModel, rep: ReportModel, now: u64) -> StoreModel {
    if valid_report(rep) {
        upsert_store(s, rep, now)
    } else {
        s
    }
}

/// The event one driver step emits: spawn for an unseen key, update for a
/// genuine change, nothing for an identical re-report or an invalid report.
pub open spec fn report_event(s: StoreModel, rep: ReportModel, now: u64) -> Option<EventModel> {
    if !valid_report(rep) {
        Option::None
    } else {
        let s1 = upsert_store(s, rep, now);
        match upsert_outcome(s, rep) {
            Outcome::Added => Option::Some(spawn_event(lookup(s1.records, rep.key))),
            Outcome::Changed => Option::Some(update_event(lookup(s1.records, rep.key))),
            Outcome::Unchanged => Option::None,
        }
    }
}

/// Mathematical value of an optional event.
pub open spec fn opt_event_model(ev: Option<LifecycleEvent>) -> Option<EventModel> {
    match ev {
        Option::Some(e) => Option::Some(e@),
        Option::None => Option::None,
    }
}

/// After an upsert the report's key is present, and holds exactly the
/// record `upsert_store` describes.
pub proof fn lemma_upsert_has_key(s: StoreModel, rep: ReportModel, now: u64)
    requires
        wf_model(s),
    ensures
        has_key(upsert_store(s, rep, now).records, rep.key),
{
    let s1 = upsert_store(s, rep, now);
    if !has_key(s.records, rep.key) {
        assert(s1.records[s.records.len() as int].key == rep.key);
    } else {
        let i = key_index(s.records, rep.key);
        assert(s1.records[i].key == rep.key);
    }
}

/// Processes one decoded report at tick time `now`: validates it, upserts
/// it into the store, and emits the lifecycle event the outcome calls for.
/// Reports never remove records; `last_seen` is refreshed on every
/// accepted report whether or not its content changed.
pub fn process_report(store: &mut TrackStore, report: &Report, now: u64) -> (ev: Option<
    LifecycleEvent,
>)
    requires
        old(store).wf(),
        old(store)@.next_handle < u64::MAX,
    ensures
        final(store).wf(),
        final(store)@ == report_store(old(store)@, report@, now),
        opt_event_model(ev) == report_event(old(store)@, report@, now),
{
    if !report.is_valid() {
        return Option::None;
    }
    let ghost s0 = store@;
    let o = store.upsert(report, now);
    proof {
        lemma_upsert_has_key(s0, report@, now);
    }
    match o {
        Outcome::Added | Outcome::Changed => {
            let kind = if matches!(o, Outcome::Added) {
                EventKind::Spawn
            } else {
                EventKind::Update
            };
            match store.get(&report.key) {
                Option::Some(rec) => {
                    let ev = emit_for_record(kind, rec);
                    Option::Some(ev)
                },
                Option::None => {
                    proof {
                        assert(false);
                    }
                    Option::None
                },
            }
        },
        Outcome::Unchanged => Option::None,
    }
}

/// The destroy events one sweep emits, in stored order: exactly one per
/// evicted record, carrying only the handle.
pub open spec fn destroy_events(rs: Seq<RecordModel>, now: u64, timeout: u64) -> Seq<EventModel> {
    swept_out(rs, now, timeout).map_values(|r: RecordModel| destroy_event(r.handle))
}

/// Runs the liveness sweep at tick time `now` and emits one destroy event
/// per evicted record. This is the only path by which a record can
/// disappear without an explicit removal.
pub fn sweep_expired(store: &mut TrackStore, now: u64, timeout: u64) -> (evs: Vec<LifecycleEvent>)
    requires
        old(store).wf(),
    ensures
        final(store).wf(),
        final(store)@.records == live_after_sweep(old(store)@.records, now, timeout),
        final(store)@.next_handle == old(store)@.next_handle,
        evs@.map_values(|e: LifecycleEvent| e@) == destroy_events(
            old(store)@.records,
            now,
            timeout,
        ),
{
    let ghost rs0 = store@.records;
    let evicted = store.sweep(now, timeout);
    let ghost target = destroy_events(rs0, now, timeout);
    let mut evs: Vec<LifecycleEvent> = Vec::new();
    proof {
        assert(evs@.map_values(|e: LifecycleEvent| e@) =~= target.take(0));
        assert(evicted@.map_values(|e: Eviction| e@).len() == evicted@.len());
        assert(sweep_evictions(rs0, now, timeout).len() == swept_out(rs0, now, timeout).len());
        assert(target.len() == swept_out(rs0, now, timeout).len());
    }
    let mut i: usize = 0;
    while i < evicted.len()
        invariant
            0 <= i <= evicted@.len(),
            evicted@.map_values(|e: Eviction| e@) == sweep_evictions(rs0, now, timeout),
            target == destroy_events(rs0, now, timeout),
            evicted@.len() == target.len(),
            evs@.map_values(|e: LifecycleEvent| e@) == target.take(i as int),
        decreases evicted@.len() - i,
    {
        let ev = LifecycleEvent {
            handle: evicted[i].handle,
            kind: EventKind::Destroy,
            coords: Option::None,
            props: Option::None,
        };
        let ghost pre_evs = evs@;
        evs.push(ev);
        proof {
            assert(evicted@.map_values(|e: Eviction| e@)[i as int] == evicted@[i as int]@);
            assert(evicted@[i as int]@ == sweep_evictions(rs0, now, timeout)[i as int]);
            assert(sweep_evictions(rs0, now, timeout)[i as int].handle == swept_out(
                rs0,
                now,
                timeout,
            )[i as int].handle);
            assert(target[i as int] == destroy_event(
                swept_out(rs0, now, timeout)[i as int].handle,
            ));
            assert(ev@ =~= target[i as int]);
            assert(pre_evs.map_values(|e: LifecycleEvent| e@).len() == pre_evs.len());
            assert(pre_evs.len() == i as int);
            assert forall|j: int| 0 <= j < i + 1 implies (#[trigger] evs@[j])@ == target.take(
                i + 1,
            )[j] by {
                if j < i {
                    assert(evs@[j] == pre_evs[j]);
                    assert(pre_evs.map_values(|e: LifecycleEvent| e@)[j] == pre_evs[j]@);
                    assert(pre_evs.map_values(|e: LifecycleEvent| e@)[j] == target.take(
                        i as int,
                    )[j]);
                } else {
                    assert(evs@[j] == ev);
                }
            }
            assert(evs@.map_values(|e: LifecycleEvent| e@) =~= target.take(i + 1));
        }
        i += 1;
    }
    proof {
        assert(target.take(i as int) =~= target);
    }
    evs
}

} // verus!
