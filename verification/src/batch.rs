//! Per-tick batch reconciliation. A tick drains one batch of decoded
//! reports: reports are applied in arrival order, but the emitter observes
//! only the net result — at most one event per key per tick, reflecting the
//! cumulative diff of that key's record against the pre-tick store.

use vstd::prelude::*;
use crate::driver::report_store;
use crate::events::EventKind;
use crate::events::EventModel;
use crate::events::LifecycleEvent;
use crate::events::emit_for_record;
use crate::events::spawn_event;
use crate::events::update_event;
use crate::ids::IdentityKey;
use crate::ids::KeyModel;
use crate::report::Descriptor;
use crate::report::Position;
use crate::report::Report;
use crate::report::ReportModel;
use crate::report::valid_report;
use crate::store::StoreModel;
use crate::store::TrackStore;
use crate::store::has_key;
use crate::store::lemma_upsert_frame;
use crate::store::lemma_upsert_keeps_key;
use crate::store::lemma_upsert_wf;
use crate::store::lookup;
use crate::store::upsert_store;
use crate::store::wf_model;
use crate::driver::lemma_upsert_has_key;

verus! {

/// The views of a batch of reports, in arrival order.
pub open spec fn reports_model(rs: Seq<Report>) -> Seq<ReportModel> {
    rs.map_values(|r: Report| r@)
}

/// The store after a whole batch: each report upserted in arrival order,
/// invalid reports skipped.
pub open spec fn apply_reports(s: StoreModel, rs: Seq<ReportModel>, now: u64) -> StoreModel
    decreases rs.len(),
{
    if rs.len() == 0 {
        s
    } else {
        report_store(apply_reports(s, rs.drop_last(), now), rs.last(), now)
    }
}

/// The distinct keys of a batch's valid reports, in order of first
/// occurrence.
pub open spec fn batch_keys(rs: Seq<ReportModel>) -> Seq<KeyModel>
    decreases rs.len(),
{
    if rs.len() == 0 {
        Seq::empty()
    } else {
        let prefix = batch_keys(rs.drop_last());
        if valid_report(rs.last()) && !prefix.contains(rs.last().key) {
            prefix.push(rs.last().key)
        } else {
            prefix
        }
    }
}

/// The event one key earns for a tick: spawn if it entered the store this
/// tick, update if its comparable content differs from the pre-tick state,
/// nothing if the tick left it byte-identical.
pub open spec fn key_event(pre: StoreModel, post: StoreModel, k: KeyModel) -> Seq<EventModel> {
    if !has_key(post.records, k) {
        Seq::empty()
    } else {
        let r1 = lookup(post.records, k);
        if !has_key(pre.records, k) {
            seq![spawn_event(r1)]
        } else {
            let r0 = lookup(pre.records, k);
            if r0.fields == r1.fields && r0.position == r1.position {
                Seq::empty()
            } else {
                seq![update_event(r1)]
            }
        }
    }
}

/// The events one tick emits: for each key of the batch, in first
/// occurrence order, the event the key earned.
pub open spec fn batch_events(pre: StoreModel, post: StoreModel, keys: Seq<KeyModel>) -> Seq<
    EventModel,
>
    decreases keys.len(),
{
    if keys.len() == 0 {
        Seq::empty()
    } else {
        batch_events(pre, post, keys.drop_last()) + key_event(pre, post, keys.last())
    }
}

/// A batch's key list only grows with the batch.
proof fn lemma_batch_keys_prefix(rs: Seq<ReportModel>, k: KeyModel)
    requires
        rs.len() > 0,
        batch_keys(rs.drop_last()).contains(k),
    ensures
        batch_keys(rs).contains(k),
{
    let prefix = batch_keys(rs.drop_last());
    if valid_report(rs.last()) && !prefix.contains(rs.last().key) {
        let w = choose|w: int| 0 <= w < prefix.len() && prefix[w] == k;
        assert(batch_keys(rs)[w] == k);
    }
}

/// A valid report's key is in its batch's key list.
proof fn lemma_batch_keys_last(rs: Seq<ReportModel>)
    requires
        rs.len() > 0,
        valid_report(rs.last()),
    ensures
        batch_keys(rs).contains(rs.last().key),
{
    let prefix = batch_keys(rs.drop_last());
    if prefix.contains(rs.last().key) {
        let w = choose|w: int| 0 <= w < prefix.len() && prefix[w] == rs.last().key;
        assert(batch_keys(rs)[w] == rs.last().key);
    } else {
        assert(batch_keys(rs)[prefix.len() as int] == rs.last().key);
    }
}

/// Applying a batch preserves well-formedness and moves the handle counter
/// up by at most one per report.
pub proof fn lemma_apply_reports_wf(s: StoreModel, rs: Seq<ReportModel>, now: u64)
    requires
        wf_model(s),
    ensures
        wf_model(apply_reports(s, rs, now)),
        apply_reports(s, rs, now).next_handle >= s.next_handle,
        apply_reports(s, rs, now).next_handle <= s.next_handle + rs.len(),
    decreases rs.len(),
{
    if rs.len() > 0 {
        lemma_apply_reports_wf(s, rs.drop_last(), now);
        if valid_report(rs.last()) {
            lemma_upsert_wf(apply_reports(s, rs.drop_last(), now), rs.last(), now);
        }
    }
}

/// A batch touches no key outside its key list: presence and content of
/// every other record are unchanged.
pub proof fn lemma_apply_reports_frame(s: StoreModel, rs: Seq<ReportModel>, now: u64, k: KeyModel)
    requires
        wf_model(s),
        !batch_keys(rs).contains(k),
    ensures
        has_key(apply_reports(s, rs, now).records, k) == has_key(s.records, k),
        has_key(s.records, k) ==> lookup(apply_reports(s, rs, now).records, k) == lookup(
            s.records,
            k,
        ),
    decreases rs.len(),
{
    if rs.len() > 0 {
        let dl = rs.drop_last();
        if batch_keys(dl).contains(k) {
            lemma_batch_keys_prefix(rs, k);
            assert(false);
        }
        lemma_apply_reports_frame(s, dl, now, k);
        lemma_apply_reports_wf(s, dl, now);
        let s1 = apply_reports(s, dl, now);
        if valid_report(rs.last()) {
            if rs.last().key == k {
                lemma_batch_keys_last(rs);
                assert(false);
            }
            lemma_upsert_frame(s1, rs.last(), now, k);
        }
    }
}

/// Every key of the batch is present after the batch is applied: reports
/// create or refresh records, never remove them.
pub proof fn lemma_apply_reports_covers(s: StoreModel, rs: Seq<ReportModel>, now: u64, k: KeyModel)
    requires
        wf_model(s),
        batch_keys(rs).contains(k),
    ensures
        has_key(apply_reports(s, rs, now).records, k),
    decreases rs.len(),
{
    let dl = rs.drop_last();
    let s1 = apply_reports(s, dl, now);
    lemma_apply_reports_wf(s, dl, now);
    if batch_keys(dl).contains(k) {
        lemma_apply_reports_covers(s, dl, now, k);
        if valid_report(rs.last()) {
            lemma_upsert_keeps_key(s1, rs.last(), now, k);
        }
    } else {
        // the key can only have entered with the last report
        assert(valid_report(rs.last()) && rs.last().key == k) by {
            let w = choose|w: int|
                0 <= w < batch_keys(rs).len() && batch_keys(rs)[w] == k;
            if !(valid_report(rs.last()) && !batch_keys(dl).contains(rs.last().key)) {
                assert(batch_keys(rs) == batch_keys(dl));
                assert(batch_keys(dl)[w] == k);
            } else {
                if w < batch_keys(dl).len() {
                    assert(batch_keys(dl)[w] == k);
                } else {
                    assert(batch_keys(rs)[w] == rs.last().key);
                }
            }
        }
        lemma_upsert_has_key(s1, rs.last(), now);
    }
}

/// What phase one of a tick remembers about one key of the batch: the key
/// itself and the record content it had before the tick, if any.
struct PreEntry {
    key: IdentityKey,
    prior: Option<PriorContent>,
}

/// Pre-tick comparable content of one record.
struct PriorContent {
    fields: Descriptor,
    position: Position,
}

/// The keys a phase-one pass has collected, in first occurrence order.
spec fn seen_keys(s: Seq<PreEntry>) -> Seq<KeyModel> {
    s.map_values(|e: PreEntry| e.key@)
}

/// The remembered pre-tick content agrees with the pre-tick store.
spec fn prior_consistent(e: PreEntry, pre: StoreModel) -> bool {
    match e.prior {
        Option::Some(pc) => has_key(pre.records, e.key@) && pc.fields@ == lookup(
            pre.records,
            e.key@,
        ).fields && pc.position@ == lookup(pre.records, e.key@).position,
        Option::None => !has_key(pre.records, e.key@),
    }
}

/// Whether the key was already collected this tick.
fn seen_contains(seen: &Vec<PreEntry>, k: &IdentityKey) -> (r: bool)
    ensures
        r == seen_keys(seen@).contains(k@),
{
    let mut j: usize = 0;
    while j < seen.len()
        invariant
            0 <= j <= seen@.len(),
            forall|m: int| 0 <= m < j ==> (#[trigger] seen@[m]).key@ != k@,
        decreases seen@.len() - j,
    {
        if seen[j].key.same_key(k) {
            proof {
                assert(seen_keys(seen@)[j as int] == k@);
            }
            return true;
        }
        j += 1;
    }
    proof {
        if seen_keys(seen@).contains(k@) {
            let m = choose|m: int|
                0 <= m < seen_keys(seen@).len() && seen_keys(seen@)[m] == k@;
            assert(seen@[m].key@ != k@);
            assert(seen_keys(seen@)[m] == seen@[m].key@);
        }
    }
    false
}

/// Drains one tick's batch of decoded reports. Reports are applied in
/// arrival order (later reports for a key win); invalid reports are
/// skipped and the pass continues. The emitter observes only the net
/// result: at most one event per key, against the pre-tick store — a key
/// that entered this tick spawns with its final content, a key whose final
/// content differs from its pre-tick content updates, and a key the tick
/// left byte-identical (including one changed and changed back) emits
/// nothing. Events come out in first occurrence order of the keys.
pub fn process_batch(store: &mut TrackStore, reports: &Vec<Report>, now: u64) -> (evs: Vec<
    LifecycleEvent,
>)
    requires
        old(store).wf(),
        old(store)@.next_handle + reports@.len() <= u64::MAX,
    ensures
        final(store).wf(),
        final(store)@ == apply_reports(old(store)@, reports_model(reports@), now),
        evs@.map_values(|e: LifecycleEvent| e@) == batch_events(
            old(store)@,
            final(store)@,
            batch_keys(reports_model(reports@)),
        ),
{
    let ghost pre = store@;
    let ghost repsm = reports_model(reports@);
    let mut seen: Vec<PreEntry> = Vec::new();
    let mut i: usize = 0;
    proof {
        assert(repsm.take(0) =~= Seq::<ReportModel>::empty());
        assert(seen_keys(seen@) =~= batch_keys(repsm.take(0)));
    }
    while i < reports.len()
        invariant
            0 <= i <= reports@.len(),
            repsm == reports_model(reports@),
            repsm.len() == reports@.len(),
            wf_model(pre),
            pre.next_handle + repsm.len() <= u64::MAX,
            store.wf(),
            store@ == apply_reports(pre, repsm.take(i as int), now),
            store@.next_handle <= pre.next_handle + i,
            seen_keys(seen@) == batch_keys(repsm.take(i as int)),
            forall|m: int| 0 <= m < seen@.len() ==> prior_consistent(#[trigger] seen@[m], pre),
        decreases reports@.len() - i,
    {
        let r = &reports[i];
        proof {
            assert(repsm[i as int] == r@);
            assert(repsm.take(i + 1).drop_last() =~= repsm.take(i as int));
            assert(repsm.take(i + 1).last() == repsm[i as int]);
        }
        if r.is_valid() {
            if !seen_contains(&seen, &r.key) {
                proof {
                    lemma_apply_reports_frame(pre, repsm.take(i as int), now, r.key@);
                }
                let prior = match store.get(&r.key) {
                    Option::Some(rec) => Option::Some(
                        PriorContent {
                            fields: rec.fields.clone(),
                            position: rec.position.clone(),
                        },
                    ),
                    Option::None => Option::None,
                };
                let ghost seen_pre = seen@;
                seen.push(PreEntry { key: r.key.clone(), prior });
                proof {
                    assert(seen_keys(seen@) =~= seen_keys(seen_pre).push(r.key@));
                    assert(prior_consistent(seen@[seen_pre.len() as int], pre));
                    assert forall|m: int| 0 <= m < seen@.len() implies prior_consistent(
                        #[trigger] seen@[m],
                        pre,
                    ) by {
                        if m < seen_pre.len() {
                            assert(seen@[m] == seen_pre[m]);
                        }
                    }
                }
            }
            store.upsert(r, now);
        }
        proof {
            assert(store@ == apply_reports(pre, repsm.take(i + 1), now));
            assert(seen_keys(seen@) == batch_keys(repsm.take(i + 1)));
        }
        i += 1;
    }
    proof {
        assert(repsm.take(i as int) =~= repsm);
    }
    let ghost post = store@;
    let ghost keys = batch_keys(repsm);
    let mut evs: Vec<LifecycleEvent> = Vec::new();
    proof {
        assert(seen_keys(seen@) == keys);
        assert(seen_keys(seen@).len() == seen@.len());
        assert(evs@.map_values(|e: LifecycleEvent| e@) =~= batch_events(pre, post, keys.take(0)));
    }
    let mut j: usize = 0;
    while j < seen.len()
        invariant
            0 <= j <= seen@.len(),
            store@ == post,
            store.wf(),
            wf_model(pre),
            repsm == reports_model(reports@),
            post == apply_reports(pre, repsm, now),
            keys == batch_keys(repsm),
            keys == seen_keys(seen@),
            keys.len() == seen@.len(),
            forall|m: int| 0 <= m < seen@.len() ==> prior_consistent(#[trigger] seen@[m], pre),
            evs@.map_values(|e: LifecycleEvent| e@) == batch_events(
                pre,
                post,
                keys.take(j as int),
            ),
        decreases seen@.len() - j,
    {
        let entry = &seen[j];
        proof {
            assert(keys[j as int] == seen@[j as int].key@);
            assert(keys.contains(keys[j as int]));
            lemma_apply_reports_covers(pre, repsm, now, keys[j as int]);
            assert(keys.take(j + 1).drop_last() =~= keys.take(j as int));
            assert(keys.take(j + 1).last() == keys[j as int]);
        }
        let ghost target_j = batch_events(pre, post, keys.take(j as int));
        let ghost kev = key_event(pre, post, keys[j as int]);
        let ghost pre_evs = evs@;
        proof {
            assert(pre_evs.map_values(|e: LifecycleEvent| e@).len() == pre_evs.len());
            assert(batch_events(pre, post, keys.take(j + 1)) == target_j + kev);
        }
        match store.get(&entry.key) {
            Option::Some(rec) => {
                let ghost r1 = lookup(post.records, entry.key@);
                match &entry.prior {
                    Option::Some(pc) => {
                        let same = pc.fields.same_fields(&rec.fields) && pc.position.same_position(
                            &rec.position,
                        );
                        if same {
                            proof {
                                assert(kev =~= Seq::<EventModel>::empty());
                                assert(evs@.map_values(|e: LifecycleEvent| e@) =~= target_j + kev);
                            }
                        } else {
                            let ev = emit_for_record(EventKind::Update, rec);
                            evs.push(ev);
                            proof {
                                assert(ev@ == update_event(r1));
                                assert(kev =~= seq![ev@]);
                                lemma_map_view_push(pre_evs, evs@, ev, target_j, kev);
                            }
                        }
                    },
                    Option::None => {
                        let ev = emit_for_record(EventKind::Spawn, rec);
                        evs.push(ev);
                        proof {
                            assert(ev@ == spawn_event(r1));
                            assert(kev =~= seq![ev@]);
                            lemma_map_view_push(pre_evs, evs@, ev, target_j, kev);
                        }
                    },
                }
                proof {
                    assert(evs@.map_values(|e: LifecycleEvent| e@) == batch_events(
                        pre,
                        post,
                        keys.take(j + 1),
                    ));
                }
            },
            Option::None => {
                proof {
                    assert(false);
                }
            },
        }
        j += 1;
    }
    proof {
        assert(keys.take(j as int) =~= keys);
    }
    evs
}

/// Appending one event extends the viewed event list by its view.
proof fn lemma_map_view_push(
    pre_evs: Seq<LifecycleEvent>,
    evs: Seq<LifecycleEvent>,
    ev: LifecycleEvent,
    target: Seq<EventModel>,
    kev: Seq<EventModel>,
)
    requires
        evs == pre_evs.push(ev),
        pre_evs.map_values(|e: LifecycleEvent| e@) == target,
        kev == seq![ev@],
    ensures
        evs.map_values(|e: LifecycleEvent| e@) == target + kev,
{
    assert(pre_evs.map_values(|e: LifecycleEvent| e@).len() == pre_evs.len());
    assert forall|m: int| 0 <= m < evs.len() implies (#[trigger] evs[m])@ == (target + kev)[m] by {
        if m < pre_evs.len() {
            assert(evs[m] == pre_evs[m]);
            assert(pre_evs.map_values(|e: LifecycleEvent| e@)[m] == pre_evs[m]@);
        } else {
            assert(evs[m] == ev);
        }
    }
    assert(evs.map_values(|e: LifecycleEvent| e@) =~= target + kev);
}

} // verus!
