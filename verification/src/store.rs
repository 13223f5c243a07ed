//! The track store: a keyed mapping from identity key to track record plus
//! an owned internal handle counter. It enforces at-most-one record per
//! key, supports upsert-with-change-detection, explicit removal, and the
//! timeout sweep that ages out objects that stopped reporting.

use vstd::prelude::*;
use crate::ids::IdentityKey;
use crate::ids::KeyModel;
use crate::record::INITIAL_LIVENESS;
use crate::record::RecordModel;
use crate::record::TrackRecord;
use crate::report::Report;
use crate::report::ReportModel;

verus! {

/// Classification of one accepted report against the stored state.
#[derive(PartialEq, Eq, Structural, Clone, Copy, Debug)]
pub enum Outcome {
    /// The key was unseen; a fresh record was created.
    Added,
    /// The key was present and at least one comparable field differed.
    Changed,
    /// The key was present and the report was field-wise identical.
    Unchanged,
}

/// Mathematical value of a `TrackStore`: the record sequence in insertion
/// order, and the next handle to assign.
#[verifier::ext_equal]
pub struct StoreModel {
    pub records: Seq<RecordModel>,
    pub next_handle: int,
}

/// Some record with key `k` is present.
pub open spec fn has_key(rs: Seq<RecordModel>, k: KeyModel) -> bool {
    exists|i: int| 0 <= i < rs.len() && rs[i].key == k
}

/// The index of the record with key `k` (unique when keys are distinct).
pub open spec fn key_index(rs: Seq<RecordModel>, k: KeyModel) -> int {
    choose|i: int| 0 <= i < rs.len() && rs[i].key == k
}

/// The record stored under key `k`.
pub open spec fn lookup(rs: Seq<RecordModel>, k: KeyModel) -> RecordModel {
    rs[key_index(rs, k)]
}

/// Some record owns handle `h`.
pub open spec fn has_handle(rs: Seq<RecordModel>, h: int) -> bool {
    exists|i: int| 0 <= i < rs.len() && rs[i].handle == h
}

/// No two records share a key: at most one live record per identity.
pub open spec fn keys_distinct(rs: Seq<RecordModel>) -> bool {
    forall|i: int, j: int|
        0 <= i < j < rs.len() ==> #[trigger] rs[i].key != #[trigger] rs[j].key
}

/// No two records share a handle.
pub open spec fn handles_distinct(rs: Seq<RecordModel>) -> bool {
    forall|i: int, j: int|
        0 <= i < j < rs.len() ==> #[trigger] rs[i].handle != #[trigger] rs[j].handle
}

/// Well-formedness of the store: keys unique, handles unique, and every
/// assigned handle below the allocation counter.
pub open spec fn wf_model(s: StoreModel) -> bool {
    &&& keys_distinct(s.records)
    &&& handles_distinct(s.records)
    &&& forall|i: int| 0 <= i < s.records.len() ==> #[trigger] s.records[i].handle < s.next_handle
}

/// How an incoming report is classified against the store: unseen key,
/// changed content, or a byte-identical re-report.
pub open spec fn upsert_outcome(s: StoreModel, rep: ReportModel) -> Outcome {
    if !has_key(s.records, rep.key) {
        Outcome::Added
    } else if same_content(lookup(s.records, rep.key), rep) {
        Outcome::Unchanged
    } else {
        Outcome::Changed
    }
}

/// Field-wise equality of the comparable fields (descriptive fields and
/// position); the timestamp and liveness flag take no part in it.
pub open spec fn same_content(rec: RecordModel, rep: ReportModel) -> bool {
    rec.fields == rep.fields && rec.position == rep.position
}

/// The record a first report for an unseen key creates: the report's
/// content, the current tick time, the fixed initial liveness flag, and a
/// fresh handle.
pub open spec fn spawned_record(s: StoreModel, rep: ReportModel, now: u64) -> RecordModel {
    RecordModel {
        key: rep.key,
        fields: rep.fields,
        position: rep.position,
        last_seen: now,
        live: INITIAL_LIVENESS,
        handle: s.next_handle,
    }
}

/// The store after one upsert: a fresh record is appended for an unseen
/// key; a differing report replaces content, refreshes `last_seen` and
/// toggles the liveness flag; an identical report only refreshes
/// `last_seen`. Nothing else moves.
pub open spec fn upsert_store(s: StoreModel, rep: ReportModel, now: u64) -> StoreModel {
    if !has_key(s.records, rep.key) {
        StoreModel {
            records: s.records.push(spawned_record(s, rep, now)),
            next_handle: s.next_handle + 1,
        }
    } else {
        let i = key_index(s.records, rep.key);
        let r0 = s.records[i];
        if same_content(r0, rep) {
            StoreModel {
                records: s.records.update(i, RecordModel { last_seen: now, ..r0 }),
                next_handle: s.next_handle,
            }
        } else {
            StoreModel {
                records: s.records.update(
                    i,
                    RecordModel {
                        key: r0.key,
                        fields: rep.fields,
                        position: rep.position,
                        last_seen: now,
                        live: !r0.live,
                        handle: r0.handle,
                    },
                ),
                next_handle: s.next_handle,
            }
        }
    }
}

/// The store after an explicit removal: the record with key `k` leaves, if
/// one is present; removing an absent key is a no-op.
pub open spec fn remove_store(s: StoreModel, k: KeyModel) -> StoreModel {
    if has_key(s.records, k) {
        StoreModel {
            records: s.records.remove(key_index(s.records, k)),
            next_handle: s.next_handle,
        }
    } else {
        s
    }
}

/// A record is stale at sweep time when its age strictly exceeds the
/// timeout window.
pub open spec fn expired(r: RecordModel, now: u64, timeout: u64) -> bool {
    now > r.last_seen + timeout
}

/// The records a sweep keeps, in their stored order.
pub open spec fn live_after_sweep(rs: Seq<RecordModel>, now: u64, timeout: u64) -> Seq<RecordModel>
    decreases rs.len(),
{
    if rs.len() == 0 {
        Seq::empty()
    } else {
        let prefix = live_after_sweep(rs.drop_last(), now, timeout);
        if expired(rs.last(), now, timeout) {
            prefix
        } else {
            prefix.push(rs.last())
        }
    }
}

/// The records a sweep evicts, in their stored order.
pub open spec fn swept_out(rs: Seq<RecordModel>, now: u64, timeout: u64) -> Seq<RecordModel>
    decreases rs.len(),
{
    if rs.len() == 0 {
        Seq::empty()
    } else {
        let prefix = swept_out(rs.drop_last(), now, timeout);
        if expired(rs.last(), now, timeout) {
            prefix.push(rs.last())
        } else {
            prefix
        }
    }
}

/// One evicted record, as the sweep reports it for downstream destroy
/// emission: the external key and the internal handle.
pub struct Eviction {
    pub key: IdentityKey,
    pub handle: u64,
}

/// Mathematical value of an `Eviction`.
#[verifier::ext_equal]
pub struct EvictionModel {
    pub key: KeyModel,
    pub handle: int,
}

impl View for Eviction {
    type V = EvictionModel;

    open spec fn view(&self) -> EvictionModel {
        EvictionModel { key: self.key@, handle: self.handle as int }
    }
}

/// The evictions a sweep of `rs` returns.
pub open spec fn sweep_evictions(rs: Seq<RecordModel>, now: u64, timeout: u64) -> Seq<
    EvictionModel,
> {
    swept_out(rs, now, timeout).map_values(
        |r: RecordModel| EvictionModel { key: r.key, handle: r.handle },
    )
}

/// In a sequence with distinct keys, any index holding key `k` is the one
/// `key_index` denotes.
pub proof fn lemma_key_index_unique(rs: Seq<RecordModel>, k: KeyModel, i: int)
    requires
        keys_distinct(rs),
        0 <= i < rs.len(),
        rs[i].key == k,
    ensures
        has_key(rs, k),
        key_index(rs, k) == i,
{
    assert(has_key(rs, k));
    let j = key_index(rs, k);
    assert(0 <= j < rs.len() && rs[j].key == k);
    if i < j {
        assert(rs[i].key != rs[j].key);
    } else if j < i {
        assert(rs[j].key != rs[i].key);
    }
}

/// An upsert preserves well-formedness and never moves the handle counter
/// backwards.
pub proof fn lemma_upsert_wf(s: StoreModel, rep: ReportModel, now: u64)
    requires
        wf_model(s),
    ensures
        wf_model(upsert_store(s, rep, now)),
        upsert_store(s, rep, now).next_handle >= s.next_handle,
        upsert_store(s, rep, now).next_handle <= s.next_handle + 1,
{
    if !has_key(s.records, rep.key) {
        lemma_push_fresh_wf(s, spawned_record(s, rep, now));
    } else {
        let i = key_index(s.records, rep.key);
        assert(0 <= i < s.records.len() && s.records[i].key == rep.key);
        let r0 = s.records[i];
        if same_content(r0, rep) {
            lemma_update_same_key_wf(s, i, RecordModel { last_seen: now, ..r0 });
        } else {
            lemma_update_same_key_wf(
                s,
                i,
                RecordModel {
                    key: r0.key,
                    fields: rep.fields,
                    position: rep.position,
                    last_seen: now,
                    live: !r0.live,
                    handle: r0.handle,
                },
            );
        }
    }
}

/// An upsert touches no other key: presence and content of every record
/// with a different key are unchanged.
pub proof fn lemma_upsert_frame(s: StoreModel, rep: ReportModel, now: u64, k: KeyModel)
    requires
        wf_model(s),
        k != rep.key,
    ensures
        has_key(upsert_store(s, rep, now).records, k) == has_key(s.records, k),
        has_key(s.records, k) ==> lookup(upsert_store(s, rep, now).records, k) == lookup(
            s.records,
            k,
        ),
{
    let s1 = upsert_store(s, rep, now);
    lemma_upsert_wf(s, rep, now);
    if !has_key(s.records, rep.key) {
        // the new record is appended at the end, all others keep their index
        if has_key(s.records, k) {
            let w = key_index(s.records, k);
            assert(0 <= w < s.records.len() && s.records[w].key == k);
            assert(s1.records[w] == s.records[w]);
            lemma_key_index_unique(s1.records, k, w);
        }
        if has_key(s1.records, k) {
            let w = key_index(s1.records, k);
            assert(0 <= w < s1.records.len() && s1.records[w].key == k);
            assert(w < s.records.len());
            assert(s.records[w].key == k);
            assert(has_key(s.records, k));
        }
    } else {
        let i = key_index(s.records, rep.key);
        assert(0 <= i < s.records.len() && s.records[i].key == rep.key);
        assert(s1.records[i].key == rep.key);
        if has_key(s.records, k) {
            let w = key_index(s.records, k);
            assert(0 <= w < s.records.len() && s.records[w].key == k);
            assert(w != i);
            assert(s1.records[w] == s.records[w]);
            lemma_key_index_unique(s1.records, k, w);
            lemma_key_index_unique(s.records, k, w);
        }
        if has_key(s1.records, k) {
            let w = key_index(s1.records, k);
            assert(0 <= w < s1.records.len() && s1.records[w].key == k);
            assert(w != i);
            assert(s.records[w].key == k);
            assert(has_key(s.records, k));
        }
    }
}

/// An upsert never removes a key: whatever was present stays present.
pub proof fn lemma_upsert_keeps_key(s: StoreModel, rep: ReportModel, now: u64, k: KeyModel)
    requires
        wf_model(s),
        has_key(s.records, k),
    ensures
        has_key(upsert_store(s, rep, now).records, k),
{
    let s1 = upsert_store(s, rep, now);
    let w = key_index(s.records, k);
    assert(0 <= w < s.records.len() && s.records[w].key == k);
    if !has_key(s.records, rep.key) {
        assert(s1.records[w] == s.records[w]);
    } else {
        let i = key_index(s.records, rep.key);
        if w == i {
            assert(s1.records[i].key == s.records[i].key);
        } else {
            assert(s1.records[w] == s.records[w]);
        }
    }
}

/// What the record under the report's key holds after an upsert: the
/// report's content and the tick time always; on a spawn the fresh handle
/// and the initial liveness flag; on a change the kept handle and the
/// toggled flag; on an identical re-report everything but `last_seen`
/// unchanged.
pub proof fn lemma_upsert_lookup(s: StoreModel, rep: ReportModel, now: u64)
    requires
        wf_model(s),
    ensures
        ({
            let s1 = upsert_store(s, rep, now);
            let r1 = lookup(s1.records, rep.key);
            &&& has_key(s1.records, rep.key)
            &&& r1.key == rep.key
            &&& r1.fields == rep.fields
            &&& r1.position == rep.position
            &&& r1.last_seen == now
            &&& (upsert_outcome(s, rep) == Outcome::Added ==> r1.handle == s.next_handle
                && r1.live == INITIAL_LIVENESS)
            &&& (upsert_outcome(s, rep) != Outcome::Added ==> r1.handle == lookup(
                s.records,
                rep.key,
            ).handle)
            &&& (upsert_outcome(s, rep) == Outcome::Changed ==> r1.live == !lookup(
                s.records,
                rep.key,
            ).live)
            &&& (upsert_outcome(s, rep) == Outcome::Unchanged ==> r1.live == lookup(
                s.records,
                rep.key,
            ).live && r1.fields == lookup(s.records, rep.key).fields && r1.position == lookup(
                s.records,
                rep.key,
            ).position)
        }),
{
    lemma_upsert_wf(s, rep, now);
    let s1 = upsert_store(s, rep, now);
    if !has_key(s.records, rep.key) {
        assert(s1.records[s.records.len() as int] == spawned_record(s, rep, now));
        lemma_key_index_unique(s1.records, rep.key, s.records.len() as int);
    } else {
        let i = key_index(s.records, rep.key);
        assert(0 <= i < s.records.len() && s.records[i].key == rep.key);
        assert(s1.records[i].key == rep.key);
        lemma_key_index_unique(s1.records, rep.key, i);
    }
}

/// Distinctness of keys and handles restricts to any prefix.
pub proof fn lemma_distinct_drop_last(rs: Seq<RecordModel>)
    requires
        rs.len() > 0,
        keys_distinct(rs),
        handles_distinct(rs),
    ensures
        keys_distinct(rs.drop_last()),
        handles_distinct(rs.drop_last()),
{
    let dl = rs.drop_last();
    assert forall|i: int, j: int| 0 <= i < j < dl.len() implies #[trigger] dl[i].key
        != #[trigger] dl[j].key by {
        assert(dl[i] == rs[i]);
        assert(dl[j] == rs[j]);
    }
    assert forall|i: int, j: int| 0 <= i < j < dl.len() implies #[trigger] dl[i].handle
        != #[trigger] dl[j].handle by {
        assert(dl[i] == rs[i]);
        assert(dl[j] == rs[j]);
    }
}

/// A sweep keeps a subsequence: every key or handle found among the kept
/// records was present before, and distinctness is preserved.
proof fn lemma_live_after_sweep_wf(rs: Seq<RecordModel>, now: u64, timeout: u64)
    requires
        keys_distinct(rs),
        handles_distinct(rs),
    ensures
        keys_distinct(live_after_sweep(rs, now, timeout)),
        handles_distinct(live_after_sweep(rs, now, timeout)),
        forall|k: KeyModel| has_key(live_after_sweep(rs, now, timeout), k) ==> has_key(rs, k),
        forall|h: int| has_handle(live_after_sweep(rs, now, timeout), h) ==> has_handle(rs, h),
    decreases rs.len(),
{
    let lv = live_after_sweep(rs, now, timeout);
    if rs.len() == 0 {
        assert forall|k: KeyModel| has_key(lv, k) implies has_key(rs, k) by {}
        assert forall|h: int| has_handle(lv, h) implies has_handle(rs, h) by {}
    } else {
        let dl = rs.drop_last();
        lemma_distinct_drop_last(rs);
        lemma_live_after_sweep_wf(dl, now, timeout);
        let lvdl = live_after_sweep(dl, now, timeout);
        assert forall|k: KeyModel| has_key(dl, k) implies has_key(rs, k) by {
            let i = choose|i: int| 0 <= i < dl.len() && dl[i].key == k;
            assert(dl[i] == rs[i]);
            assert(rs[i].key == k);
        }
        assert forall|h: int| has_handle(dl, h) implies has_handle(rs, h) by {
            let i = choose|i: int| 0 <= i < dl.len() && dl[i].handle == h;
            assert(dl[i] == rs[i]);
            assert(rs[i].handle == h);
        }
        if expired(rs.last(), now, timeout) {
            assert(lv == lvdl);
        } else {
            assert(lv == lvdl.push(rs.last()));
            // the appended record's key and handle are absent from the prefix
            assert forall|i: int, j: int| 0 <= i < j < lv.len() implies #[trigger] lv[i].key
                != #[trigger] lv[j].key by {
                if j < lvdl.len() {
                    assert(lv[i] == lvdl[i]);
                    assert(lv[j] == lvdl[j]);
                } else {
                    assert(lv[j] == rs.last());
                    assert(lv[i] == lvdl[i]);
                    if lv[i].key == rs.last().key {
                        assert(has_key(lvdl, rs.last().key));
                        assert(has_key(dl, rs.last().key));
                        let w = choose|w: int| 0 <= w < dl.len() && dl[w].key == rs.last().key;
                        assert(dl[w] == rs[w]);
                        assert(rs[w].key == rs[rs.len() - 1].key);
                        assert(false);
                    }
                }
            }
            assert forall|i: int, j: int| 0 <= i < j < lv.len() implies #[trigger] lv[i].handle
                != #[trigger] lv[j].handle by {
                if j < lvdl.len() {
                    assert(lv[i] == lvdl[i]);
                    assert(lv[j] == lvdl[j]);
                } else {
                    assert(lv[j] == rs.last());
                    assert(lv[i] == lvdl[i]);
                    if lv[i].handle == rs.last().handle {
                        assert(has_handle(lvdl, rs.last().handle));
                        assert(has_handle(dl, rs.last().handle));
                        let w = choose|w: int|
                            0 <= w < dl.len() && dl[w].handle == rs.last().handle;
                        assert(dl[w] == rs[w]);
                        assert(rs[w].handle == rs[rs.len() - 1].handle);
                        assert(false);
                    }
                }
            }
        }
        assert forall|k: KeyModel| has_key(lv, k) implies has_key(rs, k) by {
            let i = choose|i: int| 0 <= i < lv.len() && lv[i].key == k;
            if !expired(rs.last(), now, timeout) && i == lvdl.len() {
                assert(rs[rs.len() - 1].key == k);
            } else {
                assert(lv[i] == lvdl[i]);
                assert(has_key(lvdl, k));
            }
        }
        assert forall|h: int| has_handle(lv, h) implies has_handle(rs, h) by {
            let i = choose|i: int| 0 <= i < lv.len() && lv[i].handle == h;
            if !expired(rs.last(), now, timeout) && i == lvdl.len() {
                assert(rs[rs.len() - 1].handle == h);
            } else {
                assert(lv[i] == lvdl[i]);
                assert(has_handle(lvdl, h));
            }
        }
    }
}

/// Mapping from identity key to track record. At most one record exists
/// per key; each record owns a handle assigned exactly once at creation,
/// drawn from a counter that never moves backwards.
pub struct TrackStore {
    entries: Vec<TrackRecord>,
    next_handle: u64,
}

impl View for TrackStore {
    type V = StoreModel;

    closed spec fn view(&self) -> StoreModel {
        StoreModel {
            records: self.entries@.map_values(|r: TrackRecord| r@),
            next_handle: self.next_handle as int,
        }
    }
}

impl TrackStore {
    pub open spec fn wf(&self) -> bool {
        wf_model(self@)
    }

    /// An empty store; handles start at zero.
    pub fn new() -> (s: Self)
        ensures
            s.wf(),
            s@.records == Seq::<RecordModel>::empty(),
            s@.next_handle == 0,
    {
        let s = TrackStore { entries: Vec::new(), next_handle: 0 };
        proof {
            assert(s@.records =~= Seq::<RecordModel>::empty());
        }
        s
    }

    /// The handle the next spawned record will receive; every handle
    /// assigned so far lies below it.
    pub fn next_handle(&self) -> (h: u64)
        ensures
            h == self@.next_handle,
    {
        self.next_handle
    }

    /// The number of live records (one per distinct non-evicted key).
    pub fn len(&self) -> (n: usize)
        ensures
            n == self@.records.len(),
    {
        self.entries.len()
    }

    /// Position of the record with key `k`, if one is present.
    fn find_index(&self, k: &IdentityKey) -> (r: Option<usize>)
        ensures
            match r {
                Option::Some(i) => 0 <= i < self@.records.len() && self@.records[i as int].key
                    == k@,
                Option::None => !has_key(self@.records, k@),
            },
    {
        let mut i: usize = 0;
        while i < self.entries.len()
            invariant
                0 <= i <= self@.records.len(),
                self@.records.len() == self.entries@.len(),
                forall|j: int| 0 <= j < i ==> #[trigger] self@.records[j].key != k@,
            decreases self.entries@.len() - i,
        {
            if self.entries[i].key.same_key(k) {
                return Option::Some(i);
            }
            i += 1;
        }
        Option::None
    }

    /// Whether a live record exists for key `k`.
    pub fn contains_key(&self, k: &IdentityKey) -> (r: bool)
        ensures
            r == has_key(self@.records, k@),
    {
        match self.find_index(k) {
            Option::Some(i) => {
                proof {
                    assert(has_key(self@.records, k@));
                }
                true
            },
            Option::None => false,
        }
    }

    /// The record stored under key `k`, if one is present.
    pub fn get(&self, k: &IdentityKey) -> (r: Option<&TrackRecord>)
        requires
            self.wf(),
        ensures
            match r {
                Option::Some(rec) => has_key(self@.records, k@) && rec@ == lookup(
                    self@.records,
                    k@,
                ),
                Option::None => !has_key(self@.records, k@),
            },
    {
        match self.find_index(k) {
            Option::Some(i) => {
                proof {
                    lemma_key_index_unique(self@.records, k@, i as int);
                }
                Option::Some(&self.entries[i])
            },
            Option::None => Option::None,
        }
    }

    /// Atomic create-or-update for one accepted report.
    ///
    /// An unseen key gets a fresh record (fresh handle, initial liveness
    /// flag, `last_seen` stamped with the tick time) and `Added` comes
    /// back. A present key with differing comparable fields has its content
    /// replaced, `last_seen` refreshed and the liveness flag toggled:
    /// `Changed`. A field-wise identical re-report only refreshes
    /// `last_seen`: `Unchanged`. A report never removes a record.
    pub fn upsert(&mut self, report: &Report, now: u64) -> (o: Outcome)
        requires
            old(self).wf(),
            old(self)@.next_handle < u64::MAX,
        ensures
            final(self).wf(),
            final(self)@ == upsert_store(old(self)@, report@, now),
            o == upsert_outcome(old(self)@, report@),
    {
        let ghost s0 = self@;
        match self.find_index(&report.key) {
            Option::Some(i) => {
                proof {
                    lemma_key_index_unique(s0.records, report.key@, i as int);
                }
                let same = self.entries[i].fields.same_fields(&report.fields)
                    && self.entries[i].position.same_position(&report.position);
                if same {
                    let mut rec = self.entries[i].clone();
                    rec.last_seen = now;
                    let ghost recm = rec@;
                    self.entries[i] = rec;
                    proof {
                        assert(recm =~= RecordModel { last_seen: now, ..s0.records[i as int] });
                        assert(self@.records =~= upsert_store(s0, report@, now).records);
                        assert(self@ =~= upsert_store(s0, report@, now));
                        lemma_update_same_key_wf(s0, i as int, recm);
                    }
                    Outcome::Unchanged
                } else {
                    let live0 = self.entries[i].live;
                    let handle0 = self.entries[i].handle;
                    let key0 = self.entries[i].key.clone();
                    let rec = TrackRecord {
                        key: key0,
                        fields: report.fields.clone(),
                        position: report.position.clone(),
                        last_seen: now,
                        live: !live0,
                        handle: handle0,
                    };
                    let ghost recm = rec@;
                    self.entries[i] = rec;
                    proof {
                        assert(self@.records =~= upsert_store(s0, report@, now).records);
                        assert(self@ =~= upsert_store(s0, report@, now));
                        lemma_update_same_key_wf(s0, i as int, recm);
                    }
                    Outcome::Changed
                }
            },
            Option::None => {
                let rec = TrackRecord {
                    key: report.key.clone(),
                    fields: report.fields.clone(),
                    position: report.position.clone(),
                    last_seen: now,
                    live: INITIAL_LIVENESS,
                    handle: self.next_handle,
                };
                let ghost recm = rec@;
                self.entries.push(rec);
                self.next_handle = self.next_handle + 1;
                proof {
                    assert(recm =~= spawned_record(s0, report@, now));
                    assert(self@.records =~= upsert_store(s0, report@, now).records);
                    assert(self@ =~= upsert_store(s0, report@, now));
                    lemma_push_fresh_wf(s0, recm);
                }
                Outcome::Added
            },
        }
    }

    /// Explicit eviction of one key; removing an absent key is a no-op.
    pub fn remove(&mut self, k: &IdentityKey)
        requires
            old(self).wf(),
        ensures
            final(self).wf(),
            final(self)@ == remove_store(old(self)@, k@),
    {
        let ghost s0 = self@;
        match self.find_index(k) {
            Option::Some(i) => {
                proof {
                    lemma_key_index_unique(s0.records, k@, i as int);
                }
                let _evicted = self.entries.remove(i);
                proof {
                    assert(self@.records =~= s0.records.remove(i as int));
                    assert(self@ =~= remove_store(s0, k@));
                    lemma_remove_wf(s0, i as int);
                }
            },
            Option::None => {
                proof {
                    assert(self@ =~= remove_store(s0, k@));
                }
            },
        }
    }

    /// Timeout sweep: removes every record whose age strictly exceeds the
    /// timeout window and returns their keys and handles, in stored order,
    /// for downstream destroy emission. A record refreshed at the current
    /// tick time is never evicted by a sweep of the same tick. Surviving
    /// records keep their order and the handle counter does not move.
    pub fn sweep(&mut self, now: u64, timeout: u64) -> (evicted: Vec<Eviction>)
        requires
            old(self).wf(),
        ensures
            final(self).wf(),
            final(self)@.records == live_after_sweep(old(self)@.records, now, timeout),
            final(self)@.next_handle == old(self)@.next_handle,
            evicted@.map_values(|e: Eviction| e@) == sweep_evictions(
                old(self)@.records,
                now,
                timeout,
            ),
    {
        let ghost rs0 = self@.records;
        let mut evicted: Vec<Eviction> = Vec::new();
        let mut i: usize = 0;
        proof {
            assert(rs0.take(0) =~= Seq::<RecordModel>::empty());
            assert(evicted@.map_values(|e: Eviction| e@) =~= sweep_evictions(
                rs0.take(0),
                now,
                timeout,
            ));
            assert(self@.records =~= live_after_sweep(rs0.take(0), now, timeout) + rs0.skip(0));
        }
        while i < self.entries.len()
            invariant
                i + evicted@.len() <= rs0.len(),
                self@.records == live_after_sweep(
                    rs0.take(i + evicted@.len()),
                    now,
                    timeout,
                ) + rs0.skip(i + evicted@.len()),
                i == live_after_sweep(rs0.take(i + evicted@.len()), now, timeout).len(),
                evicted@.map_values(|e: Eviction| e@) == sweep_evictions(
                    rs0.take(i + evicted@.len()),
                    now,
                    timeout,
                ),
                self@.next_handle == old(self)@.next_handle,
                self@.records.len() == self.entries@.len(),
            decreases self.entries@.len() - i,
        {
            let ghost k = i + evicted@.len();
            proof {
                assert(rs0.take(k + 1).drop_last() =~= rs0.take(k));
                assert(rs0.take(k + 1).last() == rs0[k]);
                assert(self@.records[i as int] == rs0.skip(k)[0]);
                assert(rs0.skip(k)[0] == rs0[k]);
            }
            let last_seen = self.entries[i].last_seen;
            if last_seen < now && now - last_seen > timeout {
                let ghost pre = self@.records;
                let ghost ev_pre = evicted@.map_values(|e: Eviction| e@);
                let rec = self.entries.remove(i);
                proof {
                    pre.remove_ensures(i as int);
                    assert(self@.records =~= pre.remove(i as int));
                }
                evicted.push(Eviction { key: rec.key, handle: rec.handle });
                proof {
                    assert(expired(rs0[k], now, timeout));
                    let lvk = live_after_sweep(rs0.take(k), now, timeout);
                    assert(self@.records =~= lvk + rs0.skip(k + 1));
                    assert(live_after_sweep(rs0.take(k + 1), now, timeout) == lvk);
                    assert(rec@ == rs0[k]);
                    assert(swept_out(rs0.take(k + 1), now, timeout) == swept_out(
                        rs0.take(k),
                        now,
                        timeout,
                    ).push(rs0[k]));
                    assert(evicted@.map_values(|e: Eviction| e@) =~= ev_pre.push(
                        EvictionModel { key: rs0[k].key, handle: rs0[k].handle },
                    ));
                    assert(evicted@.map_values(|e: Eviction| e@) =~= sweep_evictions(
                        rs0.take(k + 1),
                        now,
                        timeout,
                    ));
                }
            } else {
                i = i + 1;
                proof {
                    assert(!expired(rs0[k], now, timeout));
                    let lvk = live_after_sweep(rs0.take(k), now, timeout);
                    assert(live_after_sweep(rs0.take(k + 1), now, timeout) == lvk.push(rs0[k]));
                    assert(self@.records =~= lvk.push(rs0[k]) + rs0.skip(k + 1));
                    assert(evicted@.map_values(|e: Eviction| e@) =~= sweep_evictions(
                        rs0.take(k + 1),
                        now,
                        timeout,
                    ));
                }
            }
        }
        proof {
            let k = i + evicted@.len();
            assert(self@.records.len() == live_after_sweep(rs0.take(k as int), now, timeout).len()
                + rs0.skip(k as int).len());
            assert(k == rs0.len());
            assert(rs0.take(k as int) =~= rs0);
            lemma_live_after_sweep_wf(rs0, now, timeout);
            let lv = live_after_sweep(rs0, now, timeout);
            assert(self@.records == lv);
            assert forall|a: int| 0 <= a < lv.len() implies #[trigger] lv[a].handle
                < self@.next_handle by {
                assert(has_handle(lv, lv[a].handle));
                assert(has_handle(rs0, lv[a].handle));
                let w = choose|w: int| 0 <= w < rs0.len() && rs0[w].handle == lv[a].handle;
                assert(rs0[w].handle < old(self)@.next_handle);
            }
        }
        evicted
    }
}

/// Replacing the record at `i` with one that keeps its key and handle
/// preserves well-formedness.
proof fn lemma_update_same_key_wf(s: StoreModel, i: int, rec: RecordModel)
    requires
        wf_model(s),
        0 <= i < s.records.len(),
        rec.key == s.records[i].key,
        rec.handle == s.records[i].handle,
    ensures
        wf_model(StoreModel { records: s.records.update(i, rec), next_handle: s.next_handle }),
{
    let rs = s.records.update(i, rec);
    assert forall|a: int, b: int| 0 <= a < b < rs.len() implies #[trigger] rs[a].key
        != #[trigger] rs[b].key by {
        assert(rs[a].key == s.records[a].key);
        assert(rs[b].key == s.records[b].key);
    }
    assert forall|a: int, b: int| 0 <= a < b < rs.len() implies #[trigger] rs[a].handle
        != #[trigger] rs[b].handle by {
        assert(rs[a].handle == s.records[a].handle);
        assert(rs[b].handle == s.records[b].handle);
    }
    assert forall|a: int| 0 <= a < rs.len() implies #[trigger] rs[a].handle < s.next_handle by {
        assert(rs[a].handle == s.records[a].handle);
    }
}

/// Appending a record with an unseen key and the next fresh handle
/// preserves well-formedness.
proof fn lemma_push_fresh_wf(s: StoreModel, rec: RecordModel)
    requires
        wf_model(s),
        !has_key(s.records, rec.key),
        rec.handle == s.next_handle,
    ensures
        wf_model(
            StoreModel { records: s.records.push(rec), next_handle: s.next_handle + 1 },
        ),
{
    let rs = s.records.push(rec);
    assert forall|a: int, b: int| 0 <= a < b < rs.len() implies #[trigger] rs[a].key
        != #[trigger] rs[b].key by {
        if b < s.records.len() {
            assert(rs[a] == s.records[a]);
            assert(rs[b] == s.records[b]);
        } else {
            assert(rs[b] == rec);
            assert(rs[a] == s.records[a]);
            if s.records[a].key == rec.key {
                assert(has_key(s.records, rec.key));
            }
        }
    }
    assert forall|a: int, b: int| 0 <= a < b < rs.len() implies #[trigger] rs[a].handle
        != #[trigger] rs[b].handle by {
        if b < s.records.len() {
            assert(rs[a] == s.records[a]);
            assert(rs[b] == s.records[b]);
        } else {
            assert(rs[b] == rec);
            assert(rs[a] == s.records[a]);
            assert(s.records[a].handle < s.next_handle);
        }
    }
    assert forall|a: int| 0 <= a < rs.len() implies #[trigger] rs[a].handle < s.next_handle
        + 1 by {
        if a < s.records.len() {
            assert(rs[a] == s.records[a]);
        } else {
            assert(rs[a] == rec);
        }
    }
}

/// Removing one record preserves well-formedness.
proof fn lemma_remove_wf(s: StoreModel, i: int)
    requires
        wf_model(s),
        0 <= i < s.records.len(),
    ensures
        wf_model(StoreModel { records: s.records.remove(i), next_handle: s.next_handle }),
{
    let rs = s.records.remove(i);
    s.records.remove_ensures(i);
    assert forall|a: int, b: int| 0 <= a < b < rs.len() implies #[trigger] rs[a].key
        != #[trigger] rs[b].key by {
        let a0 = if a < i { a } else { a + 1 };
        let b0 = if b < i { b } else { b + 1 };
        assert(rs[a] == s.records[a0]);
        assert(rs[b] == s.records[b0]);
    }
    assert forall|a: int, b: int| 0 <= a < b < rs.len() implies #[trigger] rs[a].handle
        != #[trigger] rs[b].handle by {
        let a0 = if a < i { a } else { a + 1 };
        let b0 = if b < i { b } else { b + 1 };
        assert(rs[a] == s.records[a0]);
        assert(rs[b] == s.records[b0]);
    }
    assert forall|a: int| 0 <= a < rs.len() implies #[trigger] rs[a].handle < s.next_handle by {
        let a0 = if a < i { a } else { a + 1 };
        assert(rs[a] == s.records[a0]);
    }
}

} // verus!
