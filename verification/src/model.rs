//! The mathematical model of the store: abstract entries, records, commands
//! and results; how a sequence of records acts on an index, both live and
//! during replay; and the laws the engine obeys.
use vstd::prelude::*;

verus! {

/// What the index holds for one key.
pub ghost struct Entry {
    pub value: Seq<u8>,
    pub expires_at: Option<u64>,
}

/// One log record, abstractly: a delete carries no value and no expiry.
pub ghost enum RecordModel {
    Put { key: Seq<char>, value: Seq<u8>, expires_at: Option<u64> },
    Del { key: Seq<char> },
}

/// One command, abstractly.
pub ghost enum CmdModel {
    Put { key: Seq<char>, value: Seq<u8>, ttl: Option<u64> },
    Get { key: Seq<char> },
    Delete { key: Seq<char> },
    Has { key: Seq<char> },
    Persist { key: Seq<char> },
    Touch { key: Seq<char>, ttl: u64 },
    Ttl { key: Seq<char> },
}

/// One command result, abstractly. Absence and expiry are reported inside
/// the payload; they are never errors.
pub ghost enum ResultModel {
    Get { value: Option<Entry> },
    Put,
    Delete,
    Has { has: bool },
    Persist,
    Touch,
    Ttl { remaining: Option<u64> },
}

pub type IndexModel = Map<Seq<char>, Entry>;

pub open spec fn entry_expired(e: Entry, now: u64) -> bool {
    match e.expires_at {
        Some(t) => now >= t,
        None => false,
    }
}

/// How one record acts on the index during live execution: a set always
/// upserts, a delete removes.
pub open spec fn live_step(m: IndexModel, r: RecordModel) -> IndexModel {
    match r {
        RecordModel::Put { key, value, expires_at } => m.insert(key, Entry { value, expires_at }),
        RecordModel::Del { key } => m.remove(key),
    }
}

pub open spec fn live_fold(rs: Seq<RecordModel>, m: IndexModel) -> IndexModel
    decreases rs.len(),
{
    if rs.len() == 0 {
        m
    } else {
        live_step(live_fold(rs.drop_last(), m), rs.last())
    }
}

/// How one record acts on the index during replay at time `now`: a set whose
/// expiry has already passed erases the key instead of reviving stale state.
pub open spec fn replay_step(m: IndexModel, r: RecordModel, now: u64) -> IndexModel {
    match r {
        RecordModel::Put { key, value, expires_at } => {
            let e = Entry { value, expires_at };
            if entry_expired(e, now) {
                m.remove(key)
            } else {
                m.insert(key, e)
            }
        },
        RecordModel::Del { key } => m.remove(key),
    }
}

pub open spec fn replay_fold(rs: Seq<RecordModel>, now: u64, m: IndexModel) -> IndexModel
    decreases rs.len(),
{
    if rs.len() == 0 {
        m
    } else {
        replay_step(replay_fold(rs.drop_last(), now, m), rs.last(), now)
    }
}

/// The index without the entries whose expiry has passed at `now`.
pub open spec fn filter_expired(m: IndexModel, now: u64) -> IndexModel {
    Map::new(
        |k: Seq<char>| m.dom().contains(k) && !entry_expired(m[k], now),
        |k: Seq<char>| m[k],
    )
}

/// What a read observes at `now`: the entry, unless absent or expired.
pub open spec fn lookup_live(m: IndexModel, key: Seq<char>, now: u64) -> Option<Entry> {
    if m.dom().contains(key) && !entry_expired(m[key], now) {
        Some(m[key])
    } else {
        None
    }
}

pub open spec fn set_expiry(ttl: Option<u64>, now: u64) -> Option<u64> {
    match ttl {
        Some(t) => Some((now + t) as u64),
        None => None,
    }
}

/// The deferred delete of lazy expiry: reading a key whose TTL has passed
/// appends one delete record; any other read appends nothing.
pub open spec fn lazy_del_records(m: IndexModel, key: Seq<char>, now: u64) -> Seq<RecordModel> {
    if m.dom().contains(key) && entry_expired(m[key], now) {
        seq![RecordModel::Del { key }]
    } else {
        Seq::empty()
    }
}

/// The records the engine appends to the log for one command at time `now`,
/// given the index `m`. The log is written before the index is touched, so
/// this also determines the next index: see `step_map`.
pub open spec fn step_records(m: IndexModel, c: CmdModel, now: u64) -> Seq<RecordModel> {
    match c {
        CmdModel::Put { key, value, ttl } => seq![
            RecordModel::Put { key, value, expires_at: set_expiry(ttl, now) },
        ],
        CmdModel::Get { key } => lazy_del_records(m, key, now),
        CmdModel::Delete { key } => {
            if m.dom().contains(key) {
                seq![RecordModel::Del { key }]
            } else {
                Seq::empty()
            }
        },
        CmdModel::Has { key } => lazy_del_records(m, key, now),
        CmdModel::Persist { key } => match lookup_live(m, key, now) {
            Some(e) => seq![RecordModel::Put { key, value: e.value, expires_at: None }],
            None => lazy_del_records(m, key, now),
        },
        CmdModel::Touch { key, ttl } => match lookup_live(m, key, now) {
            Some(e) => seq![
                RecordModel::Put { key, value: e.value, expires_at: Some((now + ttl) as u64) },
            ],
            None => lazy_del_records(m, key, now),
        },
        CmdModel::Ttl { key } => lazy_del_records(m, key, now),
    }
}

/// The index after one command: exactly the live application of the records
/// the command appended. This shape is what keeps index and log in lock-step.
pub open spec fn step_map(m: IndexModel, c: CmdModel, now: u64) -> IndexModel {
    live_fold(step_records(m, c, now), m)
}

/// The result one command returns.
pub open spec fn step_result(m: IndexModel, c: CmdModel, now: u64) -> ResultModel {
    match c {
        CmdModel::Put { .. } => ResultModel::Put,
        CmdModel::Get { key } => ResultModel::Get { value: lookup_live(m, key, now) },
        CmdModel::Delete { .. } => ResultModel::Delete,
        CmdModel::Has { key } => ResultModel::Has { has: lookup_live(m, key, now) is Some },
        CmdModel::Persist { .. } => ResultModel::Persist,
        CmdModel::Touch { .. } => ResultModel::Touch,
        CmdModel::Ttl { key } => ResultModel::Ttl {
            remaining: match lookup_live(m, key, now) {
                Some(e) => match e.expires_at {
                    Some(t) => Some((t - now) as u64),
                    None => None,
                },
                None => None,
            },
        },
    }
}

/// Applying two batches of records one after the other is applying their
/// concatenation: this stitches the per-command folds of successive commits
/// into one fold over the whole log.
pub proof fn lemma_live_fold_concat(rs1: Seq<RecordModel>, rs2: Seq<RecordModel>, m: IndexModel)
    ensures
        live_fold(rs1 + rs2, m) == live_fold(rs2, live_fold(rs1, m)),
    decreases rs2.len(),
{
    if rs2.len() == 0 {
        assert(rs1 + rs2 =~= rs1);
    } else {
        assert((rs1 + rs2).drop_last() =~= rs1 + rs2.drop_last());
        assert((rs1 + rs2).last() == rs2.last());
        lemma_live_fold_concat(rs1, rs2.drop_last(), m);
    }
}

proof fn lemma_fold_singleton(r: RecordModel, m: IndexModel)
    ensures
        live_fold(seq![r], m) == live_step(m, r),
{
    assert(seq![r].drop_last() =~= Seq::<RecordModel>::empty());
    assert(live_fold(Seq::<RecordModel>::empty(), m) == m);
    assert(seq![r].last() == r);
}

/// Round trip: setting a key with no TTL and then getting it, at any later
/// moment, returns exactly that value, with no expiry.
pub proof fn lemma_round_trip(
    m: IndexModel,
    key: Seq<char>,
    value: Seq<u8>,
    now1: u64,
    now2: u64,
)
    ensures
        ({
            let m1 = step_map(m, CmdModel::Put { key, value, ttl: None }, now1);
            step_result(m1, CmdModel::Get { key }, now2) == (ResultModel::Get {
                value: Some(Entry { value, expires_at: None }),
            })
        }),
{
    let r = RecordModel::Put { key, value, expires_at: None };
    lemma_fold_singleton(r, m);
}

/// Lazy TTL: a key set with a TTL reads back before the deadline; at or past
/// the deadline a Get reports not-found and appends the deferred delete, the
/// key is absent from the index thereafter, and a later Has reports false.
pub proof fn lemma_lazy_ttl(
    m: IndexModel,
    key: Seq<char>,
    value: Seq<u8>,
    ttl: u64,
    now1: u64,
    now2: u64,
    now3: u64,
)
    requires
        now1 + ttl <= u64::MAX,
    ensures
        ({
            let m1 = step_map(m, CmdModel::Put { key, value, ttl: Some(ttl) }, now1);
            let m2 = step_map(m1, CmdModel::Get { key }, now2);
            &&& now2 < now1 + ttl ==> step_result(m1, CmdModel::Get { key }, now2)
                == (ResultModel::Get {
                value: Some(Entry { value, expires_at: Some((now1 + ttl) as u64) }),
            })
            &&& now2 >= now1 + ttl ==> {
                &&& step_result(m1, CmdModel::Get { key }, now2) == (ResultModel::Get {
                    value: None,
                })
                &&& step_records(m1, CmdModel::Get { key }, now2) == seq![
                    RecordModel::Del { key },
                ]
                &&& !m2.dom().contains(key)
                &&& step_result(m2, CmdModel::Has { key }, now3) == (ResultModel::Has {
                    has: false,
                })
            }
        }),
{
    let exp = (now1 + ttl) as u64;
    let r = RecordModel::Put { key, value, expires_at: Some(exp) };
    lemma_fold_singleton(r, m);
    let m1 = step_map(m, CmdModel::Put { key, value, ttl: Some(ttl) }, now1);
    if now2 >= now1 + ttl {
        lemma_fold_singleton(RecordModel::Del { key }, m1);
    } else {
        assert(step_records(m1, CmdModel::Get { key }, now2) =~= Seq::<RecordModel>::empty());
    }
}

/// Persist removes expiry: after a Set with a TTL and a Persist before the
/// deadline, a Get at any later moment still returns the value, with no
/// expiry; the Persist appended one set record with the expiry cleared.
pub proof fn lemma_persist_removes_expiry(
    m: IndexModel,
    key: Seq<char>,
    value: Seq<u8>,
    ttl: u64,
    now1: u64,
    now2: u64,
    now3: u64,
)
    requires
        now1 + ttl <= u64::MAX,
        now2 < now1 + ttl,
    ensures
        ({
            let m1 = step_map(m, CmdModel::Put { key, value, ttl: Some(ttl) }, now1);
            let m2 = step_map(m1, CmdModel::Persist { key }, now2);
            &&& step_records(m1, CmdModel::Persist { key }, now2) == seq![
                RecordModel::Put { key, value, expires_at: None },
            ]
            &&& step_result(m2, CmdModel::Get { key }, now3) == (ResultModel::Get {
                value: Some(Entry { value, expires_at: None }),
            })
        }),
{
    let exp = (now1 + ttl) as u64;
    lemma_fold_singleton(RecordModel::Put { key, value, expires_at: Some(exp) }, m);
    let m1 = step_map(m, CmdModel::Put { key, value, ttl: Some(ttl) }, now1);
    lemma_fold_singleton(RecordModel::Put { key, value, expires_at: None }, m1);
}

/// Touch updates expiry without changing the value: the record it appends
/// carries the unchanged value with the fresh deadline, and at or past that
/// deadline a Get reports not-found.
pub proof fn lemma_touch_updates_expiry(
    m: IndexModel,
    key: Seq<char>,
    value: Seq<u8>,
    ttl1: u64,
    ttl2: u64,
    now1: u64,
    now2: u64,
    now3: u64,
)
    requires
        now1 + ttl1 <= u64::MAX,
        now2 + ttl2 <= u64::MAX,
        now2 < now1 + ttl1,
    ensures
        ({
            let m1 = step_map(m, CmdModel::Put { key, value, ttl: Some(ttl1) }, now1);
            let m2 = step_map(m1, CmdModel::Touch { key, ttl: ttl2 }, now2);
            &&& step_records(m1, CmdModel::Touch { key, ttl: ttl2 }, now2) == seq![
                RecordModel::Put { key, value, expires_at: Some((now2 + ttl2) as u64) },
            ]
            &&& now3 >= now2 + ttl2 ==> step_result(m2, CmdModel::Get { key }, now3)
                == (ResultModel::Get { value: None })
        }),
{
    let exp1 = (now1 + ttl1) as u64;
    let exp2 = (now2 + ttl2) as u64;
    lemma_fold_singleton(RecordModel::Put { key, value, expires_at: Some(exp1) }, m);
    let m1 = step_map(m, CmdModel::Put { key, value, ttl: Some(ttl1) }, now1);
    lemma_fold_singleton(RecordModel::Put { key, value, expires_at: Some(exp2) }, m1);
}

/// Deleting an absent key is a no-op: it appends no record, leaves the index
/// unchanged, and still succeeds.
pub proof fn lemma_idempotent_delete(m: IndexModel, key: Seq<char>, now: u64)
    requires
        !m.dom().contains(key),
    ensures
        step_records(m, CmdModel::Delete { key }, now) == Seq::<RecordModel>::empty(),
        step_map(m, CmdModel::Delete { key }, now) == m,
        step_result(m, CmdModel::Delete { key }, now) == ResultModel::Delete,
{
}

proof fn lemma_replay_step_commutes(m: IndexModel, r: RecordModel, now: u64)
    ensures
        replay_step(filter_expired(m, now), r, now) == filter_expired(live_step(m, r), now),
{
    match r {
        RecordModel::Put { key, value, expires_at } => {
            let e = Entry { value, expires_at };
            if entry_expired(e, now) {
                assert(filter_expired(m, now).remove(key) =~= filter_expired(
                    m.insert(key, e),
                    now,
                ));
            } else {
                assert(filter_expired(m, now).insert(key, e) =~= filter_expired(
                    m.insert(key, e),
                    now,
                ));
            }
        },
        RecordModel::Del { key } => {
            assert(filter_expired(m, now).remove(key) =~= filter_expired(m.remove(key), now));
        },
    }
}

proof fn lemma_replay_fold_filter(rs: Seq<RecordModel>, now: u64, m: IndexModel)
    ensures
        replay_fold(rs, now, filter_expired(m, now)) == filter_expired(live_fold(rs, m), now),
    decreases rs.len(),
{
    if rs.len() > 0 {
        lemma_replay_fold_filter(rs.drop_last(), now, m);
        lemma_replay_step_commutes(live_fold(rs.drop_last(), m), rs.last(), now);
    }
}

/// Replay equivalence: rebuilding an index by replaying, at time `now`, the
/// records that live execution appended yields exactly the live index less
/// the entries whose TTL has passed by `now`.
pub proof fn lemma_replay_equivalence(rs: Seq<RecordModel>, now: u64)
    ensures
        replay_fold(rs, now, Map::empty()) == filter_expired(live_fold(rs, Map::empty()), now),
{
    assert(filter_expired(Map::empty(), now) =~= Map::<Seq<char>, Entry>::empty());
    lemma_replay_fold_filter(rs, now, Map::empty());
}

} // verus!
