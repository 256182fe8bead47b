//! The engine: records, command application with lazy TTL expiration,
//! replay, and compaction.
//!
//! Every mutating command is applied in two phases, because the log must be
//! durable before the index changes: [`KV::build`] plans a [`Step`] holding
//! the records to append and the result to report, the host appends the
//! step's lines to the log and flushes them, and only on success does
//! [`Step::commit`] fold those same records into the index. If the append
//! fails, the index is untouched and the command reports a storage error.
use vstd::prelude::*;
use crate::codec::{
    chars_to_string, enc_record, expect_lit, parse_bytes, parse_num, parse_string, push_bytes,
    push_escaped, push_lit, spec_decode, str_to_chars,
};
use crate::digits::push_dec_digits;
use crate::index::Index;
use crate::model::{
    filter_expired, live_fold, lookup_live, replay_fold, replay_step, step_records, step_result,
    Entry, IndexModel, RecordModel, ResultModel,
};
use crate::command::Command;
use crate::time::{has_passed, time_remaining};

verus! {

/// The operation a log record carries.
#[derive(Debug, Clone, Copy, PartialEq, Eq, Structural)]
pub enum Op {
    Put,
    Del,
}

/// One log record: a put carries the value and any expiry; a delete carries
/// neither.
#[derive(Debug)]
pub struct KV {
    op: Op,
    key: String,
    value: Option<Vec<u8>>,
    expires_at: Option<u64>,
}

/// What the index holds for one key: the value and the moment it expires,
/// if any.
#[derive(Debug)]
pub struct KVValue {
    value: Vec<u8>,
    expires_at: Option<u64>,
}

/// What one command reports. Absence and expiry are ordinary outcomes, never
/// errors.
#[derive(Debug)]
pub enum KVResult {
    Get { value: Option<KVValue> },
    Put,
    Delete,
    Has { has: bool },
    Persist,
    Touch,
    Ttl { remaining: Option<u64> },
}

impl View for KVValue {
    type V = Entry;

    closed spec fn view(&self) -> Entry {
        Entry { value: self.value@, expires_at: self.expires_at }
    }
}

impl Clone for KVValue {
    fn clone(&self) -> (r: Self)
        ensures
            r@ == self@,
    {
        let r = KVValue { value: self.value.clone(), expires_at: self.expires_at };
        proof {
            assert(r.value@ =~= self.value@);
        }
        r
    }
}

impl KVValue {
    pub fn new(value: Vec<u8>, expires_at: Option<u64>) -> (r: KVValue)
        ensures
            r@ == (Entry { value: value@, expires_at }),
    {
        KVValue { value, expires_at }
    }

    pub fn value(&self) -> (r: &Vec<u8>)
        ensures
            r@ == self@.value,
    {
        &self.value
    }

    pub fn expires_at(&self) -> (r: Option<u64>)
        ensures
            r == self@.expires_at,
    {
        self.expires_at
    }
}

impl View for KV {
    type V = RecordModel;

    closed spec fn view(&self) -> RecordModel {
        match self.op {
            Op::Put => RecordModel::Put {
                key: self.key@,
                value: match self.value {
                    Some(v) => v@,
                    None => Seq::empty(),
                },
                expires_at: self.expires_at,
            },
            Op::Del => RecordModel::Del { key: self.key@ },
        }
    }
}

impl View for KVResult {
    type V = ResultModel;

    closed spec fn view(&self) -> ResultModel {
        match self {
            KVResult::Get { value } => ResultModel::Get {
                value: match value {
                    Some(v) => Some(v@),
                    None => None,
                },
            },
            KVResult::Put => ResultModel::Put,
            KVResult::Delete => ResultModel::Delete,
            KVResult::Has { has } => ResultModel::Has { has: *has },
            KVResult::Persist => ResultModel::Persist,
            KVResult::Touch => ResultModel::Touch,
            KVResult::Ttl { remaining } => ResultModel::Ttl { remaining: *remaining },
        }
    }
}

/// The records of a sequence, abstractly.
pub open spec fn recs_model(s: Seq<KV>) -> Seq<RecordModel> {
    s.map_values(|r: KV| r@)
}

/// Replaying a sequence of log lines at time `now`: malformed lines are
/// skipped, well-formed ones act as [`replay_step`].
pub open spec fn replay_lines(ls: Seq<Seq<char>>, now: u64, m: IndexModel) -> IndexModel
    decreases ls.len(),
{
    if ls.len() == 0 {
        m
    } else {
        let prev = replay_lines(ls.drop_last(), now, m);
        match spec_decode(ls.last()) {
            Some(r) => replay_step(prev, r, now),
            None => prev,
        }
    }
}

/// Lines that all decode to given records replay exactly as those records
/// do; with [`crate::model::lemma_replay_equivalence`] this carries replay
/// equivalence from records to the log lines the store actually writes.
pub proof fn lemma_replay_lines_decode(
    ls: Seq<Seq<char>>,
    rs: Seq<RecordModel>,
    now: u64,
    m: IndexModel,
)
    requires
        ls.len() == rs.len(),
        forall|i: int| 0 <= i < ls.len() ==> spec_decode(#[trigger] ls[i]) == Some(rs[i]),
    ensures
        replay_lines(ls, now, m) == replay_fold(rs, now, m),
    decreases ls.len(),
{
    if ls.len() > 0 {
        assert(forall|i: int| 0 <= i < ls.len() - 1 ==> (#[trigger] ls.drop_last()[i]) == ls[i]);
        assert(forall|i: int| 0 <= i < rs.len() - 1 ==> (#[trigger] rs.drop_last()[i]) == rs[i]);
        lemma_replay_lines_decode(ls.drop_last(), rs.drop_last(), now, m);
        assert(spec_decode(ls.last()) == Some(rs.last()));
    }
}

/// Replay equivalence, end to end: if the lines on disk decode to the
/// records that live execution appended, then reloading them at time `now`
/// yields exactly the live index less the entries whose TTL has passed by
/// `now`. Each [`Step::commit`] keeps the live index equal to the live fold
/// of all appended records, and [`Step::lines`] guarantees the decode
/// hypothesis for the lines it hands the host.
pub proof fn lemma_reload_matches_live(ls: Seq<Seq<char>>, rs: Seq<RecordModel>, now: u64)
    requires
        ls.len() == rs.len(),
        forall|i: int| 0 <= i < ls.len() ==> spec_decode(#[trigger] ls[i]) == Some(rs[i]),
    ensures
        replay_lines(ls, now, Map::empty()) == filter_expired(
            live_fold(rs, Map::empty()),
            now,
        ),
{
    lemma_replay_lines_decode(ls, rs, now, Map::empty());
    crate::model::lemma_replay_equivalence(rs, now);
}

/// One planned command: the records to append to the log, and the result to
/// report once the append has succeeded.
pub struct Step {
    records: Vec<KV>,
    result: KVResult,
}

impl Step {
    #[verifier::type_invariant]
    spec fn inv(&self) -> bool {
        forall|i: int| 0 <= i < self.records@.len() ==> (#[trigger] self.records@[i]).wf()
    }

    /// The records this step appends, abstractly.
    pub closed spec fn records_model(&self) -> Seq<RecordModel> {
        recs_model(self.records@)
    }

    /// The result this step reports, abstractly.
    pub closed spec fn result_model(&self) -> ResultModel {
        self.result@
    }

    pub fn result(&self) -> (r: &KVResult)
        ensures
            r@ == self.result_model(),
    {
        &self.result
    }

    /// The log lines for this step's records, in order; each line parses
    /// back to exactly its record and holds no newline.
    pub fn lines(&self) -> (ls: Vec<String>)
        ensures
            ls.deep_view().len() == self.records_model().len(),
            forall|i: int| 0 <= i < ls.deep_view().len() ==> spec_decode(
                #[trigger] ls.deep_view()[i],
            ) == Some(self.records_model()[i]),
            forall|i: int| 0 <= i < ls.deep_view().len() ==> crate::codec::no_newline(
                #[trigger] ls.deep_view()[i],
            ),
    {
        proof {
            use_type_invariant(self);
        }
        let mut ls: Vec<String> = Vec::new();
        let n = self.records.len();
        let mut i: usize = 0;
        while i < n
            invariant
                i <= n,
                n == self.records@.len(),
                forall|q: int| 0 <= q < self.records@.len() ==> (#[trigger] self.records@[q]).wf(),
                ls.deep_view().len() == i,
                forall|q: int| 0 <= q < i ==> spec_decode(#[trigger] ls.deep_view()[q]) == Some(
                    self.records_model()[q],
                ),
                forall|q: int| 0 <= q < i ==> crate::codec::no_newline(
                    #[trigger] ls.deep_view()[q],
                ),
            decreases n - i,
        {
            let ghost prev = ls@;
            let ghost prevdeep = ls.deep_view();
            let line = self.records[i].encode();
            let ghost linev = line@;
            ls.push(line);
            proof {
                assert(self.records_model()[i as int] == self.records@[i as int]@);
                assert forall|q: int| 0 <= q < i + 1 implies spec_decode(
                    #[trigger] ls.deep_view()[q],
                ) == Some(self.records_model()[q]) && crate::codec::no_newline(
                    ls.deep_view()[q],
                ) by {
                    assert(ls.deep_view()[q] == ls@[q]@);
                    if q < i {
                        assert(ls@[q] == prev[q]);
                        assert(prevdeep[q] == prev[q]@);
                    } else {
                        assert(ls@[q]@ == linev);
                    }
                }
            }
            i = i + 1;
        }
        ls
    }

    /// Folds this step's records into the index, exactly as live execution
    /// demands; called only after the lines are durably appended.
    pub fn commit(&self, kvstore: &mut Index)
        ensures
            final(kvstore)@ == live_fold(self.records_model(), old(kvstore)@),
    {
        proof {
            use_type_invariant(self);
        }
        let n = self.records.len();
        let mut i: usize = 0;
        while i < n
            invariant
                i <= n,
                n == self.records@.len(),
                forall|q: int| 0 <= q < self.records@.len() ==> (#[trigger] self.records@[q]).wf(),
                kvstore@ == live_fold(self.records_model().take(i as int), old(kvstore)@),
            decreases n - i,
        {
            let rec = &self.records[i];
            proof {
                assert(self.records_model().take(i as int + 1).drop_last() =~= self.records_model()
                    .take(i as int));
                assert(self.records_model().take(i as int + 1).last() == self.records@[i as int]@);
            }
            match rec.op {
                Op::Put => {
                    match &rec.value {
                        Some(v) => {
                            kvstore.upsert(rec.key.clone(), KVValue::new(v.clone(), rec.expires_at));
                        },
                        None => {
                            assert(false);
                        },
                    }
                },
                Op::Del => {
                    kvstore.remove(&rec.key);
                },
            }
            i = i + 1;
        }
        proof {
            assert(self.records_model().take(n as int) =~= self.records_model());
        }
    }
}

impl KV {
    /// A record is coherent: a put carries a value, a delete carries
    /// neither value nor expiry.
    pub closed spec fn wf(&self) -> bool {
        match self.op {
            Op::Put => self.value is Some,
            Op::Del => self.value is None && self.expires_at is None,
        }
    }

    /// A put record.
    pub fn put_record(key: String, value: Vec<u8>, expires_at: Option<u64>) -> (r: KV)
        ensures
            r.wf(),
            r@ == (RecordModel::Put { key: key@, value: value@, expires_at }),
    {
        KV { op: Op::Put, key, value: Some(value), expires_at }
    }

    /// A delete record.
    pub fn del_record(key: String) -> (r: KV)
        ensures
            r.wf(),
            r@ == (RecordModel::Del { key: key@ }),
    {
        KV { op: Op::Del, key, value: None, expires_at: None }
    }

    /// Writes this record as one log line; the line parses back to exactly
    /// this record, so replay reconstructs what was appended, and it holds
    /// no newline, so appending it with a line break keeps records framed.
    pub fn encode(&self) -> (line: String)
        requires
            self.wf(),
        ensures
            line@ == enc_record(self@),
            spec_decode(line@) == Some(self@),
            crate::codec::no_newline(line@),
    {
        let mut out: Vec<char> = Vec::new();
        match self.op {
            Op::Put => push_lit(&mut out, "{\"op\":\"set\",\"key\":\""),
            Op::Del => push_lit(&mut out, "{\"op\":\"del\",\"key\":\""),
        }
        push_escaped(&mut out, self.key.as_str());
        out.push('"');
        match self.op {
            Op::Put => {
                push_lit(&mut out, ",\"value\":[");
                match &self.value {
                    Some(v) => push_bytes(&mut out, v),
                    None => {
                        assert(false);
                    },
                }
                match self.expires_at {
                    Some(t) => {
                        push_lit(&mut out, ",\"expires_at\":");
                        push_dec_digits(&mut out, t);
                        out.push('}');
                    },
                    None => {
                        out.push('}');
                    },
                }
            },
            Op::Del => {
                out.push('}');
            },
        }
        proof {
            assert(out@ =~= enc_record(self@));
            crate::codec::lemma_decode_enc_record(self@);
            crate::codec::lemma_enc_record_no_newline(self@);
        }
        chars_to_string(&out)
    }

    /// Reads one log line back into a record; malformed lines yield nothing.
    #[verifier::rlimit(100)]
    pub fn decode_line(line: &str) -> (r: Option<KV>)
        ensures
            match r {
                Some(rec) => rec.wf() && spec_decode(line@) == Some(rec@),
                None => spec_decode(line@) is None,
            },
    {
        let v = str_to_chars(line);
        proof {
            assert(v@.skip(0) =~= v@);
        }
        match expect_lit(&v, 0, "{\"op\":\"set\",\"key\":\"") {
            Some(i1) => {
                match parse_string(&v, i1) {
                    None => None,
                    Some((keychars, i2)) => {
                        match expect_lit(&v, i2, ",\"value\":[") {
                            None => None,
                            Some(i3) => {
                                proof {
                                    assert(v@.skip(i2 as int).skip(i3 - i2) =~= v@.skip(
                                        i3 as int,
                                    ));
                                }
                                match parse_bytes(&v, i3) {
                                    None => None,
                                    Some((bytes, i4)) => {
                                        proof {
                                            crate::codec::lemma_end_brace(v@, i4 as int);
                                        }
                                        if v.len() - i4 == 1 && v[i4] == '}' {
                                            Some(
                                                KV::put_record(
                                                    chars_to_string(&keychars),
                                                    bytes,
                                                    None,
                                                ),
                                            )
                                        } else {
                                            match expect_lit(&v, i4, ",\"expires_at\":") {
                                                None => None,
                                                Some(i5) => {
                                                    proof {
                                                        assert(v@.skip(i4 as int).skip(i5 - i4)
                                                            =~= v@.skip(i5 as int));
                                                    }
                                                    match parse_num(&v, i5) {
                                                        None => None,
                                                        Some((t, i6)) => {
                                                            proof {
                                                                crate::codec::lemma_end_brace(
                                                                    v@,
                                                                    i6 as int,
                                                                );
                                                            }
                                                            if v.len() - i6 == 1 && v[i6] == '}' {
                                                                Some(
                                                                    KV::put_record(
                                                                        chars_to_string(&keychars),
                                                                        bytes,
                                                                        Some(t),
                                                                    ),
                                                                )
                                                            } else {
                                                                None
                                                            }
                                                        },
                                                    }
                                                },
                                            }
                                        }
                                    },
                                }
                            },
                        }
                    },
                }
            },
            None => {
                match expect_lit(&v, 0, "{\"op\":\"del\",\"key\":\"") {
                    None => None,
                    Some(i1) => {
                        match parse_string(&v, i1) {
                            None => None,
                            Some((keychars, i2)) => {
                                proof {
                                    crate::codec::lemma_end_brace(v@, i2 as int);
                                }
                                if v.len() - i2 == 1 && v[i2] == '}' {
                                    Some(KV::del_record(chars_to_string(&keychars)))
                                } else {
                                    None
                                }
                            },
                        }
                    },
                }
            },
        }
    }

    /// Plans one command against the index at time `now`, without touching
    /// anything: the step holds the records the log must receive and the
    /// result to report. A command that stores a deadline - a set with a
    /// TTL, or a touch of a live key - demands that the deadline fit the
    /// clock's range; the host checks that before calling. A touch of an
    /// absent or expired key stores nothing and carries no such demand.
    pub fn build(command: &Command, now: u64, kvstore: &Index) -> (step: Step)
        requires
            command matches Command::Put { ttl: Some(t), .. } ==> now + *t <= u64::MAX,
            command matches Command::Touch { key, ttl } ==> (lookup_live(kvstore@, key@, now)
                is Some ==> now + *ttl <= u64::MAX),
        ensures
            step.records_model() == step_records(kvstore@, command@, now),
            step.result_model() == step_result(kvstore@, command@, now),
    {
        match command {
            Command::Put { key, value, ttl } => {
                let expires_at: Option<u64> = match ttl {
                    Some(t) => Some(now + *t),
                    None => None,
                };
                let rec = KV::put_record(key.clone(), value.clone(), expires_at);
                let step = Step { records: vec![rec], result: KVResult::Put };
                proof {
                    assert(step.records_model() =~= step_records(kvstore@, command@, now));
                }
                step
            },
            Command::Get { key } => {
                match kvstore.get(key) {
                    None => {
                        let step = Step { records: Vec::new(), result: KVResult::Get { value: None } };
                        proof {
                            assert(step.records_model() =~= step_records(kvstore@, command@, now));
                        }
                        step
                    },
                    Some(v) => {
                        let expired = match v.expires_at() {
                            Some(t) => has_passed(t, now),
                            None => false,
                        };
                        if expired {
                            let rec = KV::del_record(key.clone());
                            let step = Step { records: vec![rec], result: KVResult::Get { value: None } };
                            proof {
                                assert(step.records_model() =~= step_records(
                                    kvstore@,
                                    command@,
                                    now,
                                ));
                            }
                            step
                        } else {
                            let step = Step {
                                records: Vec::new(),
                                result: KVResult::Get { value: Some(v.clone()) },
                            };
                            proof {
                                assert(step.records_model() =~= step_records(
                                    kvstore@,
                                    command@,
                                    now,
                                ));
                            }
                            step
                        }
                    },
                }
            },
            Command::Delete { key } => {
                if kvstore.contains(key) {
                    let rec = KV::del_record(key.clone());
                    let step = Step { records: vec![rec], result: KVResult::Delete };
                    proof {
                        assert(step.records_model() =~= step_records(kvstore@, command@, now));
                    }
                    step
                } else {
                    let step = Step { records: Vec::new(), result: KVResult::Delete };
                    proof {
                        assert(step.records_model() =~= step_records(kvstore@, command@, now));
                    }
                    step
                }
            },
            Command::Has { key } => {
                match kvstore.get(key) {
                    None => {
                        let step = Step { records: Vec::new(), result: KVResult::Has { has: false } };
                        proof {
                            assert(step.records_model() =~= step_records(kvstore@, command@, now));
                        }
                        step
                    },
                    Some(v) => {
                        let expired = match v.expires_at() {
                            Some(t) => has_passed(t, now),
                            None => false,
                        };
                        if expired {
                            let rec = KV::del_record(key.clone());
                            let step = Step { records: vec![rec], result: KVResult::Has { has: false } };
                            proof {
                                assert(step.records_model() =~= step_records(
                                    kvstore@,
                                    command@,
                                    now,
                                ));
                            }
                            step
                        } else {
                            let step = Step { records: Vec::new(), result: KVResult::Has { has: true } };
                            proof {
                                assert(step.records_model() =~= step_records(
                                    kvstore@,
                                    command@,
                                    now,
                                ));
                            }
                            step
                        }
                    },
                }
            },
            Command::Persist { key } => {
                match kvstore.get(key) {
                    None => {
                        let step = Step { records: Vec::new(), result: KVResult::Persist };
                        proof {
                            assert(step.records_model() =~= step_records(kvstore@, command@, now));
                        }
                        step
                    },
                    Some(v) => {
                        let expired = match v.expires_at() {
                            Some(t) => has_passed(t, now),
                            None => false,
                        };
                        if expired {
                            let rec = KV::del_record(key.clone());
                            let step = Step { records: vec![rec], result: KVResult::Persist };
                            proof {
                                assert(step.records_model() =~= step_records(
                                    kvstore@,
                                    command@,
                                    now,
                                ));
                            }
                            step
                        } else {
                            let rec = KV::put_record(key.clone(), v.value().clone(), None);
                            let step = Step { records: vec![rec], result: KVResult::Persist };
                            proof {
                                assert(step.records_model() =~= step_records(
                                    kvstore@,
                                    command@,
                                    now,
                                ));
                            }
                            step
                        }
                    },
                }
            },
            Command::Touch { key, ttl } => {
                match kvstore.get(key) {
                    None => {
                        let step = Step { records: Vec::new(), result: KVResult::Touch };
                        proof {
                            assert(step.records_model() =~= step_records(kvstore@, command@, now));
                        }
                        step
                    },
                    Some(v) => {
                        let expired = match v.expires_at() {
                            Some(t) => has_passed(t, now),
                            None => false,
                        };
                        if expired {
                            let rec = KV::del_record(key.clone());
                            let step = Step { records: vec![rec], result: KVResult::Touch };
                            proof {
                                assert(step.records_model() =~= step_records(
                                    kvstore@,
                                    command@,
                                    now,
                                ));
                            }
                            step
                        } else {
                            proof {
                                assert(lookup_live(kvstore@, key@, now) is Some);
                            }
                            let rec = KV::put_record(key.clone(), v.value().clone(), Some(now + *ttl));
                            let step = Step { records: vec![rec], result: KVResult::Touch };
                            proof {
                                assert(step.records_model() =~= step_records(
                                    kvstore@,
                                    command@,
                                    now,
                                ));
                            }
                            step
                        }
                    },
                }
            },
            Command::Ttl { key } => {
                match kvstore.get(key) {
                    None => {
                        let step = Step { records: Vec::new(), result: KVResult::Ttl { remaining: None } };
                        proof {
                            assert(step.records_model() =~= step_records(kvstore@, command@, now));
                        }
                        step
                    },
                    Some(v) => {
                        let expired = match v.expires_at() {
                            Some(t) => has_passed(t, now),
                            None => false,
                        };
                        if expired {
                            let rec = KV::del_record(key.clone());
                            let step = Step { records: vec![rec], result: KVResult::Ttl { remaining: None } };
                            proof {
                                assert(step.records_model() =~= step_records(
                                    kvstore@,
                                    command@,
                                    now,
                                ));
                            }
                            step
                        } else {
                            let remaining: Option<u64> = match v.expires_at() {
                                Some(t) => Some(time_remaining(t, now)),
                                None => None,
                            };
                            let step = Step { records: Vec::new(), result: KVResult::Ttl { remaining } };
                            proof {
                                assert(step.records_model() =~= step_records(
                                    kvstore@,
                                    command@,
                                    now,
                                ));
                            }
                            step
                        }
                    },
                }
            },
        }
    }

    /// Rebuilds the index by replaying log lines at time `now`: malformed
    /// lines are skipped, deletes and already-expired puts erase their key,
    /// and every other put binds it.
    pub fn load_to_mem(lines: &Vec<String>, now: u64) -> (kvstore: Index)
        ensures
            kvstore@ == replay_lines(lines.deep_view(), now, Map::empty()),
    {
        let mut kvstore = Index::new();
        let n = lines.len();
        let mut i: usize = 0;
        while i < n
            invariant
                i <= n,
                n == lines@.len(),
                kvstore@ == replay_lines(lines.deep_view().take(i as int), now, Map::empty()),
            decreases n - i,
        {
            proof {
                assert(lines.deep_view().take(i as int + 1).drop_last() =~= lines.deep_view().take(
                    i as int,
                ));
                assert(lines.deep_view().take(i as int + 1).last() == lines@[i as int]@);
            }
            match KV::decode_line(lines[i].as_str()) {
                Some(rec) => {
                    match rec.op {
                        Op::Put => {
                            let expired = match rec.expires_at {
                                Some(t) => has_passed(t, now),
                                None => false,
                            };
                            if expired {
                                kvstore.remove(&rec.key);
                            } else {
                                match rec.value {
                                    Some(v) => {
                                        kvstore.upsert(rec.key, KVValue::new(v, rec.expires_at));
                                    },
                                    None => {
                                        assert(false);
                                    },
                                }
                            }
                        },
                        Op::Del => {
                            kvstore.remove(&rec.key);
                        },
                    }
                },
                None => {},
            }
            i = i + 1;
        }
        proof {
            assert(lines.deep_view().take(n as int) =~= lines.deep_view());
        }
        kvstore
    }

    /// Plans compaction at time `now`: exactly one put line per live entry
    /// of the index, and nothing else - the minimal set of records that
    /// reconstructs the live state. Replaying the output yields the index
    /// minus its expired entries; every line is a put of a live key with
    /// that key's exact entry; and no two lines are about the same key, so
    /// together the three clauses pin one record per live key. The host
    /// writes these lines to a fresh file, forces them to disk, and
    /// atomically renames it over the live log.
    #[verifier::loop_isolation(false)]
    pub fn compact(kvstore: &Index, now: u64) -> (lines: Vec<String>)
        ensures
            replay_lines(lines.deep_view(), now, Map::empty()) == filter_expired(kvstore@, now),
            forall|i: int| 0 <= i < lines.deep_view().len() ==> line_is_live_put(
                #[trigger] lines.deep_view()[i],
                kvstore@,
                now,
            ),
            forall|a: int, b: int| 0 <= a < b < lines.deep_view().len() ==> put_line_key(
                #[trigger] lines.deep_view()[a],
            ) != put_line_key(#[trigger] lines.deep_view()[b]),
    {
        let n = kvstore.entry_count();
        let mut lines: Vec<String> = Vec::new();
        let mut i: usize = 0;
        while i < n
            invariant
                i <= n,
                n == kvstore.rep().len(),
                replay_lines(lines.deep_view(), now, Map::empty()) == live_restrict(
                    kvstore@,
                    kvstore.rep(),
                    now,
                    i as int,
                ),
                forall|a: int| 0 <= a < lines.deep_view().len() ==> line_is_live_put(
                    #[trigger] lines.deep_view()[a],
                    kvstore@,
                    now,
                ),
                forall|a: int| 0 <= a < lines.deep_view().len() ==> exists|j: int|
                    0 <= j < i && put_line_key(#[trigger] lines.deep_view()[a]) == (
                    #[trigger] kvstore.rep()[j]).0,
                forall|a: int, b: int| 0 <= a < b < lines.deep_view().len() ==> put_line_key(
                    #[trigger] lines.deep_view()[a],
                ) != put_line_key(#[trigger] lines.deep_view()[b]),
            decreases n - i,
        {
            let p = kvstore.entry_at(i);
            let expired = match p.1.expires_at() {
                Some(t) => has_passed(t, now),
                None => false,
            };
            let ghost pre = lines.deep_view();
            if !expired {
                let rec = KV::put_record(p.0.clone(), p.1.value().clone(), p.1.expires_at());
                let line = rec.encode();
                lines.push(line);
                proof {
                    assert(lines.deep_view() =~= pre.push(line@));
                    assert(lines.deep_view().drop_last() =~= pre);
                    let e = Entry { value: p.1@.value, expires_at: p.1@.expires_at };
                    assert(live_restrict(kvstore@, kvstore.rep(), now, i as int + 1)
                        =~= live_restrict(kvstore@, kvstore.rep(), now, i as int).insert(
                        kvstore.rep()[i as int].0,
                        e,
                    ));
                    assert(put_line_key(line@) == kvstore.rep()[i as int].0);
                    assert forall|a: int, b: int|
                        0 <= a < b < lines.deep_view().len() implies put_line_key(
                        #[trigger] lines.deep_view()[a],
                    ) != put_line_key(#[trigger] lines.deep_view()[b]) by {
                        if b == pre.len() {
                            let j = choose|j: int|
                                0 <= j < i && put_line_key(pre[a]) == (
                                #[trigger] kvstore.rep()[j]).0;
                            assert(kvstore.rep()[j].0 != kvstore.rep()[i as int].0);
                        }
                    }
                }
            } else {
                proof {
                    assert(live_restrict(kvstore@, kvstore.rep(), now, i as int + 1)
                        =~= live_restrict(kvstore@, kvstore.rep(), now, i as int));
                }
            }
            i = i + 1;
        }
        proof {
            assert(live_restrict(kvstore@, kvstore.rep(), now, n as int) =~= filter_expired(
                kvstore@,
                now,
            ));
        }
        lines
    }
}

/// The key a compacted-log line is about.
pub open spec fn put_line_key(l: Seq<char>) -> Seq<char> {
    match spec_decode(l) {
        Some(r) => match r {
            RecordModel::Put { key, .. } => key,
            RecordModel::Del { key } => key,
        },
        None => Seq::empty(),
    }
}

/// A line of a compacted log: it decodes to a put record of a key that is
/// live in the index, carrying exactly that key's entry.
pub open spec fn line_is_live_put(l: Seq<char>, m: IndexModel, now: u64) -> bool {
    match spec_decode(l) {
        Some(r) => match r {
            RecordModel::Put { key, value, expires_at } => lookup_live(m, key, now) == Some(
                Entry { value, expires_at },
            ),
            RecordModel::Del { .. } => false,
        },
        None => false,
    }
}

/// The part of the index already covered by the first `i` represented
/// entries, kept live-only.
spec fn live_restrict(m: IndexModel, rep: Seq<(Seq<char>, Entry)>, now: u64, i: int) -> IndexModel {
    Map::new(
        |k: Seq<char>| filter_expired(m, now).dom().contains(k) && exists|j: int|
            0 <= j < i && (#[trigger] rep[j]).0 == k,
        |k: Seq<char>| filter_expired(m, now)[k],
    )
}

} // verus!
