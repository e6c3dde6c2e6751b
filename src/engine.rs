//! Opening the store, reporting on the consumer, and the decisions of the
//! background loop. The loop itself, the timers and the disk belong to the
//! caller, which hands these functions what it read and performs what they
//! return.
use vstd::prelude::*;
use vstd::string::StringExecFns;

use crate::codec::{be64, be64_at, EncodingError};
use crate::keys::{read_u64_value, static_key, tag_key, u64_value, Tag};
use crate::store::{ins, ops_view, push_op, Partition, WriteOp};
use crate::types::{ConsumerInfo, StorageError};
use crate::batch::{bytes_eq, bytes_to_vec};
use crate::maintenance::removes_of;

verus! {

/// The length of the sketch secret.
pub const SKETCH_SECRET_LEN: usize = 16;

/// How long the background loop waits between roll-up steps, in
/// milliseconds.
pub const ROLLUP_INTERVAL_MS: u64 = 81;

/// The roll-up interval while backfilling.
pub const ROLLUP_BACKFILL_INTERVAL_MS: u64 = 1;

/// How long the loop backs off after a roll-up step that found nothing.
pub const ROLLUP_IDLE_BACKOFF_MS: u64 = 1_200;

/// How long the background loop waits between trims, in milliseconds.
pub const TRIM_INTERVAL_MS: u64 = 6_000;

/// The trim interval while backfilling.
pub const TRIM_BACKFILL_INTERVAL_MS: u64 = 3_000;

/// How many records one trim round deletes before it stops early.
pub const MAX_TRIM_ROUND_DELETES: usize = 1_000_000;

/// What opening the store writes, and what it hands back.
#[derive(Debug)]
pub struct InitPlan {
    /// The changes to write, one at a time.
    pub ops: Vec<WriteOp>,
    /// The sketch secret in use.
    pub secret: Vec<u8>,
    /// The source cursor to resume from, when the store held one.
    pub resume_cursor: Option<u64>,
}

fn init_error(msg: &str) -> (r: StorageError)
    ensures
        r matches StorageError::InitError(_),
{
    StorageError::InitError(String::from_str(msg))
}

/// Plans opening the store from what the global partition holds.
///
/// With a stored source cursor, the endpoint and the secret must be stored
/// too; an endpoint other than `endpoint` is refused unless
/// `force_endpoint`, which writes the new one. Without a stored cursor the
/// store is fresh: none of the endpoint, secret, takeoff time and roll-up
/// cursor may be there yet, and all four are written (`fresh_secret` as the
/// secret, `now` as the takeoff time, zero as the roll-up cursor).
pub fn plan_init(
    stored_cursor: Option<&[u8]>,
    stored_endpoint: Option<&[u8]>,
    stored_secret: Option<&[u8]>,
    takeoff_present: bool,
    rollup_present: bool,
    endpoint: &[u8],
    force_endpoint: bool,
    fresh_secret: &[u8],
    now: u64,
) -> (r: Result<InitPlan, StorageError>)
    requires
        fresh_secret@.len() == SKETCH_SECRET_LEN,
    ensures
        r is Err ==> r matches Err(StorageError::InitError(_)),
        stored_cursor matches Some(c) ==> {
            &&& (c@.len() != 8 || stored_endpoint is None || stored_secret is None) ==> r is Err
            &&& (stored_secret matches Some(s) && s@.len() != SKETCH_SECRET_LEN) ==> r is Err
            &&& (stored_endpoint matches Some(e) && e@ != endpoint@ && !force_endpoint) ==> r is Err
            &&& r matches Ok(p) ==> {
                &&& c@.len() == 8
                &&& p.resume_cursor == Some(be64_at(c@, 0))
                &&& stored_secret matches Some(s) && p.secret@ == s@
                &&& stored_endpoint matches Some(e) && ops_view(p.ops@) == if e@ == endpoint@ {
                    Seq::empty()
                } else {
                    seq![ins(Partition::Global, tag_key(Tag::JsEndpoint), endpoint@)]
                }
            }
            &&& (c@.len() == 8 && stored_endpoint is Some && (stored_secret matches Some(s)
                && s@.len() == SKETCH_SECRET_LEN) && (stored_endpoint->Some_0@ == endpoint@
                || force_endpoint)) ==> r is Ok
        },
        stored_cursor is None ==> {
            &&& r is Ok <==> (stored_endpoint is None && stored_secret is None && !takeoff_present
                && !rollup_present)
            &&& r matches Ok(p) ==> {
                &&& p.resume_cursor is None
                &&& p.secret@ == fresh_secret@
                &&& ops_view(p.ops@) == seq![
                    ins(Partition::Global, tag_key(Tag::JsEndpoint), endpoint@),
                    ins(Partition::Global, tag_key(Tag::SketchSecret), fresh_secret@),
                    ins(Partition::Global, tag_key(Tag::Takeoff), be64(now)),
                    ins(Partition::Global, tag_key(Tag::RollupCursor), be64(0)),
                ]
            }
        },
{
    let mut ops: Vec<WriteOp> = Vec::new();
    match stored_cursor {
        Some(c) => {
            let cursor = match read_u64_value(c) {
                Ok(n) => n,
                Err(_) => {
                    return Err(init_error("stored js_cursor is not a cursor, refusing to start."));
                },
            };
            let stored = match stored_endpoint {
                Some(e) => e,
                None => {
                    return Err(init_error("found cursor but missing js_endpoint, refusing to start."));
                },
            };
            let secret = match stored_secret {
                Some(s) => s,
                None => {
                    return Err(init_error("found cursor but missing sketch_secret, refusing to start."));
                },
            };
            if secret.len() != SKETCH_SECRET_LEN {
                return Err(init_error("stored sketch_secret is not 16 bytes, refusing to start."));
            }
            if !bytes_eq(stored, endpoint) {
                if force_endpoint {
                    push_op(
                        &mut ops,
                        WriteOp::Insert(
                            Partition::Global,
                            static_key(Tag::JsEndpoint),
                            bytes_to_vec(endpoint),
                        ),
                    );
                    assert(ops_view(ops@) =~= seq![
                        ins(Partition::Global, tag_key(Tag::JsEndpoint), endpoint@),
                    ]);
                } else {
                    return Err(
                        init_error(
                            "stored js_endpoint differs from provided, refusing to start without --jetstream-force.",
                        ),
                    );
                }
            } else {
                assert(ops_view(ops@) =~= Seq::empty());
            }
            Ok(InitPlan { ops, secret: bytes_to_vec(secret), resume_cursor: Some(cursor) })
        },
        None => {
            if stored_endpoint.is_some() || stored_secret.is_some() || takeoff_present
                || rollup_present {
                return Err(init_error("init failed: a value for a fresh key already exists"));
            }
            push_op(
                &mut ops,
                WriteOp::Insert(Partition::Global, static_key(Tag::JsEndpoint), bytes_to_vec(endpoint)),
            );
            push_op(
                &mut ops,
                WriteOp::Insert(
                    Partition::Global,
                    static_key(Tag::SketchSecret),
                    bytes_to_vec(fresh_secret),
                ),
            );
            push_op(&mut ops, WriteOp::Insert(Partition::Global, static_key(Tag::Takeoff), u64_value(now)));
            push_op(
                &mut ops,
                WriteOp::Insert(Partition::Global, static_key(Tag::RollupCursor), u64_value(0)),
            );
            assert(ops_view(ops@) =~= seq![
                ins(Partition::Global, tag_key(Tag::JsEndpoint), endpoint@),
                ins(Partition::Global, tag_key(Tag::SketchSecret), fresh_secret@),
                ins(Partition::Global, tag_key(Tag::Takeoff), be64(now)),
                ins(Partition::Global, tag_key(Tag::RollupCursor), be64(0)),
            ]);
            Ok(InitPlan { ops, secret: bytes_to_vec(fresh_secret), resume_cursor: None })
        },
    }
}

fn decode_optional_u64(b: Option<&[u8]>) -> (r: Result<Option<u64>, StorageError>)
    ensures
        b is None ==> r == Ok::<Option<u64>, StorageError>(None),
        b matches Some(v) ==> (r is Ok <==> v@.len() == 8),
        b matches Some(v) ==> (r matches Ok(Some(n)) ==> n == be64_at(v@, 0)),
        b matches Some(v) ==> (r matches Ok(o) ==> o is Some),
{
    match b {
        None => Ok(None),
        Some(v) => match read_u64_value(v) {
            Ok(n) => Ok(Some(n)),
            Err(e) => Err(StorageError::DecodeError(e)),
        },
    }
}

/// What the consumer reports, from the stored endpoint, takeoff time,
/// source cursor and roll-up cursor. The endpoint and the takeoff time must
/// be there.
pub fn consumer_info(
    endpoint: Option<&[u8]>,
    takeoff: Option<&[u8]>,
    js_cursor: Option<&[u8]>,
    rollup_cursor: Option<&[u8]>,
) -> (r: Result<ConsumerInfo, StorageError>)
    ensures
        endpoint is None ==> r matches Err(StorageError::BadStateError(_)),
        (endpoint is Some && (takeoff matches Some(t) && t@.len() == 8) && (js_cursor matches Some(
            b,
        ) ==> b@.len() == 8) && (rollup_cursor matches Some(b) ==> b@.len() == 8)) ==> r is Ok,
        (endpoint is Some && takeoff is None) ==> r matches Err(StorageError::BadStateError(_)),
        r matches Ok(ConsumerInfo::Jetstream { endpoint: e, started_at, latest_cursor, rollup_cursor: rc }) ==> {
            &&& endpoint matches Some(b) && e@ == b@
            &&& takeoff matches Some(t) && t@.len() == 8 && started_at == be64_at(t@, 0)
            &&& (js_cursor is None <==> latest_cursor is None)
            &&& (latest_cursor matches Some(n) ==> js_cursor matches Some(b) && n == be64_at(b@, 0))
            &&& (rollup_cursor is None <==> rc is None)
            &&& (rc matches Some(n) ==> rollup_cursor matches Some(b) && n == be64_at(b@, 0))
        },
{
    let e = match endpoint {
        Some(b) => bytes_to_vec(b),
        None => {
            return Err(StorageError::BadStateError(String::from_str("Could not find jetstream endpoint")));
        },
    };
    let started_at = match takeoff {
        Some(t) => match read_u64_value(t) {
            Ok(n) => n,
            Err(err) => {
                return Err(StorageError::DecodeError(err));
            },
        },
        None => {
            return Err(
                StorageError::BadStateError(String::from_str("Could not find jetstream takeoff time")),
            );
        },
    };
    let latest_cursor = decode_optional_u64(js_cursor)?;
    let rc = decode_optional_u64(rollup_cursor)?;
    Ok(ConsumerInfo::Jetstream { endpoint: e, started_at, latest_cursor, rollup_cursor: rc })
}

/// The changes of a reroll: the roll-up cursor goes back to zero and every
/// trim cursor (the given keys) is removed.
pub fn reroll_ops(trim_cursor_keys: &Vec<Vec<u8>>) -> (r: Vec<WriteOp>)
    ensures
        ops_view(r@) == seq![ins(Partition::Global, tag_key(Tag::RollupCursor), be64(0))]
            + removes_of(Partition::Global, trim_cursor_keys@.map_values(|k: Vec<u8>| k@)),
{
    let mut ops: Vec<WriteOp> = Vec::new();
    push_op(&mut ops, WriteOp::Insert(Partition::Global, static_key(Tag::RollupCursor), u64_value(0)));
    let ghost first = ops_view(ops@);
    let mut i: usize = 0;
    while i < trim_cursor_keys.len()
        invariant
            i <= trim_cursor_keys@.len(),
            first == seq![ins(Partition::Global, tag_key(Tag::RollupCursor), be64(0))],
            ops_view(ops@) == first + removes_of(
                Partition::Global,
                trim_cursor_keys@.map_values(|k: Vec<u8>| k@).subrange(0, i as int),
            ),
        decreases trim_cursor_keys@.len() - i,
    {
        push_op(&mut ops, WriteOp::Remove(Partition::Global, bytes_to_vec(trim_cursor_keys[i].as_slice())));
        assert(ops_view(ops@) =~= first + removes_of(
            Partition::Global,
            trim_cursor_keys@.map_values(|k: Vec<u8>| k@).subrange(0, i + 1),
        ));
        i = i + 1;
    }
    assert(trim_cursor_keys@.map_values(|k: Vec<u8>| k@).subrange(0, i as int) =~= trim_cursor_keys@.map_values(
        |k: Vec<u8>| k@,
    ));
    ops
}

/// How long the background loop waits before the next roll-up step, given
/// how many items the last step handled.
pub fn rollup_delay_ms(stepped: usize, backfill: bool) -> (r: u64)
    ensures
        r == if stepped == 0 {
            ROLLUP_IDLE_BACKOFF_MS
        } else if backfill {
            ROLLUP_BACKFILL_INTERVAL_MS
        } else {
            ROLLUP_INTERVAL_MS
        },
{
    if stepped == 0 {
        ROLLUP_IDLE_BACKOFF_MS
    } else if backfill {
        ROLLUP_BACKFILL_INTERVAL_MS
    } else {
        ROLLUP_INTERVAL_MS
    }
}

/// How long the background loop waits between trims.
pub fn trim_interval_ms(backfill: bool) -> (r: u64)
    ensures
        r == if backfill {
            TRIM_BACKFILL_INTERVAL_MS
        } else {
            TRIM_INTERVAL_MS
        },
{
    if backfill {
        TRIM_BACKFILL_INTERVAL_MS
    } else {
        TRIM_INTERVAL_MS
    }
}

/// The byte strings of a list.
pub open spec fn views(s: Seq<Vec<u8>>) -> Seq<Seq<u8>> {
    s.map_values(|v: Vec<u8>| v@)
}

/// Adds the collections of `more` to the set `dirty`, each once.
pub fn mark_dirty(dirty: &mut Vec<Vec<u8>>, more: &Vec<Vec<u8>>)
    requires
        views(old(dirty)@).no_duplicates(),
    ensures
        views(final(dirty)@).no_duplicates(),
        views(final(dirty)@).to_set() == views(old(dirty)@).to_set() + views(more@).to_set(),
{
    let ghost start = views(dirty@).to_set();
    let mut k: usize = 0;
    while k < more.len()
        invariant
            k <= more@.len(),
            views(dirty@).no_duplicates(),
            views(dirty@).to_set() == start + views(more@).subrange(0, k as int).to_set(),
        decreases more@.len() - k,
    {
        let mut found = false;
        let mut i: usize = 0;
        while i < dirty.len()
            invariant
                k < more@.len(),
                i <= dirty@.len(),
                found ==> views(dirty@).contains(more@[k as int]@),
                !found ==> forall|j: int| 0 <= j < i ==> dirty@[j]@ != more@[k as int]@,
            decreases dirty@.len() - i,
        {
            if bytes_eq(dirty[i].as_slice(), more[k].as_slice()) {
                found = true;
                assert(views(dirty@)[i as int] == more@[k as int]@);
            }
            i = i + 1;
        }
        let ghost before = views(dirty@);
        if !found {
            dirty.push(bytes_to_vec(more[k].as_slice()));
            assert(views(dirty@) =~= before.push(more@[k as int]@));
            assert(!before.contains(more@[k as int]@)) by {
                if before.contains(more@[k as int]@) {
                    let j = choose|j: int| 0 <= j < before.len() && before[j] == more@[k as int]@;
                    assert(dirty@[j]@ == before[j]);
                }
            }
            assert(views(dirty@).no_duplicates()) by {
                assert forall|a: int, b: int|
                    0 <= a < views(dirty@).len() && 0 <= b < views(dirty@).len() && a != b implies views(
                    dirty@,
                )[a] != views(dirty@)[b] by {
                    if a < before.len() && b < before.len() {
                    } else if a == before.len() {
                        assert(before[b] == views(dirty@)[b]);
                    } else {
                        assert(before[a] == views(dirty@)[a]);
                    }
                }
            }
        }
        proof {
            assert(views(more@).subrange(0, k + 1) =~= views(more@).subrange(0, k as int).push(
                more@[k as int]@,
            ));
            views(more@).subrange(0, k as int).lemma_push_to_set_commute(more@[k as int]@);
            if found {
                assert(views(dirty@).to_set() =~= start + views(more@).subrange(0, k + 1).to_set());
            } else {
                before.lemma_push_to_set_commute(more@[k as int]@);
                assert(views(dirty@).to_set() =~= start + views(more@).subrange(0, k + 1).to_set());
            }
        }
        k = k + 1;
    }
    assert(views(more@).subrange(0, k as int) =~= views(more@));
}

/// Whether a trim round stops before its remaining collections, given how
/// many records it deleted so far.
pub fn trim_round_done(total_deleted: usize) -> (r: bool)
    ensures
        r == (total_deleted > MAX_TRIM_ROUND_DELETES),
{
    total_deleted > MAX_TRIM_ROUND_DELETES
}

} // verus!
