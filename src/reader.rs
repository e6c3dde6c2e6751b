//! The read path: resolving feed entries to records, merging per-collection
//! feeds, folding counts, and checking rank rows against their cells.
use vstd::prelude::*;
use vstd::string::StringExecFns;
use crate::codec::{lemma_str_at, lemma_str_at_end, str_at, u64_at, be64, be64_at, no_nul, nul_str, EncodingError};
use crate::keys::{
    live_counts_key_spec, rank_tag, counts_key, counts_key_spec, decode_feed_key, feed_key_spec, feed_value_spec, rank_key_spec,
    record_key, record_key_spec, record_value_spec, starts_with, static_key, tag_key, Metric,
    Period, Tag,
};
use crate::maintenance::{decode_feed_value, decode_record_meta};
use crate::rollup::{live_key_nsid, cell_ok, cell_sketch, rows_sum, decode_live_counts_key, CountsCell, RollupError};

use crate::types::{NsidCount, StorageError};
use crate::sketch::{estimate_of, sketch_union};
use cardinality_estimator_safe::Sketch;
use crate::batch::{bytes_eq, bytes_to_vec};

verus! {

/// A record as queries return it.
#[derive(Debug, Clone)]
pub struct UFOsRecord {
    pub cursor: u64,
    pub did: Vec<u8>,
    pub collection: Vec<u8>,
    pub rkey: Vec<u8>,
    pub rev: Vec<u8>,
    /// The raw JSON of the record, verbatim.
    pub record: Vec<u8>,
    pub is_update: bool,
}

/// A record as a value: cursor, account, collection, record key, revision,
/// raw record and update flag.
pub type RecordView = (u64, Seq<u8>, Seq<u8>, Seq<u8>, Seq<u8>, Seq<u8>, bool);

impl View for UFOsRecord {
    type V = RecordView;

    open spec fn view(&self) -> RecordView {
        (self.cursor, self.did@, self.collection@, self.rkey@, self.rev@, self.record@, self.is_update)
    }
}

/// The records key that a feed entry points at.
pub fn feed_entry_location(feed_key: &[u8], feed_value: &[u8]) -> (r: Result<Vec<u8>, EncodingError>)
    ensures
        r matches Ok(k) ==> exists|nsid: Seq<u8>, cursor: u64, did: Seq<u8>, rkey: Seq<u8>, rev: Seq<u8>|
            feed_key@ == feed_key_spec(nsid, cursor) && feed_value@ == feed_value_spec(did, rkey, rev)
                && k@ == record_key_spec(did, nsid, rkey),
{
    let (nsid, cursor) = decode_feed_key(feed_key)?;
    let (did, rkey, rev) = decode_feed_value(feed_value)?;
    record_key(did.as_slice(), nsid.as_slice(), rkey.as_slice())
}

/// The record that a feed entry stands for, given the records row it points
/// at: `None` when the row is gone, was written again at another cursor, or
/// holds another revision.
pub fn resolve_feed_entry(feed_key: &[u8], feed_value: &[u8], record: Option<&[u8]>) -> (r: Result<
    Option<UFOsRecord>,
    EncodingError,
>)
    ensures
        r matches Ok(Some(rec)) ==> {
            &&& feed_key@ == feed_key_spec(rec.collection@, rec.cursor)
            &&& feed_value@ == feed_value_spec(rec.did@, rec.rkey@, rec.rev@)
            &&& record matches Some(b) && b@ == record_value_spec(
                rec.cursor,
                rec.is_update,
                rec.rev@,
                rec.record@,
            )
        },
        r matches Ok(None) ==> record is None || exists|
            nsid: Seq<u8>,
            cursor: u64,
            did: Seq<u8>,
            rkey: Seq<u8>,
            rev: Seq<u8>,
            c2: u64,
            upd: bool,
            rev2: Seq<u8>,
            raw: Seq<u8>,
        |
            feed_key@ == feed_key_spec(nsid, cursor) && feed_value@ == feed_value_spec(did, rkey, rev)
                && record->Some_0@ == record_value_spec(c2, upd, rev2, raw) && (c2 != cursor || rev2
                != rev),
        record is None ==> r is Err || r == Ok::<Option<UFOsRecord>, EncodingError>(None),
        forall|nsid: Seq<u8>, cursor: u64, did: Seq<u8>, rkey: Seq<u8>, rev: Seq<u8>|
            #![trigger feed_key_spec(nsid, cursor), feed_value_spec(did, rkey, rev)]
            no_nul(nsid) && no_nul(did) && no_nul(rkey) && no_nul(rev) && feed_key@ == feed_key_spec(
                nsid,
                cursor,
            ) && feed_value@ == feed_value_spec(did, rkey, rev) && record is None ==> r
                == Ok::<Option<UFOsRecord>, EncodingError>(None),
        forall|
            nsid: Seq<u8>,
            cursor: u64,
            did: Seq<u8>,
            rkey: Seq<u8>,
            rev: Seq<u8>,
            c2: u64,
            upd: bool,
            rev2: Seq<u8>,
            raw: Seq<u8>,
        |
            #![trigger feed_key_spec(nsid, cursor), feed_value_spec(did, rkey, rev), record_value_spec(c2, upd, rev2, raw)]
            no_nul(nsid) && no_nul(did) && no_nul(rkey) && no_nul(rev) && no_nul(rev2) && feed_key@
                == feed_key_spec(nsid, cursor) && feed_value@ == feed_value_spec(did, rkey, rev)
                && record is Some && record->Some_0@ == record_value_spec(c2, upd, rev2, raw) ==> if c2
                == cursor && rev2 == rev {
                r is Ok && r->Ok_0 is Some && r->Ok_0->Some_0@ == (cursor, did, nsid, rkey, rev, raw, upd)
            } else {
                r == Ok::<Option<UFOsRecord>, EncodingError>(None)
            },
{
    let (nsid, cursor) = decode_feed_key(feed_key)?;
    let (did, rkey, rev) = decode_feed_value(feed_value)?;
    let bytes = match record {
        None => {
            return Ok(None);
        },
        Some(b) => b,
    };
    let (meta, at) = decode_record_meta(bytes)?;
    if meta.cursor != cursor {
        return Ok(None);
    }
    if !bytes_eq(meta.rev.as_slice(), rev.as_slice()) {
        return Ok(None);
    }
    let raw = bytes_to_vec(vstd::slice::slice_subrange(bytes, at, bytes.len()));
    Ok(
        Some(
            UFOsRecord {
                cursor,
                did,
                collection: nsid,
                rkey,
                rev,
                record: raw,
                is_update: meta.is_update,
            },
        ),
    )
}

/// Among the first `k` lists, the one whose next record (at `pos`) is
/// newest; the first such on ties; `None` when none has a record left.
pub open spec fn newest_head(lists: Seq<Seq<RecordView>>, pos: Seq<int>, k: int) -> Option<int>
    decreases k,
{
    if k <= 0 {
        None
    } else {
        let b = newest_head(lists, pos, k - 1);
        if pos[k - 1] < lists[k - 1].len() {
            match b {
                None => Some(k - 1),
                Some(j) => if lists[k - 1][pos[k - 1]].0 > lists[j][pos[j]].0 {
                    Some(k - 1)
                } else {
                    b
                },
            }
        } else {
            b
        }
    }
}

/// Up to `n` records taken one at a time, each the newest next record over
/// all lists.
pub open spec fn merge_newest(lists: Seq<Seq<RecordView>>, pos: Seq<int>, n: nat) -> Seq<RecordView>
    decreases n,
{
    if n == 0 {
        Seq::empty()
    } else {
        match newest_head(lists, pos, lists.len() as int) {
            None => Seq::empty(),
            Some(j) => seq![lists[j][pos[j]]] + merge_newest(lists, pos.update(j, pos[j] + 1), (n - 1) as nat),
        }
    }
}

/// The sum of the lengths of `lists`.
pub open spec fn total_len(lists: Seq<Seq<RecordView>>) -> nat
    decreases lists.len(),
{
    if lists.len() == 0 {
        0
    } else {
        total_len(lists.drop_last()) + lists.last().len()
    }
}

proof fn lemma_newest_head(lists: Seq<Seq<RecordView>>, pos: Seq<int>, k: int)
    requires
        0 <= k <= lists.len(),
        pos.len() == lists.len(),
        forall|i: int| 0 <= i < pos.len() ==> 0 <= #[trigger] pos[i] <= lists[i].len(),
    ensures
        newest_head(lists, pos, k) matches Some(j) ==> 0 <= j < k && pos[j] < lists[j].len(),
        newest_head(lists, pos, k) is None ==> forall|i: int| 0 <= i < k ==> pos[i] == lists[i].len(),
    decreases k,
{
    if k > 0 {
        lemma_newest_head(lists, pos, k - 1);
    }
}

/// How many records are left after `pos` in the first `k` lists.
pub open spec fn remaining(lists: Seq<Seq<RecordView>>, pos: Seq<int>, k: int) -> int
    decreases k,
{
    if k <= 0 {
        0
    } else {
        remaining(lists, pos, k - 1) + (lists[k - 1].len() - pos[k - 1])
    }
}

proof fn lemma_remaining_step(lists: Seq<Seq<RecordView>>, pos: Seq<int>, b: int, k: int)
    requires
        0 <= b < pos.len(),
        0 <= k <= pos.len(),
    ensures
        remaining(lists, pos.update(b, pos[b] + 1), k) == remaining(lists, pos, k) - if b < k {
            1int
        } else {
            0int
        },
    decreases k,
{
    if k > 0 {
        lemma_remaining_step(lists, pos, b, k - 1);
    }
}

proof fn lemma_remaining_positive(lists: Seq<Seq<RecordView>>, pos: Seq<int>, b: int, k: int)
    requires
        0 <= b < k <= pos.len(),
        pos.len() == lists.len(),
        forall|i: int| 0 <= i < pos.len() ==> 0 <= #[trigger] pos[i] <= lists[i].len(),
        pos[b] < lists[b].len(),
    ensures
        remaining(lists, pos, k) >= 1,
    decreases k,
{
    if b < k - 1 {
        lemma_remaining_positive(lists, pos, b, k - 1);
    }
    lemma_remaining_nonneg(lists, pos, k - 1);
}

proof fn lemma_remaining_nonneg(lists: Seq<Seq<RecordView>>, pos: Seq<int>, k: int)
    requires
        k <= pos.len(),
        pos.len() == lists.len(),
        forall|i: int| 0 <= i < pos.len() ==> 0 <= #[trigger] pos[i] <= lists[i].len(),
    ensures
        remaining(lists, pos, k) >= 0,
    decreases k,
{
    if k > 0 {
        lemma_remaining_nonneg(lists, pos, k - 1);
    }
}

proof fn lemma_remaining_start(lists: Seq<Seq<RecordView>>, pos: Seq<int>, k: int)
    requires
        0 <= k <= lists.len(),
        pos.len() == lists.len(),
        forall|i: int| 0 <= i < pos.len() ==> pos[i] == 0,
    ensures
        remaining(lists, pos, k) == total_len(lists.subrange(0, k)),
    decreases k,
{
    if k > 0 {
        assert(lists.subrange(0, k).drop_last() =~= lists.subrange(0, k - 1));
        lemma_remaining_start(lists, pos, k - 1);
    }
}

/// The view of every list.
pub open spec fn lists_view(lists: Seq<Vec<UFOsRecord>>) -> Seq<Seq<RecordView>> {
    lists.map_values(|l: Vec<UFOsRecord>| l@.map_values(|r: UFOsRecord| r@))
}

/// A copy of a record.
pub fn copy_record(r: &UFOsRecord) -> (c: UFOsRecord)
    ensures
        c@ == r@,
{
    UFOsRecord {
        cursor: r.cursor,
        did: bytes_to_vec(r.did.as_slice()),
        collection: bytes_to_vec(r.collection.as_slice()),
        rkey: bytes_to_vec(r.rkey.as_slice()),
        rev: bytes_to_vec(r.rev.as_slice()),
        record: bytes_to_vec(r.record.as_slice()),
        is_update: r.is_update,
    }
}

/// Merges per-collection record lists, each newest first, into one list
/// newest first: repeatedly the newest next record over all lists (the
/// earlier list on ties). Takes `limit` records in all, or, when
/// `expand_each_collection`, every record given (each list then holds up to
/// `limit` of its own).
pub fn merge_records(lists: &Vec<Vec<UFOsRecord>>, limit: usize, expand_each_collection: bool) -> (r:
    Vec<UFOsRecord>)
    ensures
        r@.map_values(|x: UFOsRecord| x@) == merge_newest(
            lists_view(lists@),
            Seq::new(lists@.len(), |i: int| 0int),
            if expand_each_collection {
                total_len(lists_view(lists@))
            } else {
                limit as nat
            },
        ),
{
    let ghost lv = lists_view(lists@);
    let ghost goal: nat = if expand_each_collection {
        total_len(lv)
    } else {
        limit as nat
    };
    let mut pos: Vec<usize> = Vec::new();
    let mut k: usize = 0;
    while k < lists.len()
        invariant
            k <= lists@.len(),
            pos@.len() == k,
            forall|i: int| 0 <= i < k ==> pos@[i] == 0,
        decreases lists@.len() - k,
    {
        pos.push(0);
        k = k + 1;
    }
    let ghost zeros = Seq::new(lists@.len(), |i: int| 0int);
    assert(pos@.map_values(|p: usize| p as int) =~= zeros);
    let mut out: Vec<UFOsRecord> = Vec::new();
    let ghost mut fuel: nat = goal;
    proof {
        lemma_remaining_start(lv, zeros, lv.len() as int);
        assert(lv.subrange(0, lv.len() as int) =~= lv);
    }
    loop
        invariant
            lv == lists_view(lists@),
            lv.len() == lists@.len(),
            pos@.len() == lists@.len(),
            forall|i: int| 0 <= i < pos@.len() ==> pos@[i] <= lists@[i]@.len(),
            expand_each_collection || fuel + out@.len() == limit,
            expand_each_collection ==> fuel == remaining(
                lv,
                pos@.map_values(|p: usize| p as int),
                lv.len() as int,
            ),
            out@.map_values(|x: UFOsRecord| x@) + merge_newest(
                lv,
                pos@.map_values(|p: usize| p as int),
                fuel,
            ) == merge_newest(lv, zeros, goal),
        ensures
            out@.map_values(|x: UFOsRecord| x@) == merge_newest(lv, zeros, goal),
        decreases fuel,
    {
        let ghost posv = pos@.map_values(|p: usize| p as int);
        if !expand_each_collection && out.len() >= limit {
            assert(fuel == 0);
            assert(out@.map_values(|x: UFOsRecord| x@) =~= merge_newest(lv, zeros, goal));
            break;
        }
        let mut best: Option<usize> = None;
        let mut i: usize = 0;
        while i < lists.len()
            invariant
                lv == lists_view(lists@),
                lv.len() == lists@.len(),
                pos@.len() == lists@.len(),
                posv == pos@.map_values(|p: usize| p as int),
                forall|j: int| 0 <= j < pos@.len() ==> pos@[j] <= lists@[j]@.len(),
                i <= lists@.len(),
                best matches Some(b) ==> newest_head(lv, posv, i as int) == Some(b as int),
                best is None ==> newest_head(lv, posv, i as int) is None,
            decreases lists@.len() - i,
        {
            proof {
                lemma_newest_head(lv, posv, i as int);
            }
            if pos[i] < lists[i].len() {
                match best {
                    None => {
                        best = Some(i);
                    },
                    Some(b) => {
                        if lists[i][pos[i]].cursor > lists[b][pos[b]].cursor {
                            best = Some(i);
                        }
                    },
                }
            }
            i = i + 1;
        }
        proof {
            lemma_newest_head(lv, posv, lv.len() as int);
        }
        match best {
            None => {
                proof {
                    if fuel > 0 {
                        assert(merge_newest(lv, posv, fuel) == Seq::<RecordView>::empty());
                    }
                }
                assert(out@.map_values(|x: UFOsRecord| x@) =~= merge_newest(lv, zeros, goal));
                break;
            },
            Some(b) => {
                proof {
                    if expand_each_collection {
                        lemma_remaining_positive(lv, posv, b as int, lv.len() as int);
                        lemma_remaining_step(lv, posv, b as int, lv.len() as int);
                    }
                }
                let rec = copy_record(&lists[b][pos[b]]);
                let ghost before = out@.map_values(|x: UFOsRecord| x@);
                out.push(rec);
                assert(lv[b as int] == lists@[b as int]@.map_values(|r: UFOsRecord| r@));
                assert(posv[b as int] < lv[b as int].len());
                assert(pos@[b as int] < lists@[b as int]@.len());
                let blen = lists[b].len();
                assert(pos[b as int] < blen);
                let nb = pos[b] + 1;
                pos.set(b, nb);
                proof {
                    assert(out@.map_values(|x: UFOsRecord| x@) =~= before.push(rec@));
                    assert(pos@.map_values(|p: usize| p as int) =~= posv.update(b as int, posv[b as int] + 1));
                    assert(rec@ == lv[b as int][posv[b as int]]);
                    assert(merge_newest(lv, posv, fuel) =~= seq![rec@] + merge_newest(
                        lv,
                        posv.update(b as int, posv[b as int] + 1),
                        (fuel - 1) as nat,
                    ));
                    assert(before.push(rec@) + merge_newest(
                        lv,
                        posv.update(b as int, posv[b as int] + 1),
                        (fuel - 1) as nat,
                    ) =~= before + merge_newest(lv, posv, fuel));
                    fuel = (fuel - 1) as nat;
                }
            },
        }
    }
    out
}

/// The counts of a collection: its all-time cell (`ever`, if there is
/// one) plus every live cell of it among `live_rows`, the live cells after
/// the roll-up cursor as raw key and value bytes. Gives the record count
/// and the estimate of the merged sketch.
pub fn fold_counts(nsid: &[u8], ever: Option<&[u8]>, live_rows: &Vec<(Vec<u8>, Vec<u8>)>) -> (r:
    Result<(u64, u64), RollupError>)
    ensures
        r matches Ok((records, _)) ==> records == (match ever {
            Some(b) => be64_at(b@, 0) as int,
            None => 0int,
        }) + rows_sum(live_rows@, live_rows@.len() as int, nsid@),
        r matches Ok((_, est)) ==> exists|start: Sketch<14>|
            (ever matches Some(b) ==> start == cell_sketch(b@)) && (ever is None ==> estimate_of(
                start,
            ) == 0) && est == estimate_of(
                rows_union(start, live_rows@, live_rows@.len() as int, nsid@),
            ),
        (ever matches Some(b) && b@.len() < 8) ==> r is Err,
        ((ever matches Some(b) ==> cell_ok(b@)) && (forall|i: int|
            0 <= i < live_rows@.len() ==> live_row_ok(#[trigger] live_rows@[i], nsid@)) && (match ever {
            Some(b) => be64_at(b@, 0) as int,
            None => 0int,
        }) + rows_sum(live_rows@, live_rows@.len() as int, nsid@) <= u64::MAX) ==> r is Ok,
{
    let mut total = match ever {
        Some(b) => CountsCell::from_db_bytes(b)?,
        None => CountsCell::new(),
    };
    let ghost base: int = total.records as int;
    let ghost start = total.dids;
    let mut i: usize = 0;
    while i < live_rows.len()
        invariant
            i <= live_rows@.len(),
            total.records == base + rows_sum(live_rows@, i as int, nsid@),
            total.dids == rows_union(start, live_rows@, i as int, nsid@),
            base == (match ever {
                Some(b) => be64_at(b@, 0) as int,
                None => 0int,
            }),
        decreases live_rows@.len() - i,
    {
        proof {
            if live_row_ok(live_rows@[i as int], nsid@) {
                let (c0, n0) = choose|c: u64, n: Seq<u8>|
                    no_nul(n) && live_rows@[i as int].0@ == live_counts_key_spec(c, n);
                crate::rollup::lemma_live_key_parts(c0, n0);
            }
            lemma_rows_sum_grows(live_rows@, i as int + 1, live_rows@.len() as int, nsid@);
        }
        let (n_cursor, n) = match decode_live_counts_key(live_rows[i].0.as_slice()) {
            Ok(x) => x,
            Err(e) => {
                return Err(RollupError::Decode(e));
            },
        };
        if bytes_eq(n.as_slice(), nsid) {
            let counts = CountsCell::from_db_bytes(live_rows[i].1.as_slice())?;
            assert(rows_sum(live_rows@, i + 1, nsid@) == rows_sum(live_rows@, i as int, nsid@)
                + counts.records);
            total.merge(&counts)?;
        }
        i = i + 1;
    }
    let est = total.estimate();
    Ok((total.records, est))
}

/// Whether a live row has a well-formed key and, when it belongs to `nsid`,
/// a well-formed cell.
pub open spec fn live_row_ok(row: (Vec<u8>, Vec<u8>), nsid: Seq<u8>) -> bool {
    &&& exists|c: u64, n: Seq<u8>| no_nul(n) && row.0@ == live_counts_key_spec(c, n)
    &&& live_key_nsid(row.0@) == nsid ==> cell_ok(row.1@)
}

/// `start` merged with the sketches of the live cells `rows[0..n]` that
/// belong to `nsid`.
pub open spec fn rows_union(start: Sketch<14>, rows: Seq<(Vec<u8>, Vec<u8>)>, n: int, nsid: Seq<u8>) -> Sketch<14>
    decreases n,
{
    if n <= 0 {
        start
    } else {
        let prev = rows_union(start, rows, n - 1, nsid);
        if live_key_nsid(rows[n - 1].0@) == nsid {
            sketch_union(prev, cell_sketch(rows[n - 1].1@))
        } else {
            prev
        }
    }
}

proof fn lemma_rows_sum_grows(rows: Seq<(Vec<u8>, Vec<u8>)>, i: int, j: int, nsid: Seq<u8>)
    requires
        i <= j,
    ensures
        rows_sum(rows, i, nsid) <= rows_sum(rows, j, nsid),
    decreases j - i,
{
    if i < j {
        lemma_rows_sum_grows(rows, i, j - 1, nsid);
    }
}

proof fn lemma_ever_rank_layout(k: Seq<u8>, m: Metric, v: u64, n: Seq<u8>)
    requires
        no_nul(n),
        k == rank_key_spec(Period::AllTime, m, v, n),
    ensures
        ({
            let t = tag_key(rank_tag(Period::AllTime, m));
            &&& k.subrange(0, t.len() as int) == t
            &&& u64_at(k, t.len() as int, v)
            &&& str_at(k, t.len() + 8int, n)
            &&& k.len() == t.len() + 9 + n.len()
        }),
{
    let t = tag_key(rank_tag(Period::AllTime, m));
    assert(k =~= t + be64(v) + nul_str(n));
    assert(k.subrange(0, t.len() as int) =~= t);
    assert(k.subrange(t.len() as int, t.len() + 8int) =~= be64(v));
    assert(k.subrange(t.len() + 8int, t.len() + 9int + n.len()) =~= nul_str(n));
}

/// A rank row key of the all-time index of `m`, read back: the value and
/// the collection. Every such key written for a collection without zero
/// bytes reads back.
pub fn decode_ever_rank_key(m: Metric, k: &[u8]) -> (r: Result<(u64, Vec<u8>), EncodingError>)
    ensures
        r matches Ok((v, n)) ==> k@ == rank_key_spec(Period::AllTime, m, v, n@) && no_nul(n@),
        forall|v: u64, n: Seq<u8>|
            no_nul(n) && k@ == rank_key_spec(Period::AllTime, m, v, n) ==> (r matches Ok((v2, n2))
                && v2 == v && n2@ == n),
{
    let ghost written = exists|v: u64, n: Seq<u8>| no_nul(n) && k@ == rank_key_spec(Period::AllTime, m, v, n);
    let ghost (w_v, w_n) = if written {
        choose|v: u64, n: Seq<u8>| no_nul(n) && k@ == rank_key_spec(Period::AllTime, m, v, n)
    } else {
        (0u64, Seq::empty())
    };
    let t = match m {
        Metric::Records => Tag::EverRankRecords,
        Metric::Dids => Tag::EverRankDids,
    };
    let tag = static_key(t);
    proof {
        if written {
            lemma_ever_rank_layout(k@, m, w_v, w_n);
            lemma_str_at(k@, tag@.len() + 8int, w_n);
        }
    }
    if !starts_with(k, tag.as_slice()) {
        return Err(EncodingError::NotEnoughBytes);
    }
    let (v, at) = match crate::codec::read_u64(k, tag.len()) {
        Some(x) => x,
        None => {
            return Err(EncodingError::NotEnoughBytes);
        },
    };
    let (n, end) = match crate::codec::read_str(k, at) {
        Some(x) => x,
        None => {
            return Err(EncodingError::NotEnoughBytes);
        },
    };
    proof {
        if written {
            lemma_str_at_end(k@, at as int, w_n, end as int);
        }
    }
    if end != k.len() {
        return Err(EncodingError::UnexpectedTrailingBytes);
    }
    proof {
        crate::codec::lemma_be64_bytes(k@, tag@.len() as int);
        assert(k@ =~= rank_key_spec(Period::AllTime, m, v, n@));
        assert forall|v0: u64, n0: Seq<u8>|
            no_nul(n0) && k@ == rank_key_spec(Period::AllTime, m, v0, n0) implies v == v0 && n@
            == n0 by {
            lemma_ever_rank_layout(k@, m, v0, n0);
            crate::codec::lemma_u64_at(k@, tag@.len() as int, v0);
            lemma_str_at_end(k@, at as int, n0, end as int);
        }
    }
    Ok((v, n))
}

/// Checks a rank row against the all-time cell of its collection (`cell`,
/// as stored) and gives the collection's counts. A missing cell, or a cell
/// whose count (for `Metric::Records`) or estimate (for `Metric::Dids`)
/// differs from the row's value, is an integrity error.
pub fn check_top_entry(m: Metric, value: u64, nsid: Vec<u8>, cell: Option<&[u8]>) -> (r: Result<
    NsidCount,
    StorageError,
>)
    ensures
        cell is None ==> r matches Err(StorageError::IntegrityError(_)),
        (cell matches Some(b) && b@.len() >= 8 && m == Metric::Records && be64_at(b@, 0) != value)
            ==> r is Err,
        (cell matches Some(b) && cell_ok(b@) && m == Metric::Dids && estimate_of(cell_sketch(b@))
            != value) ==> r is Err,
        (cell matches Some(b) && cell_ok(b@) && (m == Metric::Records ==> be64_at(b@, 0) == value)
            && (m == Metric::Dids ==> estimate_of(cell_sketch(b@)) == value)) ==> r is Ok,
        r matches Ok(c) ==> {
            &&& c.nsid == nsid
            &&& cell matches Some(b) && b@.len() >= 8 && c.records == be64_at(b@, 0)
                && c.dids_estimate == estimate_of(cell_sketch(b@))
            &&& m == Metric::Records ==> c.records == value
            &&& m == Metric::Dids ==> c.dids_estimate == value
        },
{
    let bytes = match cell {
        Some(b) => b,
        None => {
            return Err(
                StorageError::IntegrityError(
                    String::from_str("rank row names a collection without an all-time cell"),
                ),
            );
        },
    };
    let counts = match CountsCell::from_db_bytes(bytes) {
        Ok(c) => c,
        Err(e) => {
            return Err(StorageError::RollupError(e));
        },
    };
    let est = counts.estimate();
    let matches = match m {
        Metric::Records => counts.records == value,
        Metric::Dids => est == value,
    };
    if !matches {
        return Err(
            StorageError::IntegrityError(
                String::from_str("rank row value differs from its all-time cell"),
            ),
        );
    }
    Ok(NsidCount { nsid, records: counts.records, dids_estimate: est })
}

proof fn lemma_ever_counts_layout(k: Seq<u8>, n: Seq<u8>)
    requires
        no_nul(n),
        k == counts_key_spec(Period::AllTime, n),
    ensures
        k.subrange(0, tag_key(Tag::EverCounts).len() as int) == tag_key(Tag::EverCounts),
        str_at(k, tag_key(Tag::EverCounts).len() as int, n),
        k.len() == tag_key(Tag::EverCounts).len() + 1 + n.len(),
{
    let t = tag_key(Tag::EverCounts);
    assert(k =~= t + nul_str(n));
    assert(k.subrange(0, t.len() as int) =~= t);
    assert(k.subrange(t.len() as int, t.len() + 1int + n.len()) =~= nul_str(n));
}

/// An all-time counts key read back: the collection. Every such key
/// written for a collection without zero bytes reads back.
pub fn decode_ever_counts_key(k: &[u8]) -> (r: Result<Vec<u8>, EncodingError>)
    ensures
        r matches Ok(n) ==> k@ == counts_key_spec(Period::AllTime, n@) && no_nul(n@),
        forall|n: Seq<u8>|
            no_nul(n) && k@ == counts_key_spec(Period::AllTime, n) ==> (r matches Ok(n2) && n2@ == n),
{
    let ghost written = exists|n: Seq<u8>| no_nul(n) && k@ == counts_key_spec(Period::AllTime, n);
    let ghost w_n = if written {
        choose|n: Seq<u8>| no_nul(n) && k@ == counts_key_spec(Period::AllTime, n)
    } else {
        Seq::empty()
    };
    let tag = static_key(Tag::EverCounts);
    proof {
        if written {
            lemma_ever_counts_layout(k@, w_n);
            lemma_str_at(k@, tag@.len() as int, w_n);
        }
    }
    if !starts_with(k, tag.as_slice()) {
        return Err(EncodingError::NotEnoughBytes);
    }
    let (n, end) = match crate::codec::read_str(k, tag.len()) {
        Some(x) => x,
        None => {
            return Err(EncodingError::NotEnoughBytes);
        },
    };
    proof {
        if written {
            lemma_str_at_end(k@, tag@.len() as int, w_n, end as int);
        }
    }
    if end != k.len() {
        return Err(EncodingError::UnexpectedTrailingBytes);
    }
    assert(k@ =~= counts_key_spec(Period::AllTime, n@));
    proof {
        assert forall|n0: Seq<u8>| no_nul(n0) && k@ == counts_key_spec(Period::AllTime, n0) implies n@
            == n0 by {
            lemma_ever_counts_layout(k@, n0);
            lemma_str_at_end(k@, tag@.len() as int, n0, end as int);
        }
    }
    Ok(n)
}

/// Where a page of all collections starts: the first all-time cell when
/// there is no continuation (`true`: the bound is inclusive); else the
/// cell of the collection that the continuation names (`false`: exclusive).
pub fn all_collections_start(cursor: Option<&[u8]>) -> (r: Result<(Vec<u8>, bool), EncodingError>)
    ensures
        cursor is None ==> (r matches Ok((k, true)) && k@ == tag_key(Tag::EverCounts)),
        r matches Ok((k, false)) ==> cursor matches Some(c) && exists|n: Seq<u8>|
            c@ == nul_str(n) && k@ == counts_key_spec(Period::AllTime, n),
        forall|n: Seq<u8>|
            #![trigger nul_str(n)]
            cursor is Some && no_nul(n) && cursor->Some_0@ == nul_str(n) ==> (r matches Ok((k, inc))
                && !inc && k@ == counts_key_spec(Period::AllTime, n)),
{
    match cursor {
        None => Ok((static_key(Tag::EverCounts), true)),
        Some(c) => {
            let ghost written = exists|n: Seq<u8>| no_nul(n) && c@ == nul_str(n);
            let ghost w_n = if written {
                choose|n: Seq<u8>| no_nul(n) && c@ == nul_str(n)
            } else {
                Seq::empty()
            };
            proof {
                if written {
                    assert(c@.subrange(0, w_n.len() + 1int) =~= nul_str(w_n));
                    assert(str_at(c@, 0, w_n));
                    lemma_str_at(c@, 0, w_n);
                }
            }
            let (n, end) = match crate::codec::read_str(c, 0) {
                Some(x) => x,
                None => {
                    return Err(EncodingError::NotEnoughBytes);
                },
            };
            proof {
                if written {
                    lemma_str_at_end(c@, 0, w_n, end as int);
                }
            }
            if end != c.len() {
                return Err(EncodingError::UnexpectedTrailingBytes);
            }
            assert(c@ =~= nul_str(n@));
            proof {
                assert forall|n0: Seq<u8>| no_nul(n0) && c@ == nul_str(n0) implies n@ == n0 by {
                    assert(c@.subrange(0, n0.len() + 1int) =~= nul_str(n0));
                    lemma_str_at_end(c@, 0, n0, end as int);
                }
            }
            let k = counts_key(Period::AllTime, n.as_slice())?;
            Ok((k, false))
        },
    }
}

/// The first key past every all-time cell.
pub fn ever_counts_range_end() -> (r: Vec<u8>)
    ensures
        r@ == crate::keys::tag_bytes(Tag::EverCounts).push(1u8),
{
    let mut out: Vec<u8> = Vec::new();
    let b = "ever_counts".as_bytes();
    crate::codec::push_bytes(&mut out, b);
    out.push(1u8);
    out
}

/// One page of all collections from the all-time cells `rows` (raw key
/// and value bytes, in key order, starting at the page's start): up to
/// `limit` counts, and, when the page is full, the continuation that names
/// its last collection.
pub fn page_all_collections(rows: &Vec<(Vec<u8>, Vec<u8>)>, limit: usize) -> (r: Result<
    (Vec<NsidCount>, Option<Vec<u8>>),
    StorageError,
>)
    ensures
        r matches Ok((page, next)) ==> {
            &&& page@.len() == if rows@.len() < limit {
                rows@.len() as int
            } else {
                limit as int
            }
            &&& forall|i: int|
                0 <= i < page@.len() ==> rows@[i].0@ == counts_key_spec(
                    Period::AllTime,
                    (#[trigger] page@[i]).nsid@,
                ) && rows@[i].1@.len() >= 8 && page@[i].records == be64_at(rows@[i].1@, 0)
                    && page@[i].dids_estimate == estimate_of(cell_sketch(rows@[i].1@))
            &&& next is Some <==> (limit > 0 && rows@.len() >= limit)
            &&& next matches Some(c) ==> c@ == nul_str(page@[limit - 1].nsid@)
        },
        (forall|i: int|
            0 <= i < rows@.len() && i < limit ==> (exists|n: Seq<u8>|
                no_nul(n) && rows@[i].0@ == #[trigger] counts_key_spec(Period::AllTime, n)) && cell_ok(
                rows@[i].1@,
            )) ==> r is Ok,
{
    let mut page: Vec<NsidCount> = Vec::new();
    let mut next: Option<Vec<u8>> = None;
    let mut i: usize = 0;
    while i < rows.len() && i < limit
        invariant
            i <= rows@.len(),
            i <= limit,
            page@.len() == i,
            forall|j: int|
                0 <= j < i ==> rows@[j].0@ == counts_key_spec(
                    Period::AllTime,
                    (#[trigger] page@[j]).nsid@,
                ) && rows@[j].1@.len() >= 8 && page@[j].records == be64_at(rows@[j].1@, 0)
                    && page@[j].dids_estimate == estimate_of(cell_sketch(rows@[j].1@)),
            next is Some <==> (limit > 0 && i == limit),
            next matches Some(c) ==> c@ == nul_str(page@[limit - 1].nsid@),
        decreases rows@.len() - i,
    {
        proof {
            if exists|n: Seq<u8>| no_nul(n) && rows@[i as int].0@ == counts_key_spec(Period::AllTime, n) {
                let n0 = choose|n: Seq<u8>| no_nul(n) && rows@[i as int].0@ == counts_key_spec(Period::AllTime, n);
            }
        }
        let n = match decode_ever_counts_key(rows[i].0.as_slice()) {
            Ok(n) => n,
            Err(e) => {
                return Err(StorageError::DecodeError(e));
            },
        };
        let counts = match CountsCell::from_db_bytes(rows[i].1.as_slice()) {
            Ok(c) => c,
            Err(e) => {
                return Err(StorageError::RollupError(e));
            },
        };
        let est = counts.estimate();
        if i + 1 == limit {
            let mut c: Vec<u8> = Vec::new();
            crate::codec::push_str(&mut c, n.as_slice());
            assert(c@ =~= nul_str(n@));
            next = Some(c);
        }
        let ghost nv = n@;
        let ghost before = page@;
        page.push(NsidCount { nsid: n, records: counts.records, dids_estimate: est });
        proof {
            assert forall|j: int| 0 <= j < i + 1 implies rows@[j].0@ == counts_key_spec(
                Period::AllTime,
                (#[trigger] page@[j]).nsid@,
            ) && rows@[j].1@.len() >= 8 && page@[j].records == be64_at(rows@[j].1@, 0)
                && page@[j].dids_estimate == estimate_of(cell_sketch(rows@[j].1@)) by {
                if j < i {
                    assert(page@[j] == before[j]);
                } else {
                    assert(page@[j].nsid@ == nv);
                }
            }
        }
        i = i + 1;
    }
    Ok((page, next))
}

/// Where the run of equal values that holds `i` starts.
pub open spec fn run_start(s: Seq<u64>, i: int) -> int
    decreases i,
{
    if i > 0 && i < s.len() && s[i - 1] == s[i] {
        run_start(s, i - 1)
    } else {
        i
    }
}

/// Where the run of equal values that holds `i` ends (exclusive).
pub open spec fn run_end(s: Seq<u64>, i: int) -> int
    decreases s.len() - i,
{
    if 0 <= i && i + 1 < s.len() && s[i + 1] == s[i] {
        run_end(s, i + 1)
    } else {
        i + 1
    }
}

/// The place that `i` takes when each run of equal values is reversed.
pub open spec fn mirror(s: Seq<u64>, i: int) -> int {
    run_start(s, i) + run_end(s, i) - 1 - i
}

proof fn lemma_run_bounds(s: Seq<u64>, a: int, b: int, i: int)
    requires
        0 <= a <= i < b <= s.len(),
        a == 0 || s[a - 1] != s[a],
        b == s.len() || s[b] != s[b - 1],
        forall|j: int| a <= j < b ==> s[j] == s[a],
    ensures
        run_start(s, i) == a,
        run_end(s, i) == b,
    decreases i - a + (b - i),
{
    if i > a {
        lemma_run_start_at(s, a, b, i);
    }
    lemma_run_end_at(s, a, b, i);
}

proof fn lemma_run_start_at(s: Seq<u64>, a: int, b: int, i: int)
    requires
        0 <= a <= i < b <= s.len(),
        a == 0 || s[a - 1] != s[a],
        forall|j: int| a <= j < b ==> s[j] == s[a],
    ensures
        run_start(s, i) == a,
    decreases i - a,
{
    if i > a {
        lemma_run_start_at(s, a, b, i - 1);
    }
}

proof fn lemma_run_end_at(s: Seq<u64>, a: int, b: int, i: int)
    requires
        0 <= a <= i < b <= s.len(),
        b == s.len() || s[b] != s[b - 1],
        forall|j: int| a <= j < b ==> s[j] == s[a],
    ensures
        run_end(s, i) == b,
    decreases b - i,
{
    if i + 1 < b {
        lemma_run_end_at(s, a, b, i + 1);
    }
}

/// Orders rank rows, read newest-last-key first (largest value first, and
/// among equal values the larger collection name first), so that equal
/// values list their collections in ascending order; then keeps `limit`.
/// The rows must include every row that ties with the last one kept.
pub fn order_rank_rows(rows: &Vec<(u64, Vec<u8>)>, limit: usize) -> (r: Vec<(u64, Vec<u8>)>)
    ensures
        r@.len() == if rows@.len() < limit {
            rows@.len() as int
        } else {
            limit as int
        },
        forall|i: int|
            #![trigger r@[i]]
            0 <= i < r@.len() ==> r@[i].0 == rows@[mirror(
                rows@.map_values(|x: (u64, Vec<u8>)| x.0),
                i,
            )].0 && r@[i].1@ == rows@[mirror(rows@.map_values(|x: (u64, Vec<u8>)| x.0), i)].1@,
{
    let ghost vals = rows@.map_values(|x: (u64, Vec<u8>)| x.0);
    let mut out: Vec<(u64, Vec<u8>)> = Vec::new();
    let mut a: usize = 0;
    while a < rows.len() && out.len() < limit
        invariant
            vals == rows@.map_values(|x: (u64, Vec<u8>)| x.0),
            a <= rows@.len(),
            out@.len() <= limit,
            out@.len() == a || (out@.len() == limit && a >= limit),
            a == 0 || a == rows@.len() || vals[a - 1] != vals[a as int],
            forall|i: int|
                #![trigger out@[i]]
                0 <= i < out@.len() ==> out@[i].0 == rows@[mirror(vals, i)].0 && out@[i].1@
                    == rows@[mirror(vals, i)].1@,
        decreases rows@.len() - a,
    {
        let v = rows[a].0;
        let mut b: usize = a + 1;
        while b < rows.len() && rows[b].0 == v
            invariant
                vals == rows@.map_values(|x: (u64, Vec<u8>)| x.0),
                a < b <= rows@.len(),
                v == vals[a as int],
                forall|j: int| a <= j < b ==> vals[j] == v,
            decreases rows@.len() - b,
        {
            b = b + 1;
        }
        let mut k: usize = b;
        while k > a && out.len() < limit
            invariant
                vals == rows@.map_values(|x: (u64, Vec<u8>)| x.0),
                a < b <= rows@.len(),
                a <= k <= b,
                a == 0 || vals[a - 1] != vals[a as int],
                b == rows@.len() || vals[b as int] != vals[b - 1],
                forall|j: int| a <= j < b ==> vals[j] == vals[a as int],
                out@.len() <= limit,
                out@.len() == a + (b - k),
                forall|i: int|
                    #![trigger out@[i]]
                    0 <= i < out@.len() ==> out@[i].0 == rows@[mirror(vals, i)].0 && out@[i].1@
                        == rows@[mirror(vals, i)].1@,
            decreases k - a,
        {
            k = k - 1;
            let ghost i = out@.len() as int;
            proof {
                lemma_run_bounds(vals, a as int, b as int, i);
                assert(mirror(vals, i) == k);
            }
            out.push((rows[k].0, bytes_to_vec(rows[k].1.as_slice())));
        }
        a = b;
    }
    out
}

/// Whether a scan of a rank index, largest value first, reads its next
/// row (of value `next`) after `read` rows, the last of value `last`: while
/// fewer than `limit` were read, and then while the next row ties with the
/// last one, so that `order_rank_rows` sees every tie at the boundary.
pub fn keep_reading_rank(read: usize, last: Option<u64>, next: u64, limit: usize) -> (r: bool)
    ensures
        r == (read < limit || last == Some(next)),
{
    if read < limit {
        return true;
    }
    match last {
        Some(v) => v == next,
        None => false,
    }
}

/// One step of walking a collection's feed, newest first: keeps the record
/// that a feed entry resolved to (nothing for a dead entry) and says whether
/// the walk goes on, which it does while fewer than `limit` are kept.
pub fn collect_live(found: &mut Vec<UFOsRecord>, entry: Option<UFOsRecord>, limit: usize) -> (r: bool)
    ensures
        final(found)@.map_values(|x: UFOsRecord| x@) == match entry {
            Some(rec) => old(found)@.map_values(|x: UFOsRecord| x@).push(rec@),
            None => old(found)@.map_values(|x: UFOsRecord| x@),
        },
        r == (final(found)@.len() < limit),
{
    let ghost before = found@.map_values(|x: UFOsRecord| x@);
    match entry {
        Some(rec) => {
            found.push(rec);
            assert(found@.map_values(|x: UFOsRecord| x@) =~= before.push(rec@));
        },
        None => {},
    }
    found.len() < limit
}

} // verus!
