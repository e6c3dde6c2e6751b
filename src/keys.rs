//! The key schema: which bytes each partition's keys and values hold.
use vstd::prelude::*;
use vstd::string::*;
use crate::codec::{
    be64, be64_at, no_nul, nul_str, push_str, push_u64, push_bytes, read_str, read_u64,
    check_no_nul, EncodingError,
};

verus! {

/// Microseconds in an hour.
pub const HOUR_MICROS: u64 = 3_600_000_000;

/// Microseconds in a week.
pub const WEEK_MICROS: u64 = 604_800_000_000;

/// Microseconds from a Monday midnight to the Thursday midnight that the
/// epoch fell on.
pub const MONDAY_OFFSET_MICROS: u64 = 259_200_000_000;

/// The fixed names that start keys.
#[derive(Debug, Clone, Copy, PartialEq, Eq, Structural)]
pub enum Tag {
    JsCursor,
    JsEndpoint,
    Takeoff,
    SketchSecret,
    RollupCursor,
    TrimCursor,
    LiveCounts,
    HourlyCounts,
    WeeklyCounts,
    EverCounts,
    HourlyRankRecords,
    HourlyRankDids,
    WeeklyRankRecords,
    WeeklyRankDids,
    EverRankRecords,
    EverRankDids,
    DeleteAccount,
    ByCollection,
}

/// The bytes of each fixed name.
pub open spec fn tag_bytes(t: Tag) -> Seq<u8> {
    match t {
        Tag::JsCursor => "js_cursor".spec_bytes(),
        Tag::JsEndpoint => "js_endpoint".spec_bytes(),
        Tag::Takeoff => "takeoff".spec_bytes(),
        Tag::SketchSecret => "sketch_secret".spec_bytes(),
        Tag::RollupCursor => "rollup_cursor".spec_bytes(),
        Tag::TrimCursor => "trim_cursor".spec_bytes(),
        Tag::LiveCounts => "live_counts".spec_bytes(),
        Tag::HourlyCounts => "hourly_counts".spec_bytes(),
        Tag::WeeklyCounts => "weekly_counts".spec_bytes(),
        Tag::EverCounts => "ever_counts".spec_bytes(),
        Tag::HourlyRankRecords => "hourly_rank_records".spec_bytes(),
        Tag::HourlyRankDids => "hourly_rank_dids".spec_bytes(),
        Tag::WeeklyRankRecords => "weekly_rank_records".spec_bytes(),
        Tag::WeeklyRankDids => "weekly_rank_dids".spec_bytes(),
        Tag::EverRankRecords => "ever_rank_records".spec_bytes(),
        Tag::EverRankDids => "ever_rank_dids".spec_bytes(),
        Tag::DeleteAccount => "delete_account".spec_bytes(),
        Tag::ByCollection => "by_collection".spec_bytes(),
    }
}

/// The zero-terminated fixed name that starts a key.
pub open spec fn tag_key(t: Tag) -> Seq<u8> {
    nul_str(tag_bytes(t))
}

/// Writes the zero-terminated fixed name `t`.
pub fn push_tag(out: &mut Vec<u8>, t: Tag)
    ensures
        final(out)@ == old(out)@ + tag_key(t),
{
    let s: &str = match t {
        Tag::JsCursor => "js_cursor",
        Tag::JsEndpoint => "js_endpoint",
        Tag::Takeoff => "takeoff",
        Tag::SketchSecret => "sketch_secret",
        Tag::RollupCursor => "rollup_cursor",
        Tag::TrimCursor => "trim_cursor",
        Tag::LiveCounts => "live_counts",
        Tag::HourlyCounts => "hourly_counts",
        Tag::WeeklyCounts => "weekly_counts",
        Tag::EverCounts => "ever_counts",
        Tag::HourlyRankRecords => "hourly_rank_records",
        Tag::HourlyRankDids => "hourly_rank_dids",
        Tag::WeeklyRankRecords => "weekly_rank_records",
        Tag::WeeklyRankDids => "weekly_rank_dids",
        Tag::EverRankRecords => "ever_rank_records",
        Tag::EverRankDids => "ever_rank_dids",
        Tag::DeleteAccount => "delete_account",
        Tag::ByCollection => "by_collection",
    };
    let b = s.as_bytes();
    push_str(out, b);
}

/// The key of a fixed global entry.
pub fn static_key(t: Tag) -> (r: Vec<u8>)
    ensures
        r@ == tag_key(t),
{
    let mut out: Vec<u8> = Vec::new();
    push_tag(&mut out, t);
    assert(out@ =~= tag_key(t));
    out
}

/// The start of the hour that `cursor` falls in.
pub open spec fn hour_bucket(cursor: u64) -> u64 {
    (cursor - cursor % HOUR_MICROS) as u64
}

/// How far `cursor` lies past the Monday midnight that starts its week.
pub open spec fn into_week(cursor: u64) -> u64 {
    (((cursor % WEEK_MICROS) as int + MONDAY_OFFSET_MICROS as int) % (WEEK_MICROS as int)) as u64
}

/// The start of the Monday-to-Sunday week that `cursor` falls in; the
/// partial week before the first Monday after the epoch starts at zero.
pub open spec fn week_bucket(cursor: u64) -> u64 {
    if into_week(cursor) <= cursor {
        (cursor - into_week(cursor)) as u64
    } else {
        0
    }
}

/// Truncates a cursor to its hour.
pub fn hour_of(cursor: u64) -> (r: u64)
    ensures
        r == hour_bucket(cursor),
        r <= cursor,
        r % HOUR_MICROS == 0,
{
    let r = cursor - cursor % HOUR_MICROS;
    assert((cursor - cursor % HOUR_MICROS) % (HOUR_MICROS as int) == 0) by (nonlinear_arith);
    r
}

/// Truncates a cursor to the Monday that starts its week.
pub fn week_of(cursor: u64) -> (r: u64)
    ensures
        r == week_bucket(cursor),
        r <= cursor,
{
    let into = (cursor % WEEK_MICROS + MONDAY_OFFSET_MICROS) % WEEK_MICROS;
    if into <= cursor {
        cursor - into
    } else {
        0
    }
}

/// The three slices that counts are rolled into.
#[derive(Debug, Clone, Copy, PartialEq, Eq, Structural)]
pub enum Period {
    /// The hour that starts at the given cursor.
    Hourly(u64),
    /// The week that starts at the given cursor.
    Weekly(u64),
    /// All time.
    AllTime,
}

/// Which of the two rank indexes.
#[derive(Debug, Clone, Copy, PartialEq, Eq, Structural)]
pub enum Metric {
    Records,
    Dids,
}

pub open spec fn counts_tag(p: Period) -> Tag {
    match p {
        Period::Hourly(_) => Tag::HourlyCounts,
        Period::Weekly(_) => Tag::WeeklyCounts,
        Period::AllTime => Tag::EverCounts,
    }
}

pub open spec fn rank_tag(p: Period, m: Metric) -> Tag {
    match (p, m) {
        (Period::Hourly(_), Metric::Records) => Tag::HourlyRankRecords,
        (Period::Hourly(_), Metric::Dids) => Tag::HourlyRankDids,
        (Period::Weekly(_), Metric::Records) => Tag::WeeklyRankRecords,
        (Period::Weekly(_), Metric::Dids) => Tag::WeeklyRankDids,
        (Period::AllTime, Metric::Records) => Tag::EverRankRecords,
        (Period::AllTime, Metric::Dids) => Tag::EverRankDids,
    }
}

/// The bucket bytes that follow the name: none for all time.
pub open spec fn bucket_bytes(p: Period) -> Seq<u8> {
    match p {
        Period::Hourly(b) => be64(b),
        Period::Weekly(b) => be64(b),
        Period::AllTime => Seq::empty(),
    }
}

/// `"*_counts" ‖ bucket ‖ nsid`
pub open spec fn counts_key_spec(p: Period, nsid: Seq<u8>) -> Seq<u8> {
    tag_key(counts_tag(p)) + bucket_bytes(p) + nul_str(nsid)
}

/// `"*_rank_*" ‖ bucket ‖ value ‖ nsid`
pub open spec fn rank_key_spec(p: Period, m: Metric, value: u64, nsid: Seq<u8>) -> Seq<u8> {
    tag_key(rank_tag(p, m)) + bucket_bytes(p) + be64(value) + nul_str(nsid)
}

/// `"live_counts" ‖ cursor ‖ nsid`
pub open spec fn live_counts_key_spec(cursor: u64, nsid: Seq<u8>) -> Seq<u8> {
    tag_key(Tag::LiveCounts) + be64(cursor) + nul_str(nsid)
}

/// `nsid ‖ cursor`
pub open spec fn feed_key_spec(nsid: Seq<u8>, cursor: u64) -> Seq<u8> {
    nul_str(nsid) + be64(cursor)
}

/// `did ‖ rkey ‖ rev`
pub open spec fn feed_value_spec(did: Seq<u8>, rkey: Seq<u8>, rev: Seq<u8>) -> Seq<u8> {
    nul_str(did) + nul_str(rkey) + nul_str(rev)
}

/// `did ‖ nsid ‖ rkey`
pub open spec fn record_key_spec(did: Seq<u8>, nsid: Seq<u8>, rkey: Seq<u8>) -> Seq<u8> {
    nul_str(did) + nul_str(nsid) + nul_str(rkey)
}

/// The byte that stands for a flag.
pub open spec fn flag_byte(b: bool) -> u8 {
    if b {
        1u8
    } else {
        0u8
    }
}

/// `cursor ‖ is_update ‖ rev ‖ record`
pub open spec fn record_value_spec(cursor: u64, is_update: bool, rev: Seq<u8>, record: Seq<u8>) -> Seq<
    u8,
> {
    be64(cursor) + seq![flag_byte(is_update)] + nul_str(rev) + record
}

/// `"delete_account" ‖ cursor`
pub open spec fn queue_key_spec(cursor: u64) -> Seq<u8> {
    tag_key(Tag::DeleteAccount) + be64(cursor)
}

/// `"trim_cursor" ‖ nsid`
pub open spec fn trim_cursor_key_spec(nsid: Seq<u8>) -> Seq<u8> {
    tag_key(Tag::TrimCursor) + nul_str(nsid)
}

fn push_bucket(out: &mut Vec<u8>, p: Period)
    ensures
        final(out)@ == old(out)@ + bucket_bytes(p),
{
    match p {
        Period::Hourly(b) => push_u64(out, b),
        Period::Weekly(b) => push_u64(out, b),
        Period::AllTime => {
            assert(old(out)@ + bucket_bytes(p) =~= old(out)@);
        },
    }
}

/// Refuses a string that holds a zero byte.
fn checked(s: &[u8]) -> (r: Result<(), EncodingError>)
    ensures
        r is Ok <==> no_nul(s@),
        r matches Err(e) ==> e == EncodingError::StringContainsNull,
{
    if check_no_nul(s) {
        Ok(())
    } else {
        Err(EncodingError::StringContainsNull)
    }
}

/// The key of an aggregate counts cell.
pub fn counts_key(p: Period, nsid: &[u8]) -> (r: Result<Vec<u8>, EncodingError>)
    ensures
        r is Ok <==> no_nul(nsid@),
        r matches Ok(k) ==> k@ == counts_key_spec(p, nsid@),
        r matches Err(e) ==> e == EncodingError::StringContainsNull,
{
    checked(nsid)?;
    let mut out: Vec<u8> = Vec::new();
    let t = match p {
        Period::Hourly(_) => Tag::HourlyCounts,
        Period::Weekly(_) => Tag::WeeklyCounts,
        Period::AllTime => Tag::EverCounts,
    };
    push_tag(&mut out, t);
    push_bucket(&mut out, p);
    push_str(&mut out, nsid);
    assert(out@ =~= counts_key_spec(p, nsid@));
    Ok(out)
}

/// The key of a rank row.
pub fn rank_key(p: Period, m: Metric, value: u64, nsid: &[u8]) -> (r: Result<
    Vec<u8>,
    EncodingError,
>)
    ensures
        r is Ok <==> no_nul(nsid@),
        r matches Ok(k) ==> k@ == rank_key_spec(p, m, value, nsid@),
        r matches Err(e) ==> e == EncodingError::StringContainsNull,
{
    checked(nsid)?;
    let mut out: Vec<u8> = Vec::new();
    let t = match (p, m) {
        (Period::Hourly(_), Metric::Records) => Tag::HourlyRankRecords,
        (Period::Hourly(_), Metric::Dids) => Tag::HourlyRankDids,
        (Period::Weekly(_), Metric::Records) => Tag::WeeklyRankRecords,
        (Period::Weekly(_), Metric::Dids) => Tag::WeeklyRankDids,
        (Period::AllTime, Metric::Records) => Tag::EverRankRecords,
        (Period::AllTime, Metric::Dids) => Tag::EverRankDids,
    };
    push_tag(&mut out, t);
    push_bucket(&mut out, p);
    push_u64(&mut out, value);
    push_str(&mut out, nsid);
    assert(out@ =~= rank_key_spec(p, m, value, nsid@));
    Ok(out)
}

/// The key of a live counts cell.
pub fn live_counts_key(cursor: u64, nsid: &[u8]) -> (r: Result<Vec<u8>, EncodingError>)
    ensures
        r is Ok <==> no_nul(nsid@),
        r matches Ok(k) ==> k@ == live_counts_key_spec(cursor, nsid@),
        r matches Err(e) ==> e == EncodingError::StringContainsNull,
{
    checked(nsid)?;
    let mut out: Vec<u8> = Vec::new();
    push_tag(&mut out, Tag::LiveCounts);
    push_u64(&mut out, cursor);
    push_str(&mut out, nsid);
    assert(out@ =~= live_counts_key_spec(cursor, nsid@));
    Ok(out)
}

/// The key of a feed entry.
pub fn feed_key(nsid: &[u8], cursor: u64) -> (r: Result<Vec<u8>, EncodingError>)
    ensures
        r is Ok <==> no_nul(nsid@),
        r matches Ok(k) ==> k@ == feed_key_spec(nsid@, cursor),
        r matches Err(e) ==> e == EncodingError::StringContainsNull,
{
    checked(nsid)?;
    let mut out: Vec<u8> = Vec::new();
    push_str(&mut out, nsid);
    push_u64(&mut out, cursor);
    assert(out@ =~= feed_key_spec(nsid@, cursor));
    Ok(out)
}

/// The start that every feed key of `nsid` shares.
pub fn feed_prefix(nsid: &[u8]) -> (r: Result<Vec<u8>, EncodingError>)
    ensures
        r is Ok <==> no_nul(nsid@),
        r matches Ok(k) ==> k@ == nul_str(nsid@),
        r matches Err(e) ==> e == EncodingError::StringContainsNull,
{
    checked(nsid)?;
    let mut out: Vec<u8> = Vec::new();
    push_str(&mut out, nsid);
    assert(out@ =~= nul_str(nsid@));
    Ok(out)
}

/// The value of a feed entry.
pub fn feed_value(did: &[u8], rkey: &[u8], rev: &[u8]) -> (r: Result<Vec<u8>, EncodingError>)
    ensures
        r is Ok <==> no_nul(did@) && no_nul(rkey@) && no_nul(rev@),
        r matches Ok(v) ==> v@ == feed_value_spec(did@, rkey@, rev@),
        r matches Err(e) ==> e == EncodingError::StringContainsNull,
{
    checked(did)?;
    checked(rkey)?;
    checked(rev)?;
    let mut out: Vec<u8> = Vec::new();
    push_str(&mut out, did);
    push_str(&mut out, rkey);
    push_str(&mut out, rev);
    assert(out@ =~= feed_value_spec(did@, rkey@, rev@));
    Ok(out)
}

/// The key of a record.
pub fn record_key(did: &[u8], nsid: &[u8], rkey: &[u8]) -> (r: Result<Vec<u8>, EncodingError>)
    ensures
        r is Ok <==> no_nul(did@) && no_nul(nsid@) && no_nul(rkey@),
        r matches Ok(k) ==> k@ == record_key_spec(did@, nsid@, rkey@),
        r matches Err(e) ==> e == EncodingError::StringContainsNull,
{
    checked(did)?;
    checked(nsid)?;
    checked(rkey)?;
    let mut out: Vec<u8> = Vec::new();
    push_str(&mut out, did);
    push_str(&mut out, nsid);
    push_str(&mut out, rkey);
    assert(out@ =~= record_key_spec(did@, nsid@, rkey@));
    Ok(out)
}

/// The start that every record key of an account shares.
pub fn record_prefix(did: &[u8]) -> (r: Result<Vec<u8>, EncodingError>)
    ensures
        r is Ok <==> no_nul(did@),
        r matches Ok(k) ==> k@ == nul_str(did@),
        r matches Err(e) ==> e == EncodingError::StringContainsNull,
{
    feed_prefix(did)
}

/// The value of a record.
pub fn record_value(cursor: u64, is_update: bool, rev: &[u8], record: &[u8]) -> (r: Result<
    Vec<u8>,
    EncodingError,
>)
    ensures
        r is Ok <==> no_nul(rev@),
        r matches Ok(v) ==> v@ == record_value_spec(cursor, is_update, rev@, record@),
        r matches Err(e) ==> e == EncodingError::StringContainsNull,
{
    checked(rev)?;
    let mut out: Vec<u8> = Vec::new();
    push_u64(&mut out, cursor);
    out.push(if is_update {
        1u8
    } else {
        0u8
    });
    push_str(&mut out, rev);
    push_bytes(&mut out, record);
    assert(out@ =~= record_value_spec(cursor, is_update, rev@, record@));
    Ok(out)
}

/// The key of a queued account delete.
pub fn queue_key(cursor: u64) -> (r: Vec<u8>)
    ensures
        r@ == queue_key_spec(cursor),
{
    let mut out: Vec<u8> = Vec::new();
    push_tag(&mut out, Tag::DeleteAccount);
    push_u64(&mut out, cursor);
    out
}

/// The key of the trim cursor of a collection.
pub fn trim_cursor_key(nsid: &[u8]) -> (r: Result<Vec<u8>, EncodingError>)
    ensures
        r is Ok <==> no_nul(nsid@),
        r matches Ok(k) ==> k@ == trim_cursor_key_spec(nsid@),
        r matches Err(e) ==> e == EncodingError::StringContainsNull,
{
    checked(nsid)?;
    let mut out: Vec<u8> = Vec::new();
    push_tag(&mut out, Tag::TrimCursor);
    push_str(&mut out, nsid);
    Ok(out)
}

/// A number as a stored value.
pub fn u64_value(n: u64) -> (r: Vec<u8>)
    ensures
        r@ == be64(n),
{
    let mut out: Vec<u8> = Vec::new();
    push_u64(&mut out, n);
    assert(out@ =~= be64(n));
    out
}

/// Reads a stored number, which must fill the value.
pub fn read_u64_value(b: &[u8]) -> (r: Result<u64, EncodingError>)
    ensures
        r is Ok <==> b@.len() == 8,
        r matches Ok(n) ==> n == be64_at(b@, 0),
{
    match read_u64(b, 0) {
        None => Err(EncodingError::NotEnoughBytes),
        Some((n, next)) => {
            if next != b.len() {
                Err(EncodingError::UnexpectedTrailingBytes)
            } else {
                Ok(n)
            }
        },
    }
}

/// Whether `b` starts with `prefix`.
pub fn starts_with(b: &[u8], prefix: &[u8]) -> (r: bool)
    ensures
        r == (prefix@.len() <= b@.len() && b@.subrange(0, prefix@.len() as int) == prefix@),
{
    if prefix.len() > b.len() {
        return false;
    }
    let mut i: usize = 0;
    while i < prefix.len()
        invariant
            prefix@.len() <= b@.len(),
            i <= prefix@.len(),
            forall|j: int| 0 <= j < i ==> b@[j] == prefix@[j],
        decreases prefix@.len() - i,
    {
        if b[i] != prefix[i] {
            assert(b@.subrange(0, prefix@.len() as int)[i as int] != prefix@[i as int]);
            return false;
        }
        i = i + 1;
    }
    assert(b@.subrange(0, prefix@.len() as int) =~= prefix@);
    true
}

/// A feed key read back: the collection and the cursor.
pub fn decode_feed_key(b: &[u8]) -> (r: Result<(Vec<u8>, u64), EncodingError>)
    ensures
        r matches Ok((nsid, cursor)) ==> b@ == feed_key_spec(nsid@, cursor) && no_nul(nsid@),
        forall|nsid: Seq<u8>, cursor: u64|
            no_nul(nsid) && b@ == feed_key_spec(nsid, cursor) ==> (r matches Ok((n, c)) && n@
                == nsid && c == cursor),
{
    let (nsid, at) = match read_str(b, 0) {
        Some(x) => x,
        None => {
            proof {
                lemma_feed_key_has_nul(b@);
            }
            return Err(EncodingError::NotEnoughBytes);
        },
    };
    let (cursor, end) = match read_u64(b, at) {
        Some(x) => x,
        None => {
            proof {
                lemma_feed_key_shape(b@, nsid@, at as int);
            }
            return Err(EncodingError::NotEnoughBytes);
        },
    };
    if end != b.len() {
        proof {
            lemma_feed_key_shape(b@, nsid@, at as int);
        }
        return Err(EncodingError::UnexpectedTrailingBytes);
    }
    proof {
        lemma_feed_key_shape(b@, nsid@, at as int);
        assert(b@ =~= nul_str(nsid@) + b@.subrange(at as int, end as int));
        assert(b@.subrange(at as int, end as int) =~= be64(cursor)) by {
            crate::codec::lemma_be64_bytes(b@, at as int);
        }
    }
    Ok((nsid, cursor))
}

proof fn lemma_feed_key_has_nul(b: Seq<u8>)
    ensures
        forall|nsid: Seq<u8>, cursor: u64|
            no_nul(nsid) && b == feed_key_spec(nsid, cursor) ==> b[nsid.len() as int] == 0u8,
{
}

proof fn lemma_feed_key_shape(b: Seq<u8>, first: Seq<u8>, at: int)
    requires
        0 < at <= b.len(),
        b[at - 1] == 0u8,
        first == b.subrange(0, at - 1),
        no_nul(first),
    ensures
        forall|nsid: Seq<u8>, cursor: u64|
            no_nul(nsid) && b == feed_key_spec(nsid, cursor) ==> nsid == first && at
                == nsid.len() + 1 && b.len() == at + 8 && be64_at(b, at) == cursor,
{
    assert forall|nsid: Seq<u8>, cursor: u64|
        no_nul(nsid) && b == feed_key_spec(nsid, cursor) implies nsid == first && at == nsid.len()
        + 1 && b.len() == at + 8 && be64_at(b, at) == cursor by {
        assert(b == Seq::<u8>::empty() + nul_str(nsid) + be64(cursor)) by {
            assert(b =~= Seq::<u8>::empty() + nul_str(nsid) + be64(cursor));
        }
        assert forall|j: int| 0 <= j < at - 1 implies b[j] != 0u8 by {
            assert(b[j] == first[j]);
        }
        crate::codec::lemma_nul_str_read_back(Seq::<u8>::empty(), nsid, be64(cursor), at);
        assert(b.subrange(0, at - 1) == nsid);
        crate::codec::lemma_be64_round_trip_at(nul_str(nsid), cursor, Seq::<u8>::empty());
        assert(nul_str(nsid) + be64(cursor) + Seq::<u8>::empty() =~= b);
    }
}

} // verus!
verus! {

/// How many bytes each fixed name has.
pub open spec fn tag_len(t: Tag) -> nat {
    match t {
        Tag::JsCursor => 9,
        Tag::JsEndpoint => 11,
        Tag::Takeoff => 7,
        Tag::SketchSecret => 13,
        Tag::RollupCursor => 13,
        Tag::TrimCursor => 11,
        Tag::LiveCounts => 11,
        Tag::HourlyCounts => 13,
        Tag::WeeklyCounts => 13,
        Tag::EverCounts => 11,
        Tag::HourlyRankRecords => 19,
        Tag::HourlyRankDids => 16,
        Tag::WeeklyRankRecords => 19,
        Tag::WeeklyRankDids => 16,
        Tag::EverRankRecords => 17,
        Tag::EverRankDids => 14,
        Tag::DeleteAccount => 14,
        Tag::ByCollection => 13,
    }
}

/// Each fixed name has its length, and no zero byte.
pub proof fn lemma_tag_bytes(t: Tag)
    ensures
        no_nul(tag_bytes(t)),
        tag_bytes(t).len() == tag_len(t),
{
    broadcast use vstd::string::group_string_axioms;

    match t {
        Tag::JsCursor => {
            reveal_strlit("js_cursor");
            assert(is_ascii("js_cursor"));
        },
        Tag::JsEndpoint => {
            reveal_strlit("js_endpoint");
            assert(is_ascii("js_endpoint"));
        },
        Tag::Takeoff => {
            reveal_strlit("takeoff");
            assert(is_ascii("takeoff"));
        },
        Tag::SketchSecret => {
            reveal_strlit("sketch_secret");
            assert(is_ascii("sketch_secret"));
        },
        Tag::RollupCursor => {
            reveal_strlit("rollup_cursor");
            assert(is_ascii("rollup_cursor"));
        },
        Tag::TrimCursor => {
            reveal_strlit("trim_cursor");
            assert(is_ascii("trim_cursor"));
        },
        Tag::LiveCounts => {
            reveal_strlit("live_counts");
            assert(is_ascii("live_counts"));
        },
        Tag::HourlyCounts => {
            reveal_strlit("hourly_counts");
            assert(is_ascii("hourly_counts"));
        },
        Tag::WeeklyCounts => {
            reveal_strlit("weekly_counts");
            assert(is_ascii("weekly_counts"));
        },
        Tag::EverCounts => {
            reveal_strlit("ever_counts");
            assert(is_ascii("ever_counts"));
        },
        Tag::HourlyRankRecords => {
            reveal_strlit("hourly_rank_records");
            assert(is_ascii("hourly_rank_records"));
        },
        Tag::HourlyRankDids => {
            reveal_strlit("hourly_rank_dids");
            assert(is_ascii("hourly_rank_dids"));
        },
        Tag::WeeklyRankRecords => {
            reveal_strlit("weekly_rank_records");
            assert(is_ascii("weekly_rank_records"));
        },
        Tag::WeeklyRankDids => {
            reveal_strlit("weekly_rank_dids");
            assert(is_ascii("weekly_rank_dids"));
        },
        Tag::EverRankRecords => {
            reveal_strlit("ever_rank_records");
            assert(is_ascii("ever_rank_records"));
        },
        Tag::EverRankDids => {
            reveal_strlit("ever_rank_dids");
            assert(is_ascii("ever_rank_dids"));
        },
        Tag::DeleteAccount => {
            reveal_strlit("delete_account");
            assert(is_ascii("delete_account"));
        },
        Tag::ByCollection => {
            reveal_strlit("by_collection");
            assert(is_ascii("by_collection"));
        },
    }
}

/// Two keys that start with fixed names can be equal only when the names
/// are, and then so are the rests.
pub proof fn lemma_tag_key_split(t1: Tag, r1: Seq<u8>, t2: Tag, r2: Seq<u8>)
    requires
        tag_key(t1) + r1 == tag_key(t2) + r2,
    ensures
        tag_bytes(t1) == tag_bytes(t2),
        r1 == r2,
{
    lemma_tag_bytes(t1);
    lemma_tag_bytes(t2);
    let a = tag_bytes(t1);
    let b = tag_bytes(t2);
    let k = tag_key(t1) + r1;
    if a.len() < b.len() {
        assert(k[a.len() as int] == 0u8);
        assert(k[a.len() as int] == (tag_key(t2) + r2)[a.len() as int]);
        assert(b[a.len() as int] != 0u8);
    } else if b.len() < a.len() {
        assert((tag_key(t2) + r2)[b.len() as int] == 0u8);
        assert(k[b.len() as int] == a[b.len() as int]);
    }
    assert forall|i: int| 0 <= i < a.len() implies a[i] == b[i] by {
        assert(k[i] == a[i]);
        assert((tag_key(t2) + r2)[i] == b[i]);
    }
    assert(a =~= b);
    assert(r1 =~= k.subrange(a.len() as int + 1, k.len() as int));
    assert(r2 =~= (tag_key(t2) + r2).subrange(b.len() as int + 1, k.len() as int));
}

} // verus!
