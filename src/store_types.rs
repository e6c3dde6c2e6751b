//! The key of the by-collection record index: a fixed name, the
//! collection, and the cursor.
use vstd::prelude::*;
use crate::codec::{lemma_str_at, lemma_str_at_end, str_at, u64_at, be64, no_nul, nul_str, push_str, push_u64, read_str, read_u64, EncodingError};
use crate::keys::{push_tag, starts_with, static_key, tag_key, Tag};

verus! {

/// `"by_collection" ‖ nsid ‖ cursor`
pub open spec fn by_collection_key_spec(nsid: Seq<u8>, cursor: u64) -> Seq<u8> {
    tag_key(Tag::ByCollection) + nul_str(nsid) + be64(cursor)
}

/// A record's place in the by-collection index.
#[derive(Debug, Clone, PartialEq, Eq)]
pub struct ByCollectionKey {
    pub nsid: Vec<u8>,
    pub cursor: u64,
}

/// Who wrote a record, and under which key.
#[derive(Debug, Clone, PartialEq, Eq)]
pub struct ByCollectionValueInfo {
    pub did: Vec<u8>,
    pub rkey: Vec<u8>,
}

impl ByCollectionKey {
    /// The key of a record of `nsid` at `cursor`.
    pub fn new(nsid: Vec<u8>, cursor: u64) -> (r: Self)
        ensures
            r.nsid == nsid,
            r.cursor == cursor,
    {
        ByCollectionKey { nsid, cursor }
    }

    /// The start that every key of `nsid` shares: the fixed name and the
    /// collection.
    pub fn prefix_from_nsid(nsid: Vec<u8>) -> (r: Result<Vec<u8>, EncodingError>)
        ensures
            r is Ok <==> no_nul(nsid@),
            r matches Ok(b) ==> b@ == tag_key(Tag::ByCollection) + nul_str(nsid@),
    {
        if !crate::codec::check_no_nul(nsid.as_slice()) {
            return Err(EncodingError::StringContainsNull);
        }
        let mut out: Vec<u8> = Vec::new();
        push_tag(&mut out, Tag::ByCollection);
        push_str(&mut out, nsid.as_slice());
        Ok(out)
    }

    /// The start of this key that every key of its collection shares.
    pub fn to_prefix_db_bytes(&self) -> (r: Result<Vec<u8>, EncodingError>)
        ensures
            r is Ok <==> no_nul(self.nsid@),
            r matches Ok(b) ==> b@ == tag_key(Tag::ByCollection) + nul_str(self.nsid@),
    {
        if !crate::codec::check_no_nul(self.nsid.as_slice()) {
            return Err(EncodingError::StringContainsNull);
        }
        let mut out: Vec<u8> = Vec::new();
        push_tag(&mut out, Tag::ByCollection);
        push_str(&mut out, self.nsid.as_slice());
        Ok(out)
    }

    /// The bytes of the key.
    pub fn to_db_bytes(&self) -> (r: Result<Vec<u8>, EncodingError>)
        ensures
            r is Ok <==> no_nul(self.nsid@),
            r matches Ok(b) ==> b@ == by_collection_key_spec(self.nsid@, self.cursor),
    {
        let mut out = self.to_prefix_db_bytes()?;
        push_u64(&mut out, self.cursor);
        Ok(out)
    }

    /// A key read from the start of `b`, and how many bytes it took. Every
    /// key written for a collection without zero bytes reads back.
    pub fn from_db_bytes(b: &[u8]) -> (r: Result<(Self, usize), EncodingError>)
        ensures
            r matches Ok((k, n)) ==> n <= b@.len() && no_nul(k.nsid@) && b@.subrange(0, n as int)
                == by_collection_key_spec(k.nsid@, k.cursor),
            forall|n: Seq<u8>, c: u64|
                no_nul(n) && b@ == by_collection_key_spec(n, c) ==> (r matches Ok((k, m)) && k.nsid@
                    == n && k.cursor == c && m == b@.len()),
    {
        let ghost written = exists|n: Seq<u8>, c: u64| no_nul(n) && b@ == by_collection_key_spec(n, c);
        let ghost (w_n, w_c) = if written {
            choose|n: Seq<u8>, c: u64| no_nul(n) && b@ == by_collection_key_spec(n, c)
        } else {
            (Seq::empty(), 0u64)
        };
        let tag = static_key(Tag::ByCollection);
        proof {
            if written {
                lemma_by_collection_layout(b@, w_n, w_c);
                lemma_str_at(b@, tag@.len() as int, w_n);
            }
        }
        if !starts_with(b, tag.as_slice()) {
            return Err(EncodingError::NotEnoughBytes);
        }
        let (nsid, at) = match read_str(b, tag.len()) {
            Some(x) => x,
            None => {
                return Err(EncodingError::NotEnoughBytes);
            },
        };
        proof {
            if written {
                lemma_str_at_end(b@, tag@.len() as int, w_n, at as int);
            }
        }
        let (cursor, end) = match read_u64(b, at) {
            Some(x) => x,
            None => {
                return Err(EncodingError::NotEnoughBytes);
            },
        };
        proof {
            crate::codec::lemma_be64_bytes(b@, at as int);
            assert(b@.subrange(0, end as int) =~= by_collection_key_spec(nsid@, cursor));
            assert forall|n0: Seq<u8>, c0: u64|
                no_nul(n0) && b@ == by_collection_key_spec(n0, c0) implies nsid@ == n0 && cursor
                == c0 && end == b@.len() by {
                lemma_by_collection_layout(b@, n0, c0);
                lemma_str_at_end(b@, tag@.len() as int, n0, at as int);
                crate::codec::lemma_u64_at(b@, at as int, c0);
            }
        }
        Ok((ByCollectionKey { nsid, cursor }, end))
    }
}

proof fn lemma_by_collection_layout(b: Seq<u8>, n: Seq<u8>, c: u64)
    requires
        no_nul(n),
        b == by_collection_key_spec(n, c),
    ensures
        b.subrange(0, tag_key(Tag::ByCollection).len() as int) == tag_key(Tag::ByCollection),
        str_at(b, tag_key(Tag::ByCollection).len() as int, n),
        u64_at(b, tag_key(Tag::ByCollection).len() + n.len() + 1int, c),
        b.len() == tag_key(Tag::ByCollection).len() + n.len() + 9,
{
    let t = tag_key(Tag::ByCollection);
    let p = t.len() + n.len() + 1int;
    assert(b.subrange(0, t.len() as int) =~= t);
    assert(b.subrange(t.len() as int, p) =~= nul_str(n));
    assert(b.subrange(p, p + 8) =~= be64(c));
}

} // verus!
