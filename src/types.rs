//! The values that queries return, and the errors of the store.
use vstd::prelude::*;
use vstd::string::StringExecFns;

use crate::codec::EncodingError;
use crate::rollup::RollupError;
use crate::store::PlanError;

verus! {

broadcast use vstd::std_specs::vec::axiom_vec_index_decreases;

/// Counts of one collection.
#[derive(Debug, Clone)]
pub struct NsidCount {
    pub nsid: Vec<u8>,
    pub records: u64,
    pub dids_estimate: u64,
}

/// Counts of one thing, by name.
#[derive(Debug, Clone)]
pub struct Count {
    pub thing: String,
    pub records: u64,
    pub dids_estimate: u64,
}

/// Where the consumer reads from and how far it got.
#[derive(Debug, Clone)]
pub enum ConsumerInfo {
    Jetstream {
        endpoint: Vec<u8>,
        started_at: u64,
        latest_cursor: Option<u64>,
        rollup_cursor: Option<u64>,
    },
}

/// Collection counts arranged by the dotted segments of their names.
#[derive(Debug)]
pub struct TopCollections {
    pub total_records: u64,
    pub dids_estimate: u64,
    pub nsid_child_segments: Vec<(String, TopCollections)>,
}

/// Each name of `names` under the segment `seg`.
pub open spec fn dotted(seg: Seq<char>, names: Seq<Seq<char>>) -> Seq<Seq<char>> {
    names.map_values(|c: Seq<char>| seg + "."@ + c)
}

/// The full names below `t`, from its first `n` children: a child with no
/// children of its own gives its segment; any other gives its segment, a
/// dot and each of its own names.
pub open spec fn child_nsids(t: TopCollections, n: int) -> Seq<Seq<char>>
    decreases t, n,
{
    if n <= 0 || n > t.nsid_child_segments@.len() {
        Seq::empty()
    } else {
        let seg = t.nsid_child_segments@[n - 1].0@;
        let child = t.nsid_child_segments@[n - 1].1;
        let below = child_nsids(child, child.nsid_child_segments@.len() as int);
        child_nsids(t, n - 1) + if below.len() == 0 {
            seq![seg]
        } else {
            dotted(seg, below)
        }
    }
}

/// The full names below `t`.
pub open spec fn nsids_of(t: TopCollections) -> Seq<Seq<char>> {
    child_nsids(t, t.nsid_child_segments@.len() as int)
}

impl TopCollections {
    /// An empty tree: no counts and no children.
    pub fn new() -> (r: Self)
        ensures
            r.total_records == 0,
            r.dids_estimate == 0,
            r.nsid_child_segments@.len() == 0,
    {
        TopCollections { total_records: 0, dids_estimate: 0, nsid_child_segments: Vec::new() }
    }

    /// Every full collection name in the tree: the path of segments to each
    /// node that has no children, joined by dots.
    pub fn to_nsids(&self) -> (r: Vec<String>)
        ensures
            r@.map_values(|s: String| s@) == nsids_of(*self),
        decreases self,
    {
        let mut out: Vec<String> = Vec::new();
        let mut i: usize = 0;
        while i < self.nsid_child_segments.len()
            invariant
                i <= self.nsid_child_segments@.len(),
                out@.map_values(|s: String| s@) == child_nsids(*self, i as int),
            decreases self.nsid_child_segments@.len() - i,
        {
            let segment = &self.nsid_child_segments[i].0;
            let child = &self.nsid_child_segments[i].1;
            proof {
                assert(decreases_to!(self.nsid_child_segments => self.nsid_child_segments[i as int]));
            }
            let below = child.to_nsids();
            let ghost before = out@.map_values(|s: String| s@);
            if below.len() == 0 {
                out.push(segment.clone());
                assert(out@.map_values(|s: String| s@) =~= before + seq![segment@]);
            } else {
                let mut j: usize = 0;
                let ghost names = below@.map_values(|s: String| s@);
                while j < below.len()
                    invariant
                        j <= below@.len(),
                        names == below@.map_values(|s: String| s@),
                        out@.map_values(|s: String| s@) == before + dotted(
                            segment@,
                            names.subrange(0, j as int),
                        ),
                    decreases below@.len() - j,
                {
                    let name = segment.clone().concat(".").concat(below[j].as_str());
                    let ghost prev = out@.map_values(|s: String| s@);
                    assert(name@ == segment@ + "."@ + names[j as int]);
                    assert(dotted(segment@, names.subrange(0, j + 1)) =~= dotted(
                        segment@,
                        names.subrange(0, j as int),
                    ).push(name@));
                    out.push(name);
                    assert(out@.map_values(|s: String| s@) =~= prev.push(name@));
                    j = j + 1;
                }
                assert(names.subrange(0, j as int) =~= names);
            }
            i = i + 1;
        }
        out
    }
}

impl From<TopCollections> for Vec<String> {
    /// Every full collection name in the tree.
    fn from(tc: TopCollections) -> (r: Vec<String>)
        ensures
            r@.map_values(|s: String| s@) == nsids_of(tc),
    {
        tc.to_nsids()
    }
}

impl vstd::std_specs::convert::FromSpecImpl<TopCollections> for Vec<String> {
    open spec fn obeys_from_spec() -> bool {
        false
    }

    open spec fn from_spec(v: TopCollections) -> Vec<String> {
        arbitrary()
    }
}

/// A slice of time for counts queries: from and until cursors, each
/// optional.
#[derive(Debug, Clone, Copy)]
pub struct QueryPeriod {
    pub from: Option<u64>,
    pub until: Option<u64>,
}

impl QueryPeriod {
    /// No bounds.
    pub fn all_time() -> (r: Self)
        ensures
            r.from is None && r.until is None,
    {
        QueryPeriod { from: None, until: None }
    }

    /// Whether neither bound is set.
    pub fn is_all_time(&self) -> (r: bool)
        ensures
            r == (self.from is None && self.until is None),
    {
        self.from.is_none() && self.until.is_none()
    }
}

/// Errors of the store.
#[derive(Debug, Clone, PartialEq, Eq)]
pub enum StorageError {
    /// Opening found a missing or mismatched singleton, or no secret could
    /// be made.
    InitError(String),
    /// A singleton that must be present at run time is missing.
    BadStateError(String),
    /// A rank row names a missing cell, or its value differs from the
    /// cell's.
    IntegrityError(String),
    /// A row does not decode under its schema.
    DecodeError(EncodingError),
    /// A planned write could not be made.
    PlanError(PlanError),
    /// A roll-up step could not be planned.
    RollupError(RollupError),
    /// The background handle was already taken.
    BackgroundAlreadyStarted,
}

/// Settings of the store.
#[derive(Debug, Clone, Copy)]
pub struct FjallConfig {
    /// Remove the data when the store is dropped.
    pub temp: bool,
}

/// The store: its handles live outside the library, which plans what they
/// read and write.
#[derive(Debug, Clone, Copy)]
pub struct FjallStorage {}

/// Size and progress figures of the keyspace.
#[derive(Debug, Clone, Copy)]
pub struct StorageInfo {
    pub keyspace_disk_space: u64,
    pub keyspace_journal_count: usize,
    pub keyspace_sequence: u64,
    pub global_approximate_len: usize,
}

} // verus!
