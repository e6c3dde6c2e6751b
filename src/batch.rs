//! The batch that ingest hands to the store: commits grouped by collection,
//! and account deletes.
use vstd::prelude::*;
use crate::sketch::{sketch_union, sketch_with_did, DidSketch, empty_sketch, estimate_of, sketch_estimate, sketch_insert_did, sketch_merge};

verus! {

/// A source cursor: microseconds since the epoch.
pub type Cursor = u64;

/// The content of a create or an update.
#[derive(Debug, Clone)]
pub struct PutAction {
    /// The raw JSON of the record, kept verbatim.
    pub record: Vec<u8>,
    pub is_update: bool,
}

/// What a commit does to its record.
#[derive(Debug, Clone)]
pub enum CommitAction {
    Put(PutAction),
    Cut,
}

impl CommitAction {
    pub open spec fn spec_is_create(&self) -> bool {
        match self {
            CommitAction::Put(p) => !p.is_update,
            CommitAction::Cut => false,
        }
    }

    /// A put that is not an update.
    #[verifier::when_used_as_spec(spec_is_create)]
    pub fn is_create(&self) -> (r: bool)
        ensures
            r == self.spec_is_create(),
    {
        match self {
            CommitAction::Put(p) => !p.is_update,
            CommitAction::Cut => false,
        }
    }
}

/// One commit of one record, without its collection.
#[derive(Debug, Clone)]
pub struct UFOsCommit {
    pub cursor: Cursor,
    pub did: Vec<u8>,
    pub rkey: Vec<u8>,
    pub rev: Vec<u8>,
    pub action: CommitAction,
}

/// A request to delete every record of an account.
#[derive(Debug, Clone)]
pub struct DeleteAccount {
    pub did: Vec<u8>,
    pub cursor: Cursor,
}

/// The operation of a firehose commit event.
#[derive(Debug, Clone, Copy, PartialEq, Eq, Structural)]
pub enum CommitOp {
    Create,
    Update,
    Delete,
}

/// A firehose commit event, as the consumer receives it.
#[derive(Debug, Clone)]
pub struct CommitEvent {
    pub collection: Vec<u8>,
    pub rkey: Vec<u8>,
    pub rev: Vec<u8>,
    pub operation: CommitOp,
    pub record: Option<Vec<u8>>,
}

/// Errors met while turning firehose events into commits.
#[derive(Debug, Clone, Copy, PartialEq, Eq, Structural)]
pub enum FirehoseEventError {
    /// A create or update came without its record.
    CruMissingRecord,
}

/// Errors met while adding a commit to a batch.
#[derive(Debug, Clone)]
pub enum BatchInsertError {
    /// The batch cannot take the commit, which is handed back.
    BatchFull(UFOsCommit),
}

impl UFOsCommit {
    /// The commit that a firehose event describes, and its collection.
    pub fn from_commit_info(commit: CommitEvent, did: Vec<u8>, cursor: Cursor) -> (r: Result<
        (Self, Vec<u8>),
        FirehoseEventError,
    >)
        ensures
            r is Err <==> commit.operation != CommitOp::Delete && commit.record is None,
            r matches Ok((c, nsid)) ==> {
                &&& nsid == commit.collection
                &&& c.cursor == cursor
                &&& c.did == did
                &&& c.rkey == commit.rkey
                &&& c.rev == commit.rev
                &&& match c.action {
                    CommitAction::Cut => commit.operation == CommitOp::Delete,
                    CommitAction::Put(p) => commit.operation != CommitOp::Delete && Some(p.record)
                        == commit.record && p.is_update == (commit.operation == CommitOp::Update),
                }
            },
    {
        let action = match commit.operation {
            CommitOp::Delete => CommitAction::Cut,
            op => {
                let record = match commit.record {
                    Some(r) => r,
                    None => {
                        return Err(FirehoseEventError::CruMissingRecord);
                    },
                };
                CommitAction::Put(PutAction { record, is_update: op == CommitOp::Update })
            },
        };
        Ok((UFOsCommit { cursor, did, rkey: commit.rkey, rev: commit.rev, action }, commit.collection))
    }
}

/// How many commits of `s` are not creates.
pub open spec fn count_non_creates(s: Seq<UFOsCommit>) -> nat
    decreases s.len(),
{
    if s.len() == 0 {
        0
    } else {
        count_non_creates(s.drop_last()) + if s.last().action.spec_is_create() {
            0nat
        } else {
            1nat
        }
    }
}

proof fn lemma_count_non_creates_update(s: Seq<UFOsCommit>, i: int, c: UFOsCommit)
    requires
        0 <= i < s.len(),
    ensures
        count_non_creates(s.update(i, c)) + (if s[i].action.spec_is_create() {
            0nat
        } else {
            1nat
        }) == count_non_creates(s) + (if c.action.spec_is_create() {
            0nat
        } else {
            1nat
        }),
    decreases s.len(),
{
    let u = s.update(i, c);
    if i == s.len() - 1 {
        assert(u.drop_last() =~= s.drop_last());
    } else {
        assert(u.drop_last() =~= s.drop_last().update(i, c));
        lemma_count_non_creates_update(s.drop_last(), i, c);
    }
}

proof fn lemma_count_non_creates_bound(s: Seq<UFOsCommit>)
    ensures
        count_non_creates(s) <= s.len(),
        count_non_creates(s) == s.len() ==> forall|j: int|
            0 <= j < s.len() ==> !s[j].action.spec_is_create(),
    decreases s.len(),
{
    if s.len() > 0 {
        lemma_count_non_creates_bound(s.drop_last());
        if count_non_creates(s) == s.len() {
            assert forall|j: int| 0 <= j < s.len() implies !s[j].action.spec_is_create() by {
                if j < s.len() - 1 {
                    assert(s[j] == s.drop_last()[j]);
                }
            }
        }
    }
}

proof fn lemma_count_non_creates_push(s: Seq<UFOsCommit>, c: UFOsCommit)
    ensures
        count_non_creates(s.push(c)) == count_non_creates(s) + if c.action.spec_is_create() {
            0nat
        } else {
            1nat
        },
{
    assert(s.push(c).drop_last() =~= s);
}

/// Whether `i` is the first create met when walking `s` from `head`,
/// wrapping round at the end.
pub open spec fn first_create_from(s: Seq<UFOsCommit>, head: int, i: int) -> bool {
    &&& 0 <= i < s.len()
    &&& s[i].action.spec_is_create()
    &&& if i >= head {
        forall|j: int| head <= j < i ==> !s[j].action.spec_is_create()
    } else {
        &&& forall|j: int| head <= j < s.len() ==> !s[j].action.spec_is_create()
        &&& forall|j: int| 0 <= j < i ==> !s[j].action.spec_is_create()
    }
}

/// What a successful truncating insert does to the list of commits: append
/// while there is room, else put the commit in the place of a create.
pub open spec fn inserted_into(old: Seq<UFOsCommit>, new: Seq<UFOsCommit>, c: UFOsCommit, limit: nat) -> bool {
    if old.len() < limit {
        new == old.push(c)
    } else {
        exists|i: int|
            0 <= i < old.len() && old[i].action.spec_is_create() && new == old.update(i, c)
    }
}

/// The commits of one collection in one batch, capped at `LIMIT`: when the
/// cap is reached a new commit takes the place of a create, and non-creates
/// are kept.
#[derive(Debug)]
pub struct CollectionCommits<const LIMIT: usize> {
    /// How many creates were seen, kept or not.
    pub total_seen: usize,
    /// The accounts that made those creates.
    pub dids_estimate: DidSketch,
    pub commits: Vec<UFOsCommit>,
    /// Where the search for a create to replace starts.
    pub head: usize,
    /// How many kept commits are not creates.
    pub non_creates: usize,
}

impl<const LIMIT: usize> CollectionCommits<LIMIT> {
    /// The cap is positive, never passed, and the bookkeeping matches the
    /// commits.
    pub open spec fn wf(&self) -> bool {
        &&& LIMIT > 0
        &&& self.commits@.len() <= LIMIT
        &&& self.head < LIMIT
        &&& self.non_creates == count_non_creates(self.commits@)
    }

    /// No commits yet.
    pub fn new() -> (r: Self)
        requires
            LIMIT > 0,
        ensures
            r.wf(),
            r.commits@.len() == 0,
            r.total_seen == 0,
            r.head == 0,
            estimate_of(r.dids_estimate) == 0,
    {
        CollectionCommits {
            total_seen: 0,
            dids_estimate: empty_sketch(),
            commits: Vec::new(),
            head: 0,
            non_creates: 0,
        }
    }

    /// Adds a commit. Fails, handing the commit back and changing nothing,
    /// when every kept commit is a non-create and the cap is reached. A
    /// create is counted in `total_seen` and `dids_estimate` whether or not
    /// it is kept.
    pub fn truncating_insert(&mut self, commit: UFOsCommit) -> (r: Result<(), BatchInsertError>)
        requires
            old(self).wf(),
            old(self).total_seen < usize::MAX,
        ensures
            final(self).wf(),
            r is Err <==> count_non_creates(old(self).commits@) == LIMIT,
            r matches Err(e) ==> e == BatchInsertError::BatchFull(commit) && *final(self)
                == *old(self),
            r is Ok ==> {
                &&& inserted_into(old(self).commits@, final(self).commits@, commit, LIMIT as nat)
                &&& old(self).commits@.len() == LIMIT ==> first_create_from(
                    old(self).commits@,
                    old(self).head as int,
                    final(self).head as int,
                ) && final(self).commits@ == old(self).commits@.update(
                    final(self).head as int,
                    commit,
                )
                &&& final(self).total_seen == old(self).total_seen + if commit.action.spec_is_create() {
                    1int
                } else {
                    0int
                }
                &&& old(self).commits@.len() < LIMIT ==> final(self).head == old(self).head
                &&& final(self).dids_estimate == if commit.action.spec_is_create() {
                    sketch_with_did(old(self).dids_estimate, commit.did@)
                } else {
                    old(self).dids_estimate
                }
            },
    {
        if self.non_creates == LIMIT {
            return Err(BatchInsertError::BatchFull(commit));
        }
        proof {
            lemma_count_non_creates_bound(self.commits@);
        }
        let is_create = commit.action.is_create();
        if is_create {
            sketch_insert_did(&mut self.dids_estimate, &commit.did);
            self.total_seen = self.total_seen + 1;
        } else {
            self.non_creates = self.non_creates + 1;
        }
        let ghost before = self.commits@;
        proof {
            lemma_count_non_creates_bound(before);
        }
        if self.commits.len() < LIMIT {
            self.commits.push(commit);
            proof {
                lemma_count_non_creates_push(before, commit);
            }
        } else {
            let start = self.head;
            let mut i: usize = start;
            while i < LIMIT && !self.commits[i].action.is_create()
                invariant
                    self.commits@ == before,
                    before.len() == LIMIT,
                    start <= i <= LIMIT,
                    forall|j: int| start <= j < i ==> !before[j].action.spec_is_create(),
                decreases LIMIT - i,
            {
                i = i + 1;
            }
            if i == LIMIT {
                i = 0;
                while i < start && !self.commits[i].action.is_create()
                    invariant
                        self.commits@ == before,
                        before.len() == LIMIT,
                        start < LIMIT,
                        i <= start,
                        forall|j: int| start <= j < LIMIT ==> !before[j].action.spec_is_create(),
                        forall|j: int| 0 <= j < i ==> !before[j].action.spec_is_create(),
                    decreases start - i,
                {
                    i = i + 1;
                }
                if i == start {
                    proof {
                        assert(count_non_creates(before) < LIMIT);
                        lemma_all_non_creates(before);
                    }
                    return Err(BatchInsertError::BatchFull(commit));
                }
            }
            proof {
                lemma_count_non_creates_update(before, i as int, commit);
            }
            self.commits.set(i, commit);
            self.head = i;
        }
        Ok(())
    }
}

proof fn lemma_all_non_creates(s: Seq<UFOsCommit>)
    requires
        forall|j: int| 0 <= j < s.len() ==> !s[j].action.spec_is_create(),
    ensures
        count_non_creates(s) == s.len(),
    decreases s.len(),
{
    if s.len() > 0 {
        lemma_all_non_creates(s.drop_last());
    }
}

/// The largest cursor among `s`, or zero.
pub open spec fn max_commit_cursor(s: Seq<UFOsCommit>) -> u64
    decreases s.len(),
{
    if s.len() == 0 {
        0
    } else {
        let m = max_commit_cursor(s.drop_last());
        if s.last().cursor > m {
            s.last().cursor
        } else {
            m
        }
    }
}

/// The largest commit cursor among the collections of `s`, or zero.
pub open spec fn max_collections_cursor<const LIMIT: usize>(
    s: Seq<(Vec<u8>, CollectionCommits<LIMIT>)>,
) -> u64
    decreases s.len(),
{
    if s.len() == 0 {
        0
    } else {
        let m = max_collections_cursor(s.drop_last());
        let c = max_commit_cursor(s.last().1.commits@);
        if c > m {
            c
        } else {
            m
        }
    }
}

/// The largest cursor among the account deletes of `s`, or zero.
pub open spec fn max_removes_cursor(s: Seq<DeleteAccount>) -> u64
    decreases s.len(),
{
    if s.len() == 0 {
        0
    } else {
        let m = max_removes_cursor(s.drop_last());
        if s.last().cursor > m {
            s.last().cursor
        } else {
            m
        }
    }
}

pub proof fn lemma_max_commit_cursor_bounds(s: Seq<UFOsCommit>, i: int)
    requires
        0 <= i < s.len(),
    ensures
        s[i].cursor <= max_commit_cursor(s),
    decreases s.len(),
{
    if i < s.len() - 1 {
        lemma_max_commit_cursor_bounds(s.drop_last(), i);
    }
}

pub proof fn lemma_max_collections_cursor_bounds<const LIMIT: usize>(
    s: Seq<(Vec<u8>, CollectionCommits<LIMIT>)>,
    i: int,
    j: int,
)
    requires
        0 <= i < s.len(),
        0 <= j < s[i].1.commits@.len(),
    ensures
        s[i].1.commits@[j].cursor <= max_collections_cursor(s),
    decreases s.len(),
{
    if i < s.len() - 1 {
        lemma_max_collections_cursor_bounds(s.drop_last(), i, j);
    } else {
        lemma_max_commit_cursor_bounds(s[i].1.commits@, j);
    }
}

pub proof fn lemma_max_removes_cursor_bounds(s: Seq<DeleteAccount>, i: int)
    requires
        0 <= i < s.len(),
    ensures
        s[i].cursor <= max_removes_cursor(s),
    decreases s.len(),
{
    if i < s.len() - 1 {
        lemma_max_removes_cursor_bounds(s.drop_last(), i);
    }
}

/// Everything one ingest step commits: commits grouped by collection, and
/// account deletes.
#[derive(Debug)]
pub struct EventBatch<const LIMIT: usize> {
    /// One entry per collection, each collection once.
    pub commits_by_nsid: Vec<(Vec<u8>, CollectionCommits<LIMIT>)>,
    pub account_removes: Vec<DeleteAccount>,
}

impl<const LIMIT: usize> EventBatch<LIMIT> {
    /// Each collection appears once, and each entry is well formed.
    pub open spec fn wf(&self) -> bool {
        &&& forall|i: int, j: int|
            0 <= i < j < self.commits_by_nsid@.len() ==> self.commits_by_nsid@[i].0@
                != self.commits_by_nsid@[j].0@
        &&& forall|i: int|
            0 <= i < self.commits_by_nsid@.len() ==> (#[trigger] self.commits_by_nsid@[i]).1.wf()
    }

    /// The largest cursor of any commit or account delete, or zero.
    pub open spec fn max_cursor(&self) -> u64 {
        let a = max_collections_cursor(self.commits_by_nsid@);
        let b = max_removes_cursor(self.account_removes@);
        if a > b {
            a
        } else {
            b
        }
    }

    pub open spec fn spec_is_empty(&self) -> bool {
        self.commits_by_nsid@.len() == 0 && self.account_removes@.len() == 0
    }

    /// An empty batch.
    pub fn new() -> (r: Self)
        ensures
            r.wf(),
            r.spec_is_empty(),
    {
        EventBatch { commits_by_nsid: Vec::new(), account_removes: Vec::new() }
    }

    /// Where `nsid` stands among the collections, if it does.
    fn find_collection(&self, nsid: &[u8]) -> (r: Option<usize>)
        ensures
            r matches Some(i) ==> i < self.commits_by_nsid@.len() && self.commits_by_nsid@[i as int].0@
                == nsid@,
            r is None ==> forall|i: int|
                0 <= i < self.commits_by_nsid@.len() ==> self.commits_by_nsid@[i].0@ != nsid@,
    {
        let mut i: usize = 0;
        while i < self.commits_by_nsid.len()
            invariant
                i <= self.commits_by_nsid@.len(),
                forall|j: int| 0 <= j < i ==> self.commits_by_nsid@[j].0@ != nsid@,
            decreases self.commits_by_nsid@.len() - i,
        {
            if bytes_eq(self.commits_by_nsid[i].0.as_slice(), nsid) {
                return Some(i);
            }
            i = i + 1;
        }
        None
    }

    /// Adds a commit to its collection's entry, making the entry if there is
    /// room for one more collection. Fails, handing the commit back and
    /// changing nothing, when there is no room for a new collection or the
    /// entry refuses the commit.
    pub fn insert_commit_by_nsid(
        &mut self,
        collection: &[u8],
        commit: UFOsCommit,
        max_collections: usize,
    ) -> (r: Result<(), BatchInsertError>)
        requires
            old(self).wf(),
            LIMIT > 0,
            forall|i: int|
                0 <= i < old(self).commits_by_nsid@.len() ==> (#[trigger] old(self).commits_by_nsid@[i]).1.total_seen < usize::MAX,
        ensures
            final(self).wf(),
            final(self).account_removes == old(self).account_removes,
            r matches Err(e) ==> e == BatchInsertError::BatchFull(commit)
                && final(self).commits_by_nsid@ == old(self).commits_by_nsid@,
            (forall|i: int|
                0 <= i < old(self).commits_by_nsid@.len() ==> old(self).commits_by_nsid@[i].0@
                    != collection@) ==> {
                &&& r is Err <==> old(self).commits_by_nsid@.len() >= max_collections
                &&& r is Ok ==> final(self).commits_by_nsid@.len() == old(self).commits_by_nsid@.len()
                    + 1 && final(self).commits_by_nsid@.drop_last() == old(self).commits_by_nsid@
                    && final(self).commits_by_nsid@.last().0@ == collection@
                    && final(self).commits_by_nsid@.last().1.commits@ == seq![commit]
            },
            forall|i: int|
                0 <= i < old(self).commits_by_nsid@.len() && old(self).commits_by_nsid@[i].0@
                    == collection@ ==> {
                    &&& r is Err <==> count_non_creates(old(self).commits_by_nsid@[i].1.commits@)
                        == LIMIT
                    &&& r is Ok ==> final(self).commits_by_nsid@.len() == old(self).commits_by_nsid@.len() && (forall|j: int|
                        0 <= j < old(self).commits_by_nsid@.len() && j != i ==> final(self).commits_by_nsid@[j] == old(self).commits_by_nsid@[j])
                        && final(self).commits_by_nsid@[i].0 == old(self).commits_by_nsid@[i].0
                        && inserted_into(
                        old(self).commits_by_nsid@[i].1.commits@,
                        final(self).commits_by_nsid@[i].1.commits@,
                        commit,
                        LIMIT as nat,
                    )
                },
    {
        match self.find_collection(collection) {
            None => {
                if self.commits_by_nsid.len() >= max_collections {
                    return Err(BatchInsertError::BatchFull(commit));
                }
                let mut cc = CollectionCommits::<LIMIT>::new();
                let r = cc.truncating_insert(commit);
                assert(r is Ok);
                assert(cc.commits@ =~= seq![commit]);
                let ghost before = self.commits_by_nsid@;
                self.commits_by_nsid.push((bytes_to_vec(collection), cc));
                assert(self.commits_by_nsid@.drop_last() =~= before);
                Ok(())
            },
            Some(i) => {
                let ghost before = self.commits_by_nsid@;
                let (nsid, mut cc) = self.commits_by_nsid.remove(i);
                assert(before[i as int].1.wf());
                match cc.truncating_insert(commit) {
                    Ok(()) => {
                        self.commits_by_nsid.insert(i, (nsid, cc));
                        assert forall|a: int, b: int|
                            0 <= a < b < self.commits_by_nsid@.len() implies self.commits_by_nsid@[a].0@
                            != self.commits_by_nsid@[b].0@ by {
                            assert(self.commits_by_nsid@[a].0@ == before[a].0@);
                            assert(self.commits_by_nsid@[b].0@ == before[b].0@);
                        }
                        Ok(())
                    },
                    Err(e) => {
                        self.commits_by_nsid.insert(i, (nsid, cc));
                        assert(self.commits_by_nsid@ =~= before);
                        Err(e)
                    },
                }
            },
        }
    }

    /// How many commits are kept over all collections.
    pub fn total_records(&self) -> (r: usize)
        requires
            forall|i: int|
                0 <= i < self.commits_by_nsid@.len() ==> (#[trigger] self.commits_by_nsid@[i]).1.commits@.len()
                    <= LIMIT,
            self.commits_by_nsid@.len() * LIMIT <= usize::MAX,
        ensures
            r == sum_records(self.commits_by_nsid@),
    {
        let mut total: usize = 0;
        let mut i: usize = 0;
        while i < self.commits_by_nsid.len()
            invariant
                i <= self.commits_by_nsid@.len(),
                total == sum_records(self.commits_by_nsid@.subrange(0, i as int)),
                total <= i * LIMIT,
                forall|k: int|
                    0 <= k < self.commits_by_nsid@.len() ==> (#[trigger] self.commits_by_nsid@[k]).1.commits@.len()
                        <= LIMIT,
                self.commits_by_nsid@.len() * LIMIT <= usize::MAX,
            decreases self.commits_by_nsid@.len() - i,
        {
            assert(self.commits_by_nsid@.subrange(0, i + 1).drop_last() =~= self.commits_by_nsid@.subrange(
                0,
                i as int,
            ));
            assert((i + 1) * LIMIT <= self.commits_by_nsid@.len() * LIMIT) by (nonlinear_arith)
                requires
                    i + 1 <= self.commits_by_nsid@.len(),
            ;
            assert((i + 1) * LIMIT == i * LIMIT + LIMIT) by (nonlinear_arith);
            total = total + self.commits_by_nsid[i].1.commits.len();
            i = i + 1;
        }
        assert(self.commits_by_nsid@.subrange(0, i as int) =~= self.commits_by_nsid@);
        total
    }

    /// How many creates were seen over all collections.
    pub fn total_seen(&self) -> (r: u64)
        requires
            sum_seen(self.commits_by_nsid@) <= u64::MAX,
        ensures
            r == sum_seen(self.commits_by_nsid@),
    {
        let mut total: u64 = 0;
        let mut i: usize = 0;
        while i < self.commits_by_nsid.len()
            invariant
                i <= self.commits_by_nsid@.len(),
                total == sum_seen(self.commits_by_nsid@.subrange(0, i as int)),
                sum_seen(self.commits_by_nsid@) <= u64::MAX,
            decreases self.commits_by_nsid@.len() - i,
        {
            assert(self.commits_by_nsid@.subrange(0, i + 1).drop_last() =~= self.commits_by_nsid@.subrange(
                0,
                i as int,
            ));
            proof {
                lemma_sum_seen_prefix(self.commits_by_nsid@, i + 1);
            }
            total = total + self.commits_by_nsid[i].1.total_seen as u64;
            i = i + 1;
        }
        assert(self.commits_by_nsid@.subrange(0, i as int) =~= self.commits_by_nsid@);
        total
    }

    /// How many collections the batch holds.
    pub fn total_collections(&self) -> (r: usize)
        ensures
            r == self.commits_by_nsid@.len(),
    {
        self.commits_by_nsid.len()
    }

    /// How many account deletes the batch holds.
    pub fn account_removes(&self) -> (r: usize)
        ensures
            r == self.account_removes@.len(),
    {
        self.account_removes.len()
    }

    /// The estimated number of distinct accounts over all collections: the
    /// estimate of the union of every collection's sketch.
    pub fn estimate_dids(&self) -> (r: u64)
        ensures
            self.commits_by_nsid@.len() == 0 ==> r == 0,
            exists|e: DidSketch|
                estimate_of(e) == 0 && r == estimate_of(
                    #[trigger] union_all(e, self.commits_by_nsid@, self.commits_by_nsid@.len() as int),
                ),
    {
        let mut estimator = empty_sketch();
        let ghost e = estimator;
        let mut i: usize = 0;
        while i < self.commits_by_nsid.len()
            invariant
                i <= self.commits_by_nsid@.len(),
                estimate_of(e) == 0,
                estimator == union_all(e, self.commits_by_nsid@, i as int),
                i == 0 ==> estimate_of(estimator) == 0,
            decreases self.commits_by_nsid@.len() - i,
        {
            sketch_merge(&mut estimator, &self.commits_by_nsid[i].1.dids_estimate);
            i = i + 1;
        }
        sketch_estimate(&estimator)
    }

    /// The largest cursor of any commit or account delete; `None` when
    /// there is none above zero.
    pub fn latest_cursor(&self) -> (r: Option<Cursor>)
        ensures
            r == if self.max_cursor() > 0 {
                Some(self.max_cursor())
            } else {
                None::<u64>
            },
    {
        let m = self.max_cursor_exec();
        if m > 0 {
            Some(m)
        } else {
            None
        }
    }

    /// The largest cursor of any commit or account delete, or zero.
    pub fn max_cursor_exec(&self) -> (r: Cursor)
        ensures
            r == self.max_cursor(),
    {
        let mut latest: u64 = 0;
        let mut i: usize = 0;
        while i < self.commits_by_nsid.len()
            invariant
                i <= self.commits_by_nsid@.len(),
                latest == max_collections_cursor(self.commits_by_nsid@.subrange(0, i as int)),
            decreases self.commits_by_nsid@.len() - i,
        {
            assert(self.commits_by_nsid@.subrange(0, i + 1).drop_last() =~= self.commits_by_nsid@.subrange(
                0,
                i as int,
            ));
            let commits = &self.commits_by_nsid[i].1.commits;
            let mut best: u64 = 0;
            let mut j: usize = 0;
            while j < commits.len()
                invariant
                    j <= commits@.len(),
                    best == max_commit_cursor(commits@.subrange(0, j as int)),
                decreases commits@.len() - j,
            {
                assert(commits@.subrange(0, j + 1).drop_last() =~= commits@.subrange(0, j as int));
                if commits[j].cursor > best {
                    best = commits[j].cursor;
                }
                j = j + 1;
            }
            assert(commits@.subrange(0, j as int) =~= commits@);
            if best > latest {
                latest = best;
            }
            i = i + 1;
        }
        assert(self.commits_by_nsid@.subrange(0, i as int) =~= self.commits_by_nsid@);
        let mut removes_max: u64 = 0;
        let mut k: usize = 0;
        while k < self.account_removes.len()
            invariant
                k <= self.account_removes@.len(),
                removes_max == max_removes_cursor(self.account_removes@.subrange(0, k as int)),
            decreases self.account_removes@.len() - k,
        {
            assert(self.account_removes@.subrange(0, k + 1).drop_last() =~= self.account_removes@.subrange(
                0,
                k as int,
            ));
            if self.account_removes[k].cursor > removes_max {
                removes_max = self.account_removes[k].cursor;
            }
            k = k + 1;
        }
        assert(self.account_removes@.subrange(0, k as int) =~= self.account_removes@);
        if latest > removes_max {
            latest
        } else {
            removes_max
        }
    }

    /// No collections and no account deletes.
    #[verifier::when_used_as_spec(spec_is_empty)]
    pub fn is_empty(&self) -> (r: bool)
        ensures
            r == self.spec_is_empty(),
    {
        self.commits_by_nsid.len() == 0 && self.account_removes.len() == 0
    }
}

/// `start` merged with the sketches of the first `n` collections of `s`.
pub open spec fn union_all<const LIMIT: usize>(
    start: DidSketch,
    s: Seq<(Vec<u8>, CollectionCommits<LIMIT>)>,
    n: int,
) -> DidSketch
    decreases n,
{
    if n <= 0 {
        start
    } else {
        sketch_union(union_all(start, s, n - 1), s[n - 1].1.dids_estimate)
    }
}

/// The number of commits kept over the collections of `s`.
pub open spec fn sum_records<const LIMIT: usize>(s: Seq<(Vec<u8>, CollectionCommits<LIMIT>)>) -> nat
    decreases s.len(),
{
    if s.len() == 0 {
        0
    } else {
        sum_records(s.drop_last()) + s.last().1.commits@.len()
    }
}

/// The number of creates seen over the collections of `s`.
pub open spec fn sum_seen<const LIMIT: usize>(s: Seq<(Vec<u8>, CollectionCommits<LIMIT>)>) -> nat
    decreases s.len(),
{
    if s.len() == 0 {
        0
    } else {
        sum_seen(s.drop_last()) + s.last().1.total_seen as nat
    }
}

proof fn lemma_sum_seen_prefix<const LIMIT: usize>(
    s: Seq<(Vec<u8>, CollectionCommits<LIMIT>)>,
    n: int,
)
    requires
        0 <= n <= s.len(),
    ensures
        sum_seen(s.subrange(0, n)) <= sum_seen(s),
    decreases s.len(),
{
    if n < s.len() {
        assert(s.drop_last().subrange(0, n) =~= s.subrange(0, n));
        lemma_sum_seen_prefix(s.drop_last(), n);
    } else {
        assert(s.subrange(0, n) =~= s);
    }
}

/// Whether two byte strings are equal.
pub fn bytes_eq(a: &[u8], b: &[u8]) -> (r: bool)
    ensures
        r == (a@ == b@),
{
    if a.len() != b.len() {
        return false;
    }
    let mut i: usize = 0;
    while i < a.len()
        invariant
            a@.len() == b@.len(),
            i <= a@.len(),
            forall|j: int| 0 <= j < i ==> a@[j] == b@[j],
        decreases a@.len() - i,
    {
        if a[i] != b[i] {
            return false;
        }
        i = i + 1;
    }
    assert(a@ =~= b@);
    true
}

/// A copy of a byte string.
pub fn bytes_to_vec(a: &[u8]) -> (r: Vec<u8>)
    ensures
        r@ == a@,
{
    let mut out: Vec<u8> = Vec::new();
    crate::codec::push_bytes(&mut out, a);
    assert(out@ =~= a@);
    out
}

} // verus!
