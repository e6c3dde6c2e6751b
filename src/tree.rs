//! Counts rolled up along the dotted segments of collection names.
use vstd::prelude::*;
use vstd::utf8::{decode_utf8, valid_utf8};
use crate::batch::{bytes_eq, bytes_to_vec};
use crate::reader::decode_ever_counts_key;
use crate::rollup::{cell_sketch, cell_ok, CountsCell, RollupError};
use crate::codec::no_nul;
use crate::sketch::{estimate_of, sketch_union};
use cardinality_estimator_safe::Sketch;
use crate::types::{StorageError, TopCollections};
use crate::codec::be64_at;
use crate::keys::{counts_key_spec, Period};

verus! {

broadcast use vstd::std_specs::vec::axiom_vec_index_decreases;

/// The dot that separates segments.
pub const DOT: u8 = 46;

/// The text that `String::from_utf8_lossy` makes of some bytes, a function
/// of the bytes alone.
pub uninterp spec fn lossy_text(b: Seq<u8>) -> Seq<char>;

/// Relies on `String::from_utf8_lossy`: the text of the bytes, each invalid
/// sequence replaced; valid UTF-8 is kept as it is.
#[verifier::external_body]
fn text_of(b: &[u8]) -> (r: String)
    ensures
        r@ == lossy_text(b@),
        valid_utf8(b@) ==> r@ == decode_utf8(b@),
{
    String::from_utf8_lossy(b).into_owned()
}

/// The segments joined by dots.
pub open spec fn join_dots(segs: Seq<Seq<u8>>) -> Seq<u8>
    decreases segs.len(),
{
    if segs.len() == 0 {
        Seq::empty()
    } else if segs.len() == 1 {
        segs[0]
    } else {
        join_dots(segs.drop_last()) + seq![DOT] + segs.last()
    }
}

/// Splits a collection name at each dot.
pub fn split_nsid(nsid: &[u8]) -> (r: Vec<Vec<u8>>)
    ensures
        r@.len() >= 1,
        join_dots(r@.map_values(|s: Vec<u8>| s@)) == nsid@,
        forall|i: int, j: int| 0 <= i < r@.len() && 0 <= j < r@[i]@.len() ==> r@[i]@[j] != DOT,
{
    let mut out: Vec<Vec<u8>> = Vec::new();
    let mut current: Vec<u8> = Vec::new();
    let mut i: usize = 0;
    while i < nsid.len()
        invariant
            i <= nsid@.len(),
            forall|a: int, b: int|
                0 <= a < out@.len() && 0 <= b < out@[a]@.len() ==> out@[a]@[b] != DOT,
            forall|b: int| 0 <= b < current@.len() ==> current@[b] != DOT,
            join_dots(out@.map_values(|s: Vec<u8>| s@).push(current@)) == nsid@.subrange(0, i as int),
        decreases nsid@.len() - i,
    {
        let ghost segs = out@.map_values(|s: Vec<u8>| s@);
        if nsid[i] == DOT {
            let done = current;
            current = Vec::new();
            out.push(done);
            proof {
                assert(out@.map_values(|s: Vec<u8>| s@) =~= segs.push(done@));
                let next = segs.push(done@).push(current@);
                assert(next.drop_last() =~= segs.push(done@));
                assert(current@ =~= Seq::<u8>::empty());
                assert(join_dots(next) == join_dots(segs.push(done@)) + seq![DOT] + Seq::<u8>::empty());
                assert(nsid@.subrange(0, i + 1) =~= nsid@.subrange(0, i as int) + seq![DOT]);
                assert(join_dots(segs.push(done@)) + seq![DOT] + Seq::<u8>::empty() =~= nsid@.subrange(0, i as int) + seq![DOT]);
            }
        } else {
            let ghost before = current@;
            current.push(nsid[i]);
            proof {
                let prev = segs.push(before);
                let next = segs.push(current@);
                assert(nsid@.subrange(0, i + 1) =~= nsid@.subrange(0, i as int).push(nsid@[i as int]));
                if segs.len() == 0 {
                    assert(next =~= seq![current@]);
                    assert(prev =~= seq![before]);
                } else {
                    assert(next.drop_last() =~= segs);
                    assert(prev.drop_last() =~= segs);
                    assert(join_dots(next) =~= join_dots(segs) + seq![DOT] + current@);
                    assert(join_dots(prev) =~= join_dots(segs) + seq![DOT] + before);
                }
                assert(join_dots(next) =~= join_dots(prev).push(nsid@[i as int]));
            }
        }
        i = i + 1;
    }
    let ghost segs = out@.map_values(|s: Vec<u8>| s@);
    out.push(current);
    assert(out@.map_values(|s: Vec<u8>| s@) =~= segs.push(current@));
    assert(nsid@.subrange(0, i as int) =~= nsid@);
    out
}

/// Counts at one node of the tree, and its children by segment.
#[derive(Debug)]
pub struct CountsTree {
    pub counts: CountsCell,
    pub children: Vec<(Vec<u8>, CountsTree)>,
}

/// The first child named `name` among `cs[0..k]`, or -1.
pub open spec fn first_child(cs: Seq<(Vec<u8>, CountsTree)>, name: Seq<u8>, k: int) -> int
    decreases k,
{
    if k <= 0 {
        -1
    } else {
        let f = first_child(cs, name, k - 1);
        if f >= 0 {
            f
        } else if cs[k - 1].0@ == name {
            k - 1
        } else {
            -1
        }
    }
}

/// The records at the node that `path` leads to, zero when there is none.
pub open spec fn records_at(t: CountsTree, path: Seq<Seq<u8>>) -> int
    decreases path.len(),
{
    if path.len() == 0 {
        t.counts.records as int
    } else {
        let i = first_child(t.children@, path[0], t.children@.len() as int);
        if i < 0 {
            0
        } else {
            records_at(t.children@[i].1, path.drop_first())
        }
    }
}

/// Whether `p` is a prefix of `q`.
pub open spec fn is_prefix(p: Seq<Seq<u8>>, q: Seq<Seq<u8>>) -> bool {
    p.len() <= q.len() && q.subrange(0, p.len() as int) == p
}

proof fn lemma_first_child_bounds(cs: Seq<(Vec<u8>, CountsTree)>, name: Seq<u8>, k: int)
    requires
        0 <= k <= cs.len(),
    ensures
        -1 <= first_child(cs, name, k) < k,
        first_child(cs, name, k) >= 0 ==> cs[first_child(cs, name, k)].0@ == name,
        first_child(cs, name, k) < 0 ==> forall|j: int| 0 <= j < k ==> cs[j].0@ != name,
        first_child(cs, name, k) >= 0 ==> forall|j: int|
            0 <= j < first_child(cs, name, k) ==> cs[j].0@ != name,
    decreases k,
{
    if k > 0 {
        lemma_first_child_bounds(cs, name, k - 1);
    }
}

proof fn lemma_first_child_same_names(
    cs: Seq<(Vec<u8>, CountsTree)>,
    ds: Seq<(Vec<u8>, CountsTree)>,
    name: Seq<u8>,
    k: int,
)
    requires
        k <= cs.len(),
        k <= ds.len(),
        forall|j: int| 0 <= j < k ==> cs[j].0@ == ds[j].0@,
    ensures
        first_child(cs, name, k) == first_child(ds, name, k),
    decreases k,
{
    if k > 0 {
        lemma_first_child_same_names(cs, ds, name, k - 1);
    }
}

proof fn lemma_first_child_push(cs: Seq<(Vec<u8>, CountsTree)>, e: (Vec<u8>, CountsTree), name: Seq<u8>)
    ensures
        first_child(cs.push(e), name, cs.len() + 1int) == if first_child(cs, name, cs.len() as int)
            >= 0 {
            first_child(cs, name, cs.len() as int)
        } else if e.0@ == name {
            cs.len() as int
        } else {
            -1
        },
{
    lemma_first_child_same_names(cs, cs.push(e), name, cs.len() as int);
}

/// The sketch at the node that `path` leads to, `None` when there is none.
pub open spec fn node_sketch(t: CountsTree, path: Seq<Seq<u8>>) -> Option<Sketch<14>>
    decreases path.len(),
{
    if path.len() == 0 {
        Some(t.counts.dids)
    } else {
        let i = first_child(t.children@, path[0], t.children@.len() as int);
        if i < 0 {
            None
        } else {
            node_sketch(t.children@[i].1, path.drop_first())
        }
    }
}

/// Whether adding along `rest` reaches the node at `path`: `path` is a
/// prefix of `rest`, other than the starting node when it is skipped.
pub open spec fn adds_at(path: Seq<Seq<u8>>, rest: Seq<Seq<u8>>, skip_self: bool) -> bool {
    is_prefix(path, rest) && !(skip_self && path.len() == 0)
}

/// A sketch with `d` merged in, or `d` itself where there was none.
pub open spec fn add_sketch(s: Option<Sketch<14>>, d: Sketch<14>) -> Sketch<14> {
    match s {
        None => d,
        Some(x) => sketch_union(x, d),
    }
}

/// A path that starts with `name` is a prefix of a list that starts with
/// `name` exactly when the rests are.
proof fn lemma_prefix_cons(
    path: Seq<Seq<u8>>,
    rest: Seq<Seq<u8>>,
    name: Seq<u8>,
    path_tail: Seq<Seq<u8>>,
    rest_tail: Seq<Seq<u8>>,
)
    requires
        path == seq![name] + path_tail,
        rest.len() > 0,
        rest.drop_first() == rest_tail,
    ensures
        is_prefix(path, rest) == (rest[0] == name && is_prefix(path_tail, rest_tail)),
{
    if is_prefix(path, rest) {
        assert(path[0] == rest.subrange(0, path.len() as int)[0]);
        assert(rest_tail.subrange(0, path_tail.len() as int) =~= path_tail) by {
            assert forall|m: int| 0 <= m < path_tail.len() implies rest_tail.subrange(
                0,
                path_tail.len() as int,
            )[m] == path_tail[m] by {
                assert(rest.subrange(0, path.len() as int)[m + 1] == path[m + 1]);
            }
        }
    }
    if rest[0] == name && is_prefix(path_tail, rest_tail) {
        assert(rest.subrange(0, path.len() as int) =~= path) by {
            assert forall|m: int| 0 <= m < path.len() implies rest.subrange(0, path.len() as int)[m]
                == path[m] by {
                if m > 0 {
                    assert(rest_tail.subrange(0, path_tail.len() as int)[m - 1] == path_tail[m - 1]);
                }
            }
        }
    }
}

/// No node of `t` has two children with one name.
pub open spec fn names_unique(t: CountsTree) -> bool
    decreases t,
{
    &&& forall|a: int, b: int|
        0 <= a < b < t.children@.len() ==> t.children@[a].0@ != t.children@[b].0@
    &&& children_unique(t, t.children@.len() as int)
}

/// Whether the subtrees of the first `n` children of `t` have unique names.
pub open spec fn children_unique(t: CountsTree, n: int) -> bool
    decreases t, n,
{
    if n <= 0 || n > t.children@.len() {
        n <= 0
    } else {
        children_unique(t, n - 1) && names_unique(t.children@[n - 1].1)
    }
}

proof fn lemma_children_unique_get(t: CountsTree, n: int, j: int)
    requires
        children_unique(t, n),
        0 <= j < n <= t.children@.len(),
    ensures
        names_unique(t.children@[j].1),
    decreases n,
{
    if j < n - 1 {
        lemma_children_unique_get(t, n - 1, j);
    }
}

proof fn lemma_children_unique_build(t: CountsTree, n: int)
    requires
        0 <= n <= t.children@.len(),
        forall|j: int| 0 <= j < n ==> names_unique(#[trigger] t.children@[j].1),
    ensures
        children_unique(t, n),
    decreases n,
{
    if n > 0 {
        lemma_children_unique_build(t, n - 1);
    }
}

impl CountsTree {
    /// A node with no counts and no children.
    pub fn new() -> (r: Self)
        ensures
            r.counts.records == 0,
            estimate_of(r.counts.dids) == 0,
            r.children@.len() == 0,
    {
        CountsTree { counts: CountsCell::new(), children: Vec::new() }
    }

    /// Adds `c` to each node along the path of segments `segs[from..]` below
    /// this node, and to this node unless `skip_self` (a node just made from
    /// `c`), making the nodes that are missing from `c`'s counts: the records
    /// at a path grow by `c`'s, and its sketch becomes the union with `c`'s
    /// (or `c`'s own for a new node), exactly when the path is a prefix of
    /// that one.
    pub fn add_path(&mut self, segs: &Vec<Vec<u8>>, from: usize, c: &CountsCell, skip_self: bool) -> (r:
        Result<(), RollupError>)
        requires
            from <= segs@.len(),
        ensures
            r is Ok ==> forall|path: Seq<Seq<u8>>|
                #![trigger records_at(*final(self), path)]
                records_at(*final(self), path) == records_at(*old(self), path) + if adds_at(
                    path,
                    segs@.map_values(|s: Vec<u8>| s@).subrange(from as int, segs@.len() as int),
                    skip_self,
                ) {
                    c.records as int
                } else {
                    0int
                },
            r is Ok ==> forall|path: Seq<Seq<u8>>|
                #![trigger node_sketch(*final(self), path)]
                node_sketch(*final(self), path) == if adds_at(
                    path,
                    segs@.map_values(|s: Vec<u8>| s@).subrange(from as int, segs@.len() as int),
                    skip_self,
                ) {
                    Some(add_sketch(node_sketch(*old(self), path), c.dids))
                } else {
                    node_sketch(*old(self), path)
                },
            (forall|path: Seq<Seq<u8>>|
                adds_at(
                    path,
                    segs@.map_values(|s: Vec<u8>| s@).subrange(from as int, segs@.len() as int),
                    skip_self,
                ) ==> records_at(*old(self), path) + c.records <= u64::MAX) ==> r is Ok,
            r is Ok && names_unique(*old(self)) ==> names_unique(*final(self)),
        decreases segs@.len() - from,
    {
        let ghost rest = segs@.map_values(|s: Vec<u8>| s@).subrange(from as int, segs@.len() as int);
        let ghost old_self = *self;
        let ghost fits = forall|path: Seq<Seq<u8>>|
            adds_at(path, rest, skip_self) ==> records_at(old_self, path) + c.records <= u64::MAX;
        proof {
            assert(rest.subrange(0, 0) =~= Seq::<Seq<u8>>::empty());
            assert(is_prefix(Seq::<Seq<u8>>::empty(), rest));
            if !skip_self {
                assert(adds_at(Seq::<Seq<u8>>::empty(), rest, skip_self));
            }
        }
        if !skip_self {
            self.counts.merge(c)?;
        }
        let ghost merged = *self;
        assert(merged.children@ == old_self.children@);
        if from == segs.len() {
            proof {
                assert forall|path: Seq<Seq<u8>>|
                    #![trigger records_at(*self, path)]
                    records_at(*self, path) == records_at(old_self, path) + if adds_at(path, rest, skip_self) {
                        c.records as int
                    } else {
                        0int
                    } by {
                    assert(self.children@ == old_self.children@);
                    if path.len() > 0 {
                        assert(!is_prefix(path, rest));
                    } else {
                        assert(rest.subrange(0, 0) =~= path);
                    }
                }
                assert forall|path: Seq<Seq<u8>>|
                    #![trigger node_sketch(*self, path)]
                    node_sketch(*self, path) == if adds_at(path, rest, skip_self) {
                        Some(add_sketch(node_sketch(old_self, path), c.dids))
                    } else {
                        node_sketch(old_self, path)
                    } by {
                    assert(self.children@ == old_self.children@);
                    if path.len() > 0 {
                        assert(!is_prefix(path, rest));
                    } else {
                        assert(rest.subrange(0, 0) =~= path);
                    }
                }
                if names_unique(old_self) {
                    assert(self.children@ == old_self.children@);
                    assert forall|j: int| 0 <= j < self.children@.len() implies names_unique(
                        #[trigger] self.children@[j].1,
                    ) by {
                        lemma_children_unique_get(old_self, old_self.children@.len() as int, j);
                    }
                    lemma_children_unique_build(*self, self.children@.len() as int);
                }
            }
            return Ok(());
        }
        let seg = &segs[from];
        let mut at: Option<usize> = None;
        let mut j: usize = 0;
        while j < self.children.len()
            invariant
                j <= self.children@.len(),
                at matches Some(k) ==> k < j && self.children@[k as int].0@ == seg@
                    && forall|m: int| 0 <= m < k ==> self.children@[m].0@ != seg@,
                at is None ==> forall|m: int| 0 <= m < j ==> self.children@[m].0@ != seg@,
            decreases self.children@.len() - j,
        {
            if at.is_none() && bytes_eq(self.children[j].0.as_slice(), seg.as_slice()) {
                at = Some(j);
            }
            j = j + 1;
        }
        let ghost mid = self.children@;
        let ghost tail = segs@.map_values(|s: Vec<u8>| s@).subrange(from + 1, segs@.len() as int);
        proof {
            lemma_first_child_bounds(mid, seg@, mid.len() as int);
            assert(rest.len() > 0 && rest[0] == seg@);
            assert(rest.drop_first() =~= tail);
        }
        let i = match at {
            Some(k) => {
                proof {
                    if first_child(mid, seg@, mid.len() as int) != k {
                        lemma_first_child_bounds(mid, seg@, mid.len() as int);
                    }
                }
                k
            },
            None => {
                let e = (bytes_to_vec(seg.as_slice()), CountsTree { counts: c.copy(), children: Vec::new() });
                proof {
                    lemma_first_child_push(mid, e, seg@);
                }
                self.children.push(e);
                self.children.len() - 1
            },
        };
        let ghost grown = self.children@;
        assert(first_child(grown, seg@, grown.len() as int) == i) by {
            lemma_first_child_bounds(mid, seg@, mid.len() as int);
            if at is None {
                lemma_first_child_push(mid, grown[i as int], seg@);
                assert(grown =~= mid.push(grown[i as int]));
            }
        }
        let (name, mut child) = self.children.remove(i);
        let ghost old_child = child;
        let fresh = at.is_none();
        assert(old_child == grown[i as int].1);
        proof {
            if fits {
                assert forall|p2: Seq<Seq<u8>>| adds_at(p2, tail, fresh) implies records_at(old_child, p2)
                    + c.records <= u64::MAX by {
                    let path = seq![seg@] + p2;
                    lemma_prefix_cons(path, rest, seg@, p2, tail);
                    lemma_first_child_bounds(mid, seg@, mid.len() as int);
                    if fresh {
                        let one = seq![seg@];
                        assert(one =~= seq![seg@] + Seq::<Seq<u8>>::empty());
                        lemma_prefix_cons(one, rest, seg@, Seq::empty(), tail);
                        assert(tail.subrange(0, 0) =~= Seq::<Seq<u8>>::empty());
                        assert(adds_at(one, rest, skip_self));
                        assert(one.drop_first() =~= Seq::<Seq<u8>>::empty());
                        assert(records_at(old_self, one) == 0);
                        assert(records_at(old_self, one) + c.records <= u64::MAX);
                        assert(records_at(old_child, p2) == 0) by {
                            if p2.len() > 0 {
                                assert(old_child.children@.len() == 0);
                            }
                        }
                    } else {
                        assert(grown == mid);
                        assert(path.drop_first() =~= p2);
                        assert(adds_at(path, rest, skip_self));
                        assert(records_at(old_self, path) == records_at(old_child, p2));
                    }
                }
            }
        }
        proof {
            if names_unique(old_self) {
                if fresh {
                    assert(children_unique(old_child, 0));
                } else {
                    assert(grown == mid);
                    lemma_children_unique_get(old_self, mid.len() as int, i as int);
                }
            }
        }
        child.add_path(segs, from + 1, c, fresh)?;
        self.children.insert(i, (name, child));
        proof {
            let fin = self.children@;
            assert(fin =~= grown.update(i as int, (name, child)));
            if names_unique(old_self) {
                assert(self.children@ == fin);
                assert forall|a: int, b: int|
                    0 <= a < b < fin.len() implies fin[a].0@ != fin[b].0@ by {
                    if fresh {
                        assert(grown =~= mid.push(grown[i as int]));
                    } else {
                        assert(grown == mid);
                    }
                    assert(fin[a].0@ == grown[a].0@ && fin[b].0@ == grown[b].0@);
                }
                assert forall|j: int| 0 <= j < fin.len() implies names_unique(#[trigger] fin[j].1) by {
                    if j != i {
                        if fresh {
                            assert(grown =~= mid.push(grown[i as int]));
                        } else {
                            assert(grown == mid);
                        }
                        assert(fin[j] == grown[j]);
                        assert(grown[j] == mid[j]);
                        lemma_children_unique_get(old_self, mid.len() as int, j);
                    }
                }
                lemma_children_unique_build(*self, fin.len() as int);
            }
            assert forall|path: Seq<Seq<u8>>|
                #![trigger records_at(*self, path)]
                #![trigger node_sketch(*self, path)]
                path.len() > 0 implies {
                    &&& records_at(*self, path) == records_at(old_self, path) + if adds_at(path, rest, skip_self) {
                        c.records as int
                    } else {
                        0int
                    }
                    &&& node_sketch(*self, path) == if adds_at(path, rest, skip_self) {
                        Some(add_sketch(node_sketch(old_self, path), c.dids))
                    } else {
                        node_sketch(old_self, path)
                    }
                } by {
                let name0 = path[0];
                let rest_path = path.drop_first();
                lemma_first_child_same_names(fin, grown, name0, fin.len() as int);
                lemma_first_child_bounds(grown, name0, grown.len() as int);
                lemma_first_child_bounds(mid, name0, mid.len() as int);
                if fresh {
                    lemma_first_child_push(mid, grown[i as int], name0);
                    assert(grown =~= mid.push(grown[i as int]));
                } else {
                    assert(grown == mid);
                }
                let f = first_child(grown, name0, grown.len() as int);
                assert(first_child(fin, name0, fin.len() as int) == f);
                assert(path =~= seq![name0] + rest_path);
                lemma_prefix_cons(path, rest, name0, rest_path, tail);
                if name0 == seg@ {
                    assert(f == i);
                    assert(records_at(*self, path) == records_at(child, rest_path));
                    assert(node_sketch(*self, path) == node_sketch(child, rest_path));
                    if fresh {
                        assert(first_child(mid, name0, mid.len() as int) < 0);
                        assert(records_at(old_self, path) == 0);
                        assert(node_sketch(old_self, path) is None);
                        if rest_path.len() > 0 {
                            assert(old_child.children@.len() == 0);
                            assert(records_at(old_child, rest_path) == 0);
                            assert(node_sketch(old_child, rest_path) is None);
                        } else {
                            assert(rest_path.subrange(0, 0) =~= rest_path);
                            assert(is_prefix(rest_path, tail)) by {
                                assert(tail.subrange(0, 0) =~= rest_path);
                            }
                        }
                    } else {
                        assert(records_at(old_self, path) == records_at(old_child, rest_path));
                        assert(node_sketch(old_self, path) == node_sketch(old_child, rest_path));
                    }
                } else {
                    if f >= 0 {
                        assert(f != i);
                        assert(fin[f] == grown[f]);
                        if fresh {
                            assert(f < mid.len());
                            assert(grown[f] == mid[f]);
                        }
                        assert(first_child(mid, name0, mid.len() as int) == f);
                    } else {
                        assert(first_child(mid, name0, mid.len() as int) < 0);
                    }
                }
            }
            assert forall|path: Seq<Seq<u8>>|
                #![trigger records_at(*self, path)]
                records_at(*self, path) == records_at(old_self, path) + if adds_at(path, rest, skip_self) {
                    c.records as int
                } else {
                    0int
                } by {
                if path.len() > 0 {
                    assert(records_at(*self, path) == records_at(old_self, path) + if adds_at(path, rest, skip_self) {
                        c.records as int
                    } else {
                        0int
                    });
                } else {
                    assert(rest.subrange(0, 0) =~= path);
                    assert(self.counts == merged.counts);
                }
            }
            assert forall|path: Seq<Seq<u8>>|
                #![trigger node_sketch(*self, path)]
                node_sketch(*self, path) == if adds_at(path, rest, skip_self) {
                    Some(add_sketch(node_sketch(old_self, path), c.dids))
                } else {
                    node_sketch(old_self, path)
                } by {
                if path.len() > 0 {
                    assert(node_sketch(*self, path) == if adds_at(path, rest, skip_self) {
                        Some(add_sketch(node_sketch(old_self, path), c.dids))
                    } else {
                        node_sketch(old_self, path)
                    });
                } else {
                    assert(rest.subrange(0, 0) =~= path);
                    assert(self.counts == merged.counts);
                }
            }
        }
        Ok(())
    }

    /// The tree as query results: counts and estimates at every node, and
    /// segments as text (see `top_matches`).
    pub fn to_top(&self) -> (r: TopCollections)
        ensures
            top_matches(r, *self),
        decreases self,
    {
        let mut children: Vec<(String, TopCollections)> = Vec::new();
        let mut i: usize = 0;
        while i < self.children.len()
            invariant
                i <= self.children@.len(),
                children@.len() == i,
                forall|j: int|
                    #![trigger children@[j]]
                    0 <= j < i ==> children@[j].0@ == lossy_text(self.children@[j].0@) && top_matches(
                        children@[j].1,
                        self.children@[j].1,
                    ),
            decreases self.children@.len() - i,
        {
            proof {
                assert(decreases_to!(self.children => self.children[i as int]));
            }
            let name = text_of(self.children[i].0.as_slice());
            let sub = self.children[i].1.to_top();
            children.push((name, sub));
            i = i + 1;
        }
        let est = self.counts.estimate();
        let t = TopCollections {
            total_records: self.counts.records,
            dids_estimate: est,
            nsid_child_segments: children,
        };
        proof {
            lemma_children_match(t, *self, self.children@.len() as int);
        }
        t
    }
}

/// Whether the query tree `t` shows the counts tree `c`: the same records,
/// the estimate of the same sketch, and each child's segment as text over a
/// child that shows the same child.
pub open spec fn top_matches(t: TopCollections, c: CountsTree) -> bool
    decreases c,
{
    &&& t.total_records == c.counts.records
    &&& t.dids_estimate == estimate_of(c.counts.dids)
    &&& t.nsid_child_segments@.len() == c.children@.len()
    &&& children_match(t, c, c.children@.len() as int)
}

/// Whether the first `n` children of `t` show those of `c`.
pub open spec fn children_match(t: TopCollections, c: CountsTree, n: int) -> bool
    decreases c, n,
{
    if n <= 0 || n > c.children@.len() || n > t.nsid_child_segments@.len() {
        n <= 0
    } else {
        &&& children_match(t, c, n - 1)
        &&& t.nsid_child_segments@[n - 1].0@ == lossy_text(c.children@[n - 1].0@)
        &&& top_matches(t.nsid_child_segments@[n - 1].1, c.children@[n - 1].1)
    }
}

proof fn lemma_children_match(t: TopCollections, c: CountsTree, n: int)
    requires
        0 <= n <= c.children@.len(),
        t.nsid_child_segments@.len() == c.children@.len(),
        forall|j: int|
            #![trigger t.nsid_child_segments@[j]]
            0 <= j < n ==> t.nsid_child_segments@[j].0@ == lossy_text(c.children@[j].0@)
                && top_matches(t.nsid_child_segments@[j].1, c.children@[j].1),
    ensures
        children_match(t, c, n),
    decreases n,
{
    if n > 0 {
        lemma_children_match(t, c, n - 1);
        assert(t.nsid_child_segments@[n - 1].0@ == lossy_text(c.children@[n - 1].0@));
    }
}

/// The records of the all-time cells `rows[0..n]`.
pub open spec fn cells_sum(rows: Seq<(Vec<u8>, Vec<u8>)>, n: int) -> int
    decreases n,
{
    if n <= 0 {
        0
    } else {
        cells_sum(rows, n - 1) + be64_at(rows[n - 1].1@, 0)
    }
}

/// The records of the all-time cells `rows[0..n]` whose collection, split
/// into `segs[i]`, lies under `path`.
pub open spec fn path_sum(
    rows: Seq<(Vec<u8>, Vec<u8>)>,
    segs: Seq<Seq<Seq<u8>>>,
    n: int,
    path: Seq<Seq<u8>>,
) -> int
    decreases n,
{
    if n <= 0 {
        0
    } else {
        path_sum(rows, segs, n - 1, path) + if is_prefix(path, segs[n - 1]) {
            be64_at(rows[n - 1].1@, 0) as int
        } else {
            0int
        }
    }
}

/// Whether `segs` splits each collection of `rows` at its dots.
pub open spec fn splits_rows(rows: Seq<(Vec<u8>, Vec<u8>)>, segs: Seq<Seq<Seq<u8>>>, n: int) -> bool {
    &&& segs.len() == n
    &&& forall|i: int|
        #![trigger segs[i]]
        0 <= i < n ==> {
            &&& rows[i].0@ == counts_key_spec(Period::AllTime, join_dots(segs[i]))
            &&& forall|a: int, b: int|
                0 <= a < segs[i].len() && 0 <= b < segs[i][a].len() ==> segs[i][a][b] != DOT
        }
}

/// Whether `c` is the roll-up of the all-time cells `rows`: for some split
/// of each collection at its dots, the node at each path counts the records
/// of the cells whose segments start with the path; a node other than the
/// root exists exactly when some cell lies under its path, and its sketch is
/// the in-order union of those cells' sketches; the root's sketch is the
/// union of every cell's from a sketch of estimate 0; and no node has two
/// children with one name.
pub open spec fn counts_rows(c: CountsTree, rows: Seq<(Vec<u8>, Vec<u8>)>) -> bool {
    &&& exists|segs: Seq<Seq<Seq<u8>>>|
        #[trigger] splits_rows(rows, segs, rows.len() as int) && (forall|path: Seq<Seq<u8>>|
            records_at(c, path) == path_sum(rows, segs, rows.len() as int, path)) && (forall|
            path: Seq<Seq<u8>>,
        |
            path.len() > 0 ==> node_sketch(c, path) == path_sketch(
                rows,
                segs,
                rows.len() as int,
                path,
            ))
    &&& exists|e: Sketch<14>|
        estimate_of(e) == 0 && c.counts.dids == #[trigger] all_union(e, rows, rows.len() as int)
    &&& names_unique(c)
}

/// The union, in order, of the sketches of the all-time cells `rows[0..n]`
/// whose collection, split into `segs[i]`, lies under `path`; `None` when
/// there is none (and so no node at `path`).
pub open spec fn path_sketch(
    rows: Seq<(Vec<u8>, Vec<u8>)>,
    segs: Seq<Seq<Seq<u8>>>,
    n: int,
    path: Seq<Seq<u8>>,
) -> Option<Sketch<14>>
    decreases n,
{
    if n <= 0 {
        None
    } else {
        let prev = path_sketch(rows, segs, n - 1, path);
        if is_prefix(path, segs[n - 1]) {
            Some(add_sketch(prev, cell_sketch(rows[n - 1].1@)))
        } else {
            prev
        }
    }
}

/// `start` merged with the sketches of the all-time cells `rows[0..n]`.
pub open spec fn all_union(start: Sketch<14>, rows: Seq<(Vec<u8>, Vec<u8>)>, n: int) -> Sketch<14>
    decreases n,
{
    if n <= 0 {
        start
    } else {
        sketch_union(all_union(start, rows, n - 1), cell_sketch(rows[n - 1].1@))
    }
}

proof fn lemma_path_sketch_prefix(
    rows: Seq<(Vec<u8>, Vec<u8>)>,
    a: Seq<Seq<Seq<u8>>>,
    b: Seq<Seq<Seq<u8>>>,
    n: int,
    path: Seq<Seq<u8>>,
)
    requires
        n <= a.len(),
        n <= b.len(),
        forall|k: int| 0 <= k < n ==> a[k] == b[k],
    ensures
        path_sketch(rows, a, n, path) == path_sketch(rows, b, n, path),
    decreases n,
{
    if n > 0 {
        lemma_path_sketch_prefix(rows, a, b, n - 1, path);
    }
}

/// Rolls the all-time cells `rows` (raw key and value bytes) up along the
/// segments of their collection names: the node at each path of segments
/// counts the records of every collection whose segments start with it.
pub fn hierarchical_counts(rows: &Vec<(Vec<u8>, Vec<u8>)>) -> (r: Result<CountsTree, StorageError>)
    ensures
        (forall|i: int|
            0 <= i < rows@.len() ==> (exists|n: Seq<u8>|
                no_nul(n) && rows@[i].0@ == #[trigger] counts_key_spec(Period::AllTime, n)) && cell_ok(
                rows@[i].1@,
            )) && cells_sum(rows@, rows@.len() as int) <= u64::MAX ==> r is Ok,
        r matches Ok(t) ==> counts_rows(t, rows@),
{
    let mut root = CountsTree::new();
    let ghost e = root.counts.dids;
    let ghost mut segs_so_far: Seq<Seq<Seq<u8>>> = Seq::empty();
    let mut i: usize = 0;
    proof {
        assert forall|path: Seq<Seq<u8>>| records_at(root, path) == path_sum(rows@, segs_so_far, 0, path) by {
            if path.len() > 0 {
                assert(root.children@.len() == 0);
            }
        }
        assert forall|path: Seq<Seq<u8>>|
            path.len() > 0 implies node_sketch(root, path) == path_sketch(rows@, segs_so_far, 0, path) by {
            assert(root.children@.len() == 0);
        }
        assert(children_unique(root, 0));
    }
    while i < rows.len()
        invariant
            i <= rows@.len(),
            splits_rows(rows@, segs_so_far, i as int),
            forall|path: Seq<Seq<u8>>|
                records_at(root, path) == path_sum(rows@, segs_so_far, i as int, path),
            forall|path: Seq<Seq<u8>>|
                path.len() > 0 ==> node_sketch(root, path) == path_sketch(
                    rows@,
                    segs_so_far,
                    i as int,
                    path,
                ),
            estimate_of(e) == 0,
            root.counts.dids == all_union(e, rows@, i as int),
            names_unique(root),
        decreases rows@.len() - i,
    {
        proof {
            if exists|n: Seq<u8>| no_nul(n) && rows@[i as int].0@ == counts_key_spec(Period::AllTime, n) {
                let n0 = choose|n: Seq<u8>| no_nul(n) && rows@[i as int].0@ == counts_key_spec(Period::AllTime, n);
            }
            lemma_cells_sum_grows(rows@, i + 1, rows@.len() as int);
        }
        let nsid = match crate::reader::decode_ever_counts_key(rows[i].0.as_slice()) {
            Ok(n) => n,
            Err(e) => {
                return Err(StorageError::DecodeError(e));
            },
        };
        let counts = match CountsCell::from_db_bytes(rows[i].1.as_slice()) {
            Ok(c) => c,
            Err(e) => {
                return Err(StorageError::RollupError(e));
            },
        };
        let segs = split_nsid(nsid.as_slice());
        let ghost before = root;
        let ghost sv = segs@.map_values(|s: Vec<u8>| s@);
        proof {
            assert forall|path: Seq<Seq<u8>>| #![trigger records_at(root, path)]
                records_at(root, path) <= cells_sum(rows@, i as int) by {
                lemma_path_sum_le(rows@, segs_so_far, i as int, path);
            }
            assert(cells_sum(rows@, i + 1) == cells_sum(rows@, i as int) + counts.records);
        }
        match root.add_path(&segs, 0, &counts, false) {
            Ok(()) => {},
            Err(e) => {
                return Err(StorageError::RollupError(e));
            },
        }
        proof {
            assert(sv.subrange(0, sv.len() as int) =~= sv);
            let next = segs_so_far.push(sv);
            assert forall|path: Seq<Seq<u8>>|
                records_at(root, path) == path_sum(rows@, next, i + 1, path) by {
                assert(path_sum(rows@, next, i as int, path) == path_sum(rows@, segs_so_far, i as int, path)) by {
                    lemma_path_sum_prefix(rows@, segs_so_far, next, i as int, path);
                }
            }
            assert(counts.dids == cell_sketch(rows@[i as int].1@));
            assert forall|path: Seq<Seq<u8>>|
                path.len() > 0 implies node_sketch(root, path) == path_sketch(rows@, next, i + 1, path) by {
                lemma_path_sketch_prefix(rows@, segs_so_far, next, i as int, path);
                assert(next[i as int] == sv);
                assert(node_sketch(root, path) == if adds_at(path, sv, false) {
                    Some(add_sketch(node_sketch(before, path), counts.dids))
                } else {
                    node_sketch(before, path)
                });
            }
            let empty = Seq::<Seq<u8>>::empty();
            assert(sv.subrange(0, 0) =~= empty);
            assert(adds_at(empty, sv, false));
            assert(node_sketch(root, empty) == Some(add_sketch(node_sketch(before, empty), counts.dids)));
            assert(root.counts.dids == all_union(e, rows@, i + 1));
            assert forall|k: int| #![trigger next[k]] 0 <= k < i + 1 implies {
                &&& rows@[k].0@ == counts_key_spec(Period::AllTime, join_dots(next[k]))
                &&& forall|a: int, b: int|
                    0 <= a < next[k].len() && 0 <= b < next[k][a].len() ==> next[k][a][b] != DOT
            } by {
                if k < i {
                    assert(next[k] == segs_so_far[k]);
                } else {
                    assert(next[k] == sv);
                    assert forall|a: int, b: int|
                        0 <= a < sv.len() && 0 <= b < sv[a].len() implies sv[a][b] != DOT by {
                        assert(sv[a] == segs@[a]@);
                    }
                }
            }
            segs_so_far = next;
        }
        i = i + 1;
    }
    Ok(root)
}

proof fn lemma_path_sum_le(
    rows: Seq<(Vec<u8>, Vec<u8>)>,
    segs: Seq<Seq<Seq<u8>>>,
    n: int,
    path: Seq<Seq<u8>>,
)
    ensures
        path_sum(rows, segs, n, path) <= cells_sum(rows, n),
    decreases n,
{
    if n > 0 {
        lemma_path_sum_le(rows, segs, n - 1, path);
    }
}

proof fn lemma_cells_sum_grows(rows: Seq<(Vec<u8>, Vec<u8>)>, i: int, j: int)
    requires
        i <= j,
    ensures
        cells_sum(rows, i) <= cells_sum(rows, j),
    decreases j - i,
{
    if i < j {
        lemma_cells_sum_grows(rows, i, j - 1);
    }
}

proof fn lemma_path_sum_prefix(
    rows: Seq<(Vec<u8>, Vec<u8>)>,
    a: Seq<Seq<Seq<u8>>>,
    b: Seq<Seq<Seq<u8>>>,
    n: int,
    path: Seq<Seq<u8>>,
)
    requires
        n <= a.len(),
        n <= b.len(),
        forall|k: int| 0 <= k < n ==> a[k] == b[k],
    ensures
        path_sum(rows, a, n, path) == path_sum(rows, b, n, path),
    decreases n,
{
    if n > 0 {
        lemma_path_sum_prefix(rows, a, b, n - 1, path);
    }
}

/// The hierarchical counts as query results: a tree that shows (see
/// `top_matches`) the counts tree of `hierarchical_counts`, so its root
/// counts every record.
pub fn hierarchical_top(rows: &Vec<(Vec<u8>, Vec<u8>)>) -> (r: Result<TopCollections, StorageError>)
    ensures
        r matches Ok(t) ==> t.total_records == cells_sum(rows@, rows@.len() as int),
        r matches Ok(t) ==> exists|c: CountsTree| #[trigger] top_matches(t, c) && counts_rows(c, rows@),
        (forall|i: int|
            0 <= i < rows@.len() ==> (exists|n: Seq<u8>|
                no_nul(n) && rows@[i].0@ == #[trigger] counts_key_spec(Period::AllTime, n)) && cell_ok(
                rows@[i].1@,
            )) && cells_sum(rows@, rows@.len() as int) <= u64::MAX ==> r is Ok,
{
    let tree = match hierarchical_counts(rows) {
        Ok(t) => t,
        Err(e) => {
            return Err(e);
        },
    };
    let top = tree.to_top();
    proof {
        let segs = choose|segs: Seq<Seq<Seq<u8>>>|
            splits_rows(rows@, segs, rows@.len() as int) && forall|path: Seq<Seq<u8>>|
                records_at(tree, path) == path_sum(rows@, segs, rows@.len() as int, path);
        lemma_root_sum(rows@, segs, rows@.len() as int);
        assert(records_at(tree, Seq::empty()) == path_sum(rows@, segs, rows@.len() as int, Seq::empty()));
        assert(top_matches(top, tree));
    }
    let r: Result<TopCollections, StorageError> = Ok(top);
    proof {
        assert(top_matches(r->Ok_0, tree));
        assert(counts_rows(tree, rows@));
    }
    r
}

proof fn lemma_root_sum(rows: Seq<(Vec<u8>, Vec<u8>)>, segs: Seq<Seq<Seq<u8>>>, n: int)
    requires
        n <= segs.len(),
    ensures
        path_sum(rows, segs, n, Seq::empty()) == cells_sum(rows, n),
    decreases n,
{
    if n > 0 {
        lemma_root_sum(rows, segs, n - 1);
        assert(segs[n - 1].subrange(0, 0) =~= Seq::<Seq<u8>>::empty());
    }
}

} // verus!
