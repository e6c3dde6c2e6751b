//! The distinct-account sketch: a cardinality estimator over DIDs.
//!
//! The estimator itself is an outside type; the library carries it through
//! counts cells and asks it only for merges, inserts, estimates and bytes.
use vstd::prelude::*;
use cardinality_estimator_safe::{Element, Sketch};
use sha2::Sha256;

verus! {

#[verifier::external_type_specification]
#[verifier::external_body]
pub struct ExSketch<const P: usize, const W: usize>(Sketch<P, W>);

/// The sketch used for every count: precision 14.
pub type DidSketch = Sketch<14>;

/// The estimate that a sketch gives, a function of the sketch alone.
pub uninterp spec fn estimate_of(s: Sketch<14>) -> nat;

/// The bytes a sketch is stored as, a function of the sketch alone.
pub uninterp spec fn sketch_encoding(s: Sketch<14>) -> Seq<u8>;

/// What decoding a sketch from the start of some bytes gives: the sketch and
/// how many bytes it took, or `None` when the bytes do not hold one. A
/// function of the bytes alone.
pub uninterp spec fn sketch_decode(b: Seq<u8>) -> Option<(Sketch<14>, nat)>;

/// The sketch that counts the members of both sketches.
pub uninterp spec fn sketch_union(a: Sketch<14>, b: Sketch<14>) -> Sketch<14>;

/// The sketch that counts the members of `s` and the account `did`.
pub uninterp spec fn sketch_with_did(s: Sketch<14>, did: Seq<u8>) -> Sketch<14>;

/// Relies on `Sketch::default`: an empty sketch, whose estimate is zero.
#[verifier::external_body]
pub fn empty_sketch() -> (r: DidSketch)
    ensures
        estimate_of(r) == 0,
{
    Sketch::<14>::default()
}

/// Relies on `Sketch::estimate`: the estimated number of distinct members.
#[verifier::external_body]
pub fn sketch_estimate(s: &DidSketch) -> (r: u64)
    ensures
        r == estimate_of(*s),
{
    s.estimate() as u64
}

/// Relies on `Sketch::merge`: `a` then counts the members of both; the
/// result depends on the two sketches alone.
#[verifier::external_body]
pub fn sketch_merge(a: &mut DidSketch, b: &DidSketch)
    ensures
        *final(a) == sketch_union(*old(a), *b),
{
    a.merge(b)
}

/// Relies on `Element::from_digest_oneshot` with SHA-256 and on
/// `Sketch::insert`: the account is counted as a member.
#[verifier::external_body]
pub fn sketch_insert_did(s: &mut DidSketch, did: &[u8])
    ensures
        *final(s) == sketch_with_did(*old(s), did@),
{
    s.insert(Element::<14>::from_digest_oneshot::<Sha256>(did))
}

/// Relies on `bincode::serde::encode_to_vec` with the standard
/// configuration: the sketch's serde form as bytes. Writing into a `Vec`
/// cannot fail for a sketch, so the result is always there.
#[verifier::external_body]
pub fn encode_sketch(s: &DidSketch) -> (r: Option<Vec<u8>>)
    ensures
        r is Some,
        r matches Some(v) ==> v@ == sketch_encoding(*s),
{
    bincode::serde::encode_to_vec(s, bincode::config::standard()).ok()
}

/// Relies on `bincode::serde::decode_from_slice` with the standard
/// configuration: a sketch read from the start of `b`, and how many bytes
/// it took, or `None` when bincode reports an error.
#[verifier::external_body]
pub fn decode_sketch(b: &[u8]) -> (r: Option<(DidSketch, usize)>)
    ensures
        r is Some <==> sketch_decode(b@) is Some,
        r matches Some((d, n)) ==> n <= b@.len() && sketch_decode(b@) == Some((d, n as nat)),
{
    bincode::serde::decode_from_slice::<DidSketch, _>(b, bincode::config::standard()).ok()
}

/// Relies on `Sketch::clone` (derived): an equal copy.
#[verifier::external_body]
pub fn sketch_clone(s: &DidSketch) -> (r: DidSketch)
    ensures
        r == *s,
{
    s.clone()
}

} // verus!
