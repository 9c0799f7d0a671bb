//! Content signature extraction.
//!
//! Each pipeline stage compares candidates by one signature: the base name,
//! the byte size, or a SHA-1 digest over a bounded prefix of the content
//! (the whole content when the bound is zero). Two candidates are equivalent
//! at a stage exactly when their signatures are equal; a candidate without a
//! signature at a stage is excluded from that stage on.

use crate::candidate::{CandView, FileCandidate};
use sha1::{Digest, Sha1};
use vstd::prelude::*;

verus! {

/// One grouping pass criterion.
#[derive(Clone, Copy, PartialEq, Eq, Structural, Debug)]
pub enum Stage {
    /// Group by the file's base name.
    ByName,
    /// Group by the file's byte size from metadata.
    BySize,
    /// Group by the SHA-1 digest of the first so many content bytes;
    /// a bound of zero means the whole content.
    ByPrefixHash(usize),
}

/// The model of a signature key: what a stage compares.
#[verifier::ext_equal]
pub enum KeyView {
    Name(Seq<char>),
    Size(u64),
    Digest(Seq<u8>),
}

/// A signature key as the grouping engine holds it.
pub enum Key {
    Name(String),
    Size(u64),
    Digest(Vec<u8>),
}

impl View for Key {
    type V = KeyView;

    open spec fn view(&self) -> KeyView {
        match self {
            Key::Name(s) => KeyView::Name(s@),
            Key::Size(sz) => KeyView::Size(*sz),
            Key::Digest(d) => KeyView::Digest(d@),
        }
    }
}

impl DeepView for Key {
    type V = KeyView;

    open spec fn deep_view(&self) -> KeyView {
        self.view()
    }
}

/// The SHA-1 digest of a byte sequence. Stated by name only: the digest is a
/// fixed function of the bytes, computed by the outside hash implementation.
pub uninterp spec fn sha1_of(bytes: Seq<u8>) -> Seq<u8>;

/// Relies on the sha1 crate's one-shot `Sha1::digest`: the digest depends on
/// the input bytes alone and is 20 bytes (160 bits) long.
#[verifier::external_body]
fn sha1_digest(bytes: &[u8]) -> (r: Vec<u8>)
    ensures
        r@ == sha1_of(bytes@),
        r@.len() == 20,
{
    Sha1::digest(bytes).to_vec()
}

/// The part of the content a bounded prefix hash reads: the first `limit`
/// bytes, or everything when `limit` is zero or the content is shorter.
pub open spec fn spec_prefix(bytes: Seq<u8>, limit: usize) -> Seq<u8> {
    if limit == 0 || bytes.len() <= limit {
        bytes
    } else {
        bytes.take(limit as int)
    }
}

/// The signature of a candidate at a stage, or `None` when the stage's
/// input (metadata size, content bytes) is unavailable for the candidate.
pub open spec fn spec_signature(st: Stage, c: CandView) -> Option<KeyView> {
    match st {
        Stage::ByName => Some(KeyView::Name(c.name)),
        Stage::BySize => match c.size {
            Some(sz) => Some(KeyView::Size(sz)),
            None => None,
        },
        Stage::ByPrefixHash(limit) => match c.content {
            Some(bytes) => Some(KeyView::Digest(sha1_of(spec_prefix(bytes, limit)))),
            None => None,
        },
    }
}

/// The first `n` bytes of a vector.
fn prefix_bytes(b: &Vec<u8>, n: usize) -> (r: Vec<u8>)
    requires
        n <= b@.len(),
    ensures
        r@ == b@.take(n as int),
{
    let mut r: Vec<u8> = Vec::new();
    let mut i: usize = 0;
    while i < n
        invariant
            0 <= i <= n <= b@.len(),
            r@ == b@.take(i as int),
        decreases n - i,
    {
        r.push(b[i]);
        proof {
            assert(r@ =~= b@.take(i as int + 1));
        }
        i = i + 1;
    }
    r
}

/// Computes the signature of a candidate at a stage.
pub fn signature(c: &FileCandidate, st: Stage) -> (k: Option<Key>)
    ensures
        k.deep_view() == spec_signature(st, c@),
{
    match st {
        Stage::ByName => Some(Key::Name(c.name.clone())),
        Stage::BySize => match c.size {
            Some(sz) => Some(Key::Size(sz)),
            None => None,
        },
        Stage::ByPrefixHash(limit) => match &c.content {
            Some(b) => {
                let d = if limit == 0 || b.len() <= limit {
                    proof {
                        assert(spec_prefix(b@, limit) == b@);
                    }
                    sha1_digest(b.as_slice())
                } else {
                    let p = prefix_bytes(b, limit);
                    sha1_digest(p.as_slice())
                };
                Some(Key::Digest(d))
            },
            None => None,
        },
    }
}

/// Compares two signature keys; equal exactly when their models are equal.
pub fn key_eq(a: &Key, b: &Key) -> (r: bool)
    ensures
        r == (a@ == b@),
{
    match (a, b) {
        (Key::Name(x), Key::Name(y)) => x.eq(y),
        (Key::Size(x), Key::Size(y)) => *x == *y,
        (Key::Digest(x), Key::Digest(y)) => bytes_eq(x, y),
        _ => false,
    }
}

/// Compares two byte vectors element by element.
fn bytes_eq(a: &Vec<u8>, b: &Vec<u8>) -> (r: bool)
    ensures
        r == (a@ == b@),
{
    if a.len() != b.len() {
        return false;
    }
    let mut i: usize = 0;
    while i < a.len()
        invariant
            0 <= i <= a@.len(),
            a@.len() == b@.len(),
            forall|j: int| 0 <= j < i ==> a@[j] == b@[j],
        decreases a@.len() - i,
    {
        if a[i] != b[i] {
            return false;
        }
        i = i + 1;
    }
    proof {
        assert(a@ =~= b@);
    }
    true
}

} // verus!
