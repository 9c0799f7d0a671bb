//! The file candidates that the pipeline narrows.
//!
//! A candidate is a regular file reference with the plain values the stages
//! read: its path, its base name, its byte size as the metadata gave it, and
//! its content bytes. A `None` size or content stands for metadata or read
//! failure; such a candidate is silently dropped by the stage that needs the
//! missing value.

use vstd::prelude::*;

verus! {

/// The mathematical model of a candidate: the values the stages compare.
#[verifier::ext_equal]
pub struct CandView {
    pub path: Seq<char>,
    pub name: Seq<char>,
    pub size: Option<u64>,
    pub content: Option<Seq<u8>>,
}

/// A file under consideration for duplicate grouping.
pub struct FileCandidate {
    /// The file's full path, for reporting.
    pub path: String,
    /// The file's base name (last path component).
    pub name: String,
    /// The byte size from metadata; `None` when metadata could not be read.
    pub size: Option<u64>,
    /// The file's bytes; `None` when the file could not be opened or read.
    pub content: Option<Vec<u8>>,
}

impl View for FileCandidate {
    type V = CandView;

    open spec fn view(&self) -> CandView {
        CandView {
            path: self.path@,
            name: self.name@,
            size: self.size,
            content: match self.content {
                Some(ref b) => Some(b@),
                None => None,
            },
        }
    }
}

impl DeepView for FileCandidate {
    type V = CandView;

    open spec fn deep_view(&self) -> CandView {
        self.view()
    }
}

/// Copies a byte vector element by element.
pub fn clone_bytes(b: &Vec<u8>) -> (r: Vec<u8>)
    ensures
        r@ == b@,
{
    let mut r: Vec<u8> = Vec::new();
    let mut i: usize = 0;
    while i < b.len()
        invariant
            0 <= i <= b@.len(),
            r@ == b@.take(i as int),
        decreases b@.len() - i,
    {
        r.push(b[i]);
        proof {
            assert(r@ =~= b@.take(i as int + 1));
        }
        i = i + 1;
    }
    proof {
        assert(b@.take(b@.len() as int) =~= b@);
    }
    r
}

impl Clone for FileCandidate {
    /// A clone carries exactly the same model.
    fn clone(&self) -> (r: Self)
        ensures
            r@ == self@,
    {
        let r = FileCandidate {
            path: self.path.clone(),
            name: self.name.clone(),
            size: self.size,
            content: match &self.content {
                Some(b) => Some(clone_bytes(b)),
                None => None,
            },
        };
        proof {
            assert(r@ =~= self@);
        }
        r
    }
}

/// Whether a candidate's metadata size is known and strictly above the
/// threshold.
pub open spec fn spec_keeps(min_size: u64) -> spec_fn(CandView) -> bool {
    |c: CandView| c.size matches Some(sz) && sz > min_size
}

/// The candidates of `s` whose metadata size is known and strictly above
/// `min_size` bytes, in their input order.
pub open spec fn spec_above_min_size(s: Seq<CandView>, min_size: u64) -> Seq<CandView> {
    s.filter(spec_keeps(min_size))
}

/// Keeps the candidates whose known size is strictly above the threshold;
/// all others, including those without a readable size, are excluded from
/// consideration entirely.
pub fn filter_by_min_size(cands: &Vec<FileCandidate>, min_size: u64) -> (kept: Vec<FileCandidate>)
    ensures
        kept.deep_view() == spec_above_min_size(cands.deep_view(), min_size),
{
    let ghost all = cands.deep_view();
    let ghost pred = spec_keeps(min_size);
    let mut kept: Vec<FileCandidate> = Vec::new();
    let mut i: usize = 0;
    proof {
        reveal(Seq::filter);
        assert(kept.deep_view() =~= all.take(0).filter(pred));
    }
    while i < cands.len()
        invariant
            0 <= i <= all.len(),
            pred == spec_keeps(min_size),
            all == cands.deep_view(),
            all.len() == cands@.len(),
            kept.deep_view() == all.take(i as int).filter(pred),
        decreases all.len() - i,
    {
        let ghost prev = kept.deep_view();
        proof {
            assert(all.take(i as int + 1).drop_last() =~= all.take(i as int));
            assert(all.take(i as int + 1).last() == all[i as int]);
        }
        proof {
            assert(all[i as int] == cands@[i as int].deep_view());
        }
        let keep = match cands[i].size {
            Some(sz) => sz > min_size,
            None => false,
        };
        proof {
            reveal(Seq::filter);
            assert(keep == pred(all[i as int]));
            let step = all.take(i as int + 1);
            assert(step.filter(pred) == if pred(step.last()) {
                step.drop_last().filter(pred).push(step.last())
            } else {
                step.drop_last().filter(pred)
            });
        }
        if keep {
            let c = cands[i].clone();
            kept.push(c);
            proof {
                assert(kept.deep_view() =~= prev.push(all[i as int]));
            }
        }
        proof {
            assert(kept.deep_view() =~= all.take(i as int + 1).filter(pred));
        }
        i = i + 1;
    }
    proof {
        assert(all.take(all.len() as int) =~= all);
    }
    kept
}

} // verus!
