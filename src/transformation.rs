//! The three-valued result of a transformer chain and its combination rule.
use vstd::prelude::*;

verus! {

/// What a transformer did to a frame.
#[derive(Clone, Copy, Debug, PartialEq, Eq, Structural)]
pub enum TransformationResult {
    /// Forward the received bytes verbatim.
    Unchanged,
    /// Re-encode the packet and forward it.
    Modified,
    /// Drop the frame.
    Canceled,
}

/// Left-to-right combination: `Canceled` absorbs everything, `Modified`
/// absorbs `Unchanged`, and `Unchanged` is neutral.
pub open spec fn combined(a: TransformationResult, b: TransformationResult) -> TransformationResult {
    match (a, b) {
        (TransformationResult::Canceled, _) => TransformationResult::Canceled,
        (_, TransformationResult::Canceled) => TransformationResult::Canceled,
        (TransformationResult::Unchanged, x) => x,
        (TransformationResult::Modified, _) => TransformationResult::Modified,
    }
}

impl TransformationResult {
    /// Folds `other` into `self`; `true` when the chain must stop because
    /// the result is now `Canceled`.
    pub fn combine(&mut self, other: TransformationResult) -> (r: bool)
        ensures
            *final(self) == combined(*old(self), other),
            r == (*final(self) == TransformationResult::Canceled),
    {
        match self {
            TransformationResult::Unchanged => {
                match other {
                    TransformationResult::Modified => {
                        *self = TransformationResult::Modified;
                    },
                    TransformationResult::Canceled => {
                        *self = TransformationResult::Canceled;
                        return true;
                    },
                    _ => {},
                }
            },
            TransformationResult::Modified => {
                match other {
                    TransformationResult::Canceled => {
                        *self = TransformationResult::Canceled;
                        return true;
                    },
                    _ => {},
                }
            },
            TransformationResult::Canceled => {
                return true;
            },
        }
        false
    }
}

/// `Unchanged` is neutral on the left.
pub proof fn lemma_unchanged_neutral(x: TransformationResult)
    ensures
        combined(TransformationResult::Unchanged, x) == x,
{
}

/// Once a chain is `Canceled` it stays `Canceled`, wherever the cancel came.
pub proof fn lemma_canceled_absorbs(x: TransformationResult)
    ensures
        combined(TransformationResult::Canceled, x) == TransformationResult::Canceled,
        combined(x, TransformationResult::Canceled) == TransformationResult::Canceled,
{
}

/// Combination is associative, so a chain may be folded in any grouping.
pub proof fn lemma_combine_associative(
    a: TransformationResult,
    b: TransformationResult,
    c: TransformationResult,
)
    ensures
        combined(combined(a, b), c) == combined(a, combined(b, c)),
{
}

} // verus!
