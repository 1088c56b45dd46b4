//! What counts in the loss of a language model.

use vstd::prelude::*;

verus! {

/// The cross-entropy between what the model predicts and the tokens that follow.
pub struct CrossEntropyLoss;

/// Whether a target counts in the loss: 0 for padding, 1 for all others.
pub open spec fn mask_of(targets: Seq<usize>, pad_id: usize) -> Seq<u8> {
    targets.map_values(
        |t: usize|
            if t == pad_id {
                0u8
            } else {
                1u8
            },
    )
}

/// The number of ones in a mask.
pub open spec fn ones(mask: Seq<u8>) -> nat
    decreases mask.len(),
{
    if mask.len() == 0 {
        0
    } else {
        ones(mask.drop_last()) + (if mask.last() == 1 {
            1nat
        } else {
            0
        })
    }
}

/// Where nothing is padding, every target counts.
pub proof fn law_all_targets_count(targets: Seq<usize>, pad_id: usize)
    requires
        !targets.contains(pad_id),
    ensures
        ones(mask_of(targets, pad_id)) == targets.len(),
    decreases targets.len(),
{
    if targets.len() > 0 {
        let shorter = targets.drop_last();
        assert(!shorter.contains(pad_id)) by {
            if shorter.contains(pad_id) {
                let i = choose|i: int| 0 <= i < shorter.len() && shorter[i] == pad_id;
                assert(targets[i] == pad_id);
            }
        }
        assert(targets[targets.len() - 1] != pad_id);
        law_all_targets_count(shorter, pad_id);
        assert(mask_of(targets, pad_id).drop_last() =~= mask_of(shorter, pad_id));
    }
}

impl CrossEntropyLoss {
    /// What the model is to predict at each place of a window but the last: the token
    /// behind it.
    pub fn targets(ids: &[usize]) -> (r: &[usize])
        requires
            ids@.len() >= 2,
        ensures
            r@ == ids@.skip(1),
    {
        let r: &[usize] = vstd::slice::slice_subrange(ids, 1, ids.len());
        assert(r@ =~= ids@.skip(1));
        r
    }

    /// Which targets count in the loss.
    pub fn loss_mask(targets: &[usize], pad_id: usize) -> (r: Vec<u8>)
        ensures
            r@ == mask_of(targets@, pad_id),
    {
        let mut r: Vec<u8> = Vec::new();
        let n: usize = targets.len();
        let mut i: usize = 0;
        while i < n
            invariant
                i <= n,
                n == targets@.len(),
                r@ == mask_of(targets@, pad_id).take(i as int),
            decreases n - i,
        {
            r.push(
                if targets[i] == pad_id {
                    0
                } else {
                    1
                },
            );
            i += 1;
            assert(mask_of(targets@, pad_id).take(i as int) =~= mask_of(targets@, pad_id).take(
                i - 1,
            ).push(mask_of(targets@, pad_id)[i - 1]));
        }
        assert(mask_of(targets@, pad_id).take(n as int) =~= mask_of(targets@, pad_id));
        r
    }

    /// The number of targets that count in the loss.
    pub fn valid_count(mask: &[u8]) -> (r: usize)
        ensures
            r == ones(mask@),
    {
        let n: usize = mask.len();
        let mut r: usize = 0;
        let mut i: usize = 0;
        assert(mask@.take(0) =~= Seq::empty());
        while i < n
            invariant
                i <= n,
                n == mask@.len(),
                r <= i,
                r == ones(mask@.take(i as int)),
            decreases n - i,
        {
            proof {
                assert(mask@.take(i + 1).drop_last() =~= mask@.take(i as int));
            }
            if mask[i] == 1 {
                r += 1;
            }
            i += 1;
        }
        assert(mask@.take(n as int) =~= mask@);
        r
    }
}

} // verus!
