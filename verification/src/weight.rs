//! Coordinate weights as raw single-precision bit patterns.

use vstd::prelude::*;

verus! {

/// One harmonic coordinate: the IEEE-754 binary32 bit pattern of a weight.
///
/// The grid stores and moves weights but never does arithmetic on them, so a
/// weight is kept as the exact bits of the number it stands for. Two weights
/// are equal exactly when their bit patterns are.
#[derive(Clone, Copy, Debug, PartialEq, Eq, Structural)]
pub struct Weight {
    pub bits: u32,
}

impl Weight {
    /// The weight whose bits are all clear, which is positive zero.
    pub open spec fn zero() -> Weight {
        Weight { bits: 0 }
    }

    /// A run of `len` zero weights.
    pub open spec fn zeros(len: nat) -> Seq<Weight> {
        Seq::new(len, |i: int| Weight::zero())
    }
}

/// Two runs of zero weights, one after the other, are one run of zeros.
pub proof fn lemma_zeros_concat(a: nat, b: nat)
    ensures
        Weight::zeros(a) + Weight::zeros(b) == Weight::zeros(a + b),
{
    assert(Weight::zeros(a) + Weight::zeros(b) =~= Weight::zeros(a + b));
}

/// Copies a buffer of weights.
pub fn duplicate(data: &Vec<Weight>) -> (copy: Vec<Weight>)
    ensures
        copy@ == data@,
{
    let mut copy: Vec<Weight> = Vec::new();
    let mut k: usize = 0;
    while k < data.len()
        invariant
            k <= data@.len(),
            copy@ == data@.take(k as int),
        decreases data@.len() - k,
    {
        copy.push(data[k]);
        k = k + 1;
        assert(copy@ =~= data@.take(k as int));
    }
    assert(data@.take(data@.len() as int) =~= data@);
    copy
}

/// Appends `count` zero weights to the buffer.
pub fn extend_zeros(data: &mut Vec<Weight>, count: usize)
    ensures
        final(data)@ == old(data)@ + Weight::zeros(count as nat),
{
    let mut k: usize = 0;
    while k < count
        invariant
            k <= count,
            data@ == old(data)@ + Weight::zeros(k as nat),
        decreases count - k,
    {
        data.push(Weight { bits: 0 });
        k = k + 1;
        assert(data@ =~= old(data)@ + Weight::zeros(k as nat));
    }
}

} // verus!
