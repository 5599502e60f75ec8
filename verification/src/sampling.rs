//! Drawing, for every point, the sample of points it is compared with.

use crate::random::choose_multiple;
use rand::rngs::StdRng;
use vstd::prelude::*;

verus! {

/// `sample` is a draw without replacement of `sampling_size` of the indices
/// `0..n`, or of all of them where there are no more than that.
pub open spec fn is_sample(sample: Seq<usize>, n: nat, sampling_size: nat) -> bool {
    &&& sample.len() == (if sampling_size <= n {
        sampling_size
    } else {
        n
    })
    &&& sample.no_duplicates()
    &&& forall|t: int| 0 <= t < sample.len() ==> (#[trigger] sample[t]) < n
}

/// The indices `0..n` in ascending order.
pub fn index_range(n: usize) -> (indices: Vec<usize>)
    ensures
        indices@.len() == n,
        forall|i: int| 0 <= i < n ==> indices@[i] == i,
{
    let mut indices: Vec<usize> = Vec::new();
    let mut i: usize = 0;
    while i < n
        invariant
            i <= n,
            indices@.len() == i,
            forall|j: int| 0 <= j < i ==> indices@[j] == j,
        decreases n - i,
    {
        indices.push(i);
        i = i + 1;
    }
    indices
}

/// Draws one sample of the indices `0..n` from `rng`: `sampling_size` of
/// them without replacement, all of them if there are no more than that,
/// and none without touching `rng` if `sampling_size` is 0.
pub fn draw_sample(indices: &Vec<usize>, sampling_size: usize, rng: &mut StdRng) -> (sample: Vec<
    usize,
>)
    requires
        forall|i: int| 0 <= i < indices@.len() ==> indices@[i] == i,
    ensures
        is_sample(sample@, indices@.len(), sampling_size as nat),
{
    let amount: usize = if sampling_size <= indices.len() {
        sampling_size
    } else {
        indices.len()
    };
    if amount == 0 {
        return Vec::new();
    }
    choose_multiple(rng, indices, amount)
}

/// Draws, for each of `n` points, a sample of the indices `0..n`. Every
/// sample is drawn from the full range, so a point may sample itself, and
/// what one point drew does not bear on the next.
pub fn sample_neighbors(n: usize, sampling_size: usize, rng: &mut StdRng) -> (samples: Vec<
    Vec<usize>,
>)
    ensures
        samples@.len() == n,
        forall|i: int|
            0 <= i < n ==> is_sample((#[trigger] samples@[i])@, n as nat, sampling_size as nat),
{
    let indices = index_range(n);
    let mut samples: Vec<Vec<usize>> = Vec::new();
    let mut i: usize = 0;
    while i < n
        invariant
            i <= n,
            indices@.len() == n,
            forall|j: int| 0 <= j < n ==> indices@[j] == j,
            samples@.len() == i,
            forall|j: int|
                0 <= j < i ==> is_sample((#[trigger] samples@[j])@, n as nat, sampling_size as nat),
        decreases n - i,
    {
        let sample = draw_sample(&indices, sampling_size, rng);
        samples.push(sample);
        i = i + 1;
    }
    samples
}

} // verus!
