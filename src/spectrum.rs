//! Which spectral coefficients become rotating vectors, and in what order.
use vstd::prelude::*;

use crate::path::PathError;

verus! {

/// One rotating vector to draw: its signed frequency and the bin of the
/// transform output that holds its coefficient.
#[derive(Clone, Copy, Debug, PartialEq, Eq, Structural)]
pub struct Component {
    pub frequency: i64,
    pub bin: usize,
}

pub open spec fn min_count(a: nat, b: nat) -> nat {
    if a <= b {
        a
    } else {
        b
    }
}

/// How many `(+i, -i)` pairs follow the constant term.
pub open spec fn pair_count(n_sample: nat, n_wave: nat) -> nat {
    min_count(n_wave, n_sample) / 2
}

/// The component at position `j` of the drawing order: the constant term,
/// then `+1, -1, +2, -2, ...`, frequency `-i` read from bin `n - i`.
pub open spec fn component_at(n_sample: nat, j: nat) -> Component {
    if j == 0 {
        Component { frequency: 0, bin: 0 }
    } else if j % 2 == 1 {
        Component { frequency: ((j + 1) / 2) as i64, bin: ((j + 1) / 2) as usize }
    } else {
        Component { frequency: -((j / 2) as int) as i64, bin: (n_sample - j / 2) as usize }
    }
}

/// The whole drawing order for `n_sample` coefficients and `n_wave` waves.
pub open spec fn component_order(n_sample: nat, n_wave: nat) -> Seq<Component> {
    Seq::new(1 + 2 * pair_count(n_sample, n_wave), |j: int| component_at(n_sample, j as nat))
}

/// The wave count, lowered to the sample count when it exceeds it.
pub fn clamp_wave_count(n_wave: usize, n_sample: usize) -> (r: usize)
    ensures
        r == min_count(n_wave as nat, n_sample as nat),
{
    if n_wave <= n_sample {
        n_wave
    } else {
        n_sample
    }
}

/// The components to draw, in drawing order: the constant term, then for
/// `i` from 1 to half the clamped wave count, frequency `+i` from bin `i` and
/// frequency `-i` from bin `n_sample - i`. No samples is an error.
pub fn descriptor_order(n_sample: usize, n_wave: usize) -> (r: Result<Vec<Component>, PathError>)
    ensures
        n_sample == 0 <==> r == Err::<Vec<Component>, PathError>(PathError::InvalidSampleCount),
        n_sample > 0 ==> r is Ok,
        r is Ok ==> r->Ok_0@ == component_order(n_sample as nat, n_wave as nat),
{
    if n_sample == 0 {
        return Err(PathError::InvalidSampleCount);
    }
    let w = clamp_wave_count(n_wave, n_sample);
    let pairs: usize = w / 2;
    let ghost expected = component_order(n_sample as nat, n_wave as nat);
    let mut order: Vec<Component> = Vec::new();
    order.push(Component { frequency: 0, bin: 0 });
    let mut i: usize = 1;
    while i <= pairs
        invariant
            pairs == pair_count(n_sample as nat, n_wave as nat),
            pairs <= n_sample / 2,
            n_sample > 0,
            1 <= i <= pairs + 1,
            expected == component_order(n_sample as nat, n_wave as nat),
            order@.len() == 2 * i - 1,
            forall|m: int| 0 <= m < order@.len() ==> order@[m] == expected[m],
        decreases pairs + 1 - i,
    {
        order.push(Component { frequency: i as i64, bin: i });
        order.push(Component { frequency: -(i as i64), bin: n_sample - i });
        assert(((2 * i - 1) + 1) / 2 == i);
        assert((2 * i) / 2 == i);
        i = i + 1;
    }
    assert(order@ =~= expected);
    Ok(order)
}

/// Positions `2i - 1` and `2i` of the drawing order hold frequencies `+i`
/// and `-i`, whose bins add up to `n_sample`, for every pair that is drawn.
pub proof fn lemma_pairs_mirror(n_sample: nat, n_wave: nat, i: nat)
    requires
        n_sample > 0,
        n_sample <= usize::MAX,
        1 <= i <= pair_count(n_sample, n_wave),
    ensures
        ({
            let order = component_order(n_sample, n_wave);
            &&& order[2 * i - 1] == Component { frequency: i as i64, bin: i as usize }
            &&& order[(2 * i) as int] == Component {
                frequency: -(i as int) as i64,
                bin: (n_sample - i) as usize,
            }
            &&& order[2 * i - 1].frequency + order[(2 * i) as int].frequency == 0
            &&& order[2 * i - 1].bin + order[(2 * i) as int].bin == n_sample
            &&& order[(2 * i) as int].bin < n_sample
        }),
{
    let order = component_order(n_sample, n_wave);
    assert(((2 * i - 1) + 1) / 2 == i);
    assert((2 * i) / 2 == i);
    assert((2 * i - 1) % 2 == 1);
    assert((2 * i) % 2 == 0);
    assert(i <= n_sample / 2);
    assert(order[2 * i - 1] == component_at(n_sample, (2 * i - 1) as nat));
    assert(order[(2 * i) as int] == component_at(n_sample, 2 * i));
}

} // verus!
