//! The integer side of just intonation: a scale of rational ratios kept in
//! degree order, and where a scale degree lands (which ratio, how many
//! octaves up or down). Frequencies are products of these with a base
//! frequency, computed by the host in floating point.

use vstd::prelude::*;
use crate::scala::split_degree;
use crate::timeline::{is_stable_order, stable_order, TimedMidiEvent};

verus! {

/// A rational frequency ratio for one degree of a just-intonation scale.
#[derive(Debug, Clone, Copy, PartialEq, Eq, Structural)]
pub struct JiRatio {
    /// Scale degree within one octave (0-based).
    pub degree: u32,
    /// Numerator of the frequency ratio.
    pub num: u64,
    /// Denominator of the frequency ratio.
    pub den: u64,
}

pub open spec fn degrees_of(r: Seq<JiRatio>) -> Seq<u64> {
    Seq::new(r.len(), |i: int| r[i].degree as u64)
}

/// `out` is `input` stably sorted by degree: the entries taken in the stable
/// degree order of their positions.
pub open spec fn sorted_by_degree(input: Seq<JiRatio>, out: Seq<JiRatio>) -> bool {
    exists|order: Seq<TimedMidiEvent>|
        #![trigger is_stable_order(degrees_of(input), order)]
        is_stable_order(degrees_of(input), order) && out == Seq::new(
            order.len(),
            |k: int| input[order[k].event as int],
        )
}

/// A just-intonation scale: ratios sorted by degree, and the number of
/// degrees per octave (the number of ratios given, as a `u32`).
#[derive(Debug, Clone)]
pub struct JiScale {
    ratios: Vec<JiRatio>,
    scale_size: u32,
}

/// Index of the first ratio for `degree`, or the length.
pub open spec fn first_with_degree(r: Seq<JiRatio>, degree: int) -> int
    decreases r.len(),
{
    if r.len() == 0 {
        0
    } else if r[0].degree == degree {
        0
    } else {
        1 + first_with_degree(r.drop_first(), degree)
    }
}

/// Where a degree lands: the ratio of its degree within the octave (`None`
/// means unison, 1/1, as for a degree the scale does not list) and the
/// number of octaves from degree zero.
#[derive(Debug, Clone, Copy, PartialEq, Eq, Structural)]
pub struct JiStep {
    pub ratio: Option<JiRatio>,
    pub octave: i32,
}

/// The arithmetic on `degree` stays in `i32` for a scale of `size` degrees.
pub open spec fn fold_defined(degree: i32, size: int) -> bool {
    &&& 1 <= size <= i32::MAX
    &&& degree >= 0 ==> (degree as int) % size + size <= i32::MAX
    &&& degree < 0 ==> degree - size + 1 >= i32::MIN
}

pub open spec fn step_of(r: Seq<JiRatio>, degree: i32, size: int) -> JiStep {
    let within = (degree as int) % size;
    let k = first_with_degree(r, within);
    JiStep {
        ratio: if k < r.len() {
            Some(r[k])
        } else {
            None
        },
        octave: ((degree as int) / size) as i32,
    }
}

impl JiScale {
    pub closed spec fn ratios_view(&self) -> Seq<JiRatio> {
        self.ratios@
    }

    pub closed spec fn size(&self) -> u32 {
        self.scale_size
    }

    /// Sorts `ratios` by degree, keeping the given order among equal
    /// degrees; the scale has as many degrees as ratios were given.
    pub fn new(ratios: Vec<JiRatio>) -> (s: Self)
        ensures
            sorted_by_degree(ratios@, s.ratios_view()),
            s.size() == ratios@.len() as u32,
    {
        let scale_size = ratios.len() as u32;
        let mut keys: Vec<u64> = Vec::new();
        let mut i: usize = 0;
        while i < ratios.len()
            invariant
                i <= ratios@.len(),
                keys@.len() == i,
                forall|k: int| 0 <= k < i ==> keys@[k] == ratios@[k].degree as u64,
            decreases ratios@.len() - i,
        {
            keys.push(ratios[i].degree as u64);
            i = i + 1;
        }
        proof {
            assert(keys@ == degrees_of(ratios@));
        }
        let order = stable_order(keys.as_slice());
        let mut sorted: Vec<JiRatio> = Vec::new();
        let mut k: usize = 0;
        while k < order.len()
            invariant
                k <= order@.len(),
                is_stable_order(degrees_of(ratios@), order@),
                sorted@.len() == k,
                forall|q: int| 0 <= q < k ==> sorted@[q] == ratios@[order@[q].event as int],
            decreases order@.len() - k,
        {
            let e = order[k].event;
            proof {
                assert(order@[k as int].event < degrees_of(ratios@).len());
            }
            sorted.push(ratios[e]);
            k = k + 1;
        }
        proof {
            assert(sorted@ == Seq::new(order@.len(), |q: int| ratios@[order@[q].event as int]));
        }
        JiScale { ratios: sorted, scale_size }
    }

    /// The ratios in degree order.
    pub fn ratios(&self) -> (r: &[JiRatio])
        ensures
            r@ == self.ratios_view(),
    {
        self.ratios.as_slice()
    }

    pub fn scale_size(&self) -> (r: u32)
        ensures
            r == self.size(),
    {
        self.scale_size
    }

    /// Where `degree` lands: folded into one octave (Euclidean remainder)
    /// with the octave count (Euclidean quotient), and the first ratio
    /// listed for the folded degree. `None` for a scale without ratios,
    /// which plays every degree at the base frequency.
    pub fn locate(&self, degree: i32) -> (r: Option<JiStep>)
        requires
            self.ratios_view().len() > 0 ==> fold_defined(degree, self.size() as int),
        ensures
            self.ratios_view().len() == 0 ==> r is None,
            self.ratios_view().len() > 0 ==> r == Some(step_of(self.ratios_view(), degree, self.size() as int)),
    {
        if self.ratios.len() == 0 {
            return None;
        }
        let (within, octave) = split_degree(degree, self.scale_size as usize);
        let mut k: usize = 0;
        while k < self.ratios.len()
            invariant
                k <= self.ratios@.len(),
                within < 0x8000_0000,
                within == (degree as int) % (self.scale_size as int),
                octave == (degree as int) / (self.scale_size as int),
                forall|q: int| 0 <= q < k ==> self.ratios@[q].degree != within,
            decreases self.ratios@.len() - k,
        {
            if self.ratios[k].degree == within as u32 {
                proof {
                    lemma_first_with_degree(self.ratios@, within as int, k as int);
                    assert(self.ratios@[k as int] == self.ratios[k as int]);
                }
                return Some(JiStep { ratio: Some(self.ratios[k]), octave });
            }
            k = k + 1;
        }
        proof {
            lemma_first_with_degree(self.ratios@, within as int, k as int);
        }
        Some(JiStep { ratio: None, octave })
    }
}

proof fn lemma_first_with_degree(r: Seq<JiRatio>, d: int, k: int)
    requires
        0 <= k <= r.len(),
        forall|q: int| 0 <= q < k ==> r[q].degree != d,
        k < r.len() ==> r[k].degree == d,
    ensures
        first_with_degree(r, d) == k,
    decreases r.len(),
{
    if r.len() > 0 && k > 0 {
        assert forall|q: int| 0 <= q < k - 1 implies r.drop_first()[q].degree != d by {
            assert(r.drop_first()[q] == r[q + 1]);
        }
        lemma_first_with_degree(r.drop_first(), d, k - 1);
    }
}

} // verus!
