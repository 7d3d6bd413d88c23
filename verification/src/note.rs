//! Notes and musical scales.
//!
//! A `Note` is the output unit of the interpreter: a pitch, a duration in
//! sixteenth-note units, and a velocity. A `Scale` is a non-empty cyclic
//! table of half-step intervals; it answers how many half-steps separate a
//! scale degree from its neighbours.

use vstd::prelude::*;

verus! {

/// A single note: MIDI key number, duration in sixteenth-note units
/// (at least 1), and velocity (loudness, 0 to 127).
#[derive(Clone, Copy, PartialEq, Eq, Hash, Debug)]
pub struct Note {
    pub midi_num: u8,
    pub duration: u64,
    pub velocity: u8,
}

/// The mathematical image of a `Note`: the duration is an unbounded
/// integer, so specifications can extend it without overflow concerns.
pub struct NoteModel {
    pub pitch: u8,
    pub duration: int,
    pub velocity: u8,
}

impl View for Note {
    type V = NoteModel;

    open spec fn view(&self) -> NoteModel {
        NoteModel { pitch: self.midi_num, duration: self.duration as int, velocity: self.velocity }
    }
}

impl Note {
    pub fn new(midi_num: u8, duration: u64, velocity: u8) -> (r: Self)
        requires
            1 <= duration,
            velocity <= 127,
        ensures
            r.midi_num == midi_num,
            r.duration == duration,
            r.velocity == velocity,
    {
        Self { midi_num, duration, velocity }
    }
}

/// The entry of a cyclic interval table that a given scale degree selects.
///
/// The index wraps via Euclidean modulo, so every integer degree, negative
/// ones included, selects an entry: degree `-1` selects the last entry.
pub open spec fn step_at(steps: Seq<u8>, degree: int) -> u8
    recommends
        steps.len() > 0,
{
    steps[degree % (steps.len() as int)]
}

/// Half-steps needed to move one scale degree upward from `degree`.
pub open spec fn next_step(steps: Seq<u8>, degree: int) -> u8 {
    step_at(steps, degree)
}

/// Half-steps needed to move one scale degree downward from `degree`.
pub open spec fn prev_step(steps: Seq<u8>, degree: int) -> u8 {
    step_at(steps, degree - 1)
}

/// Law: the distance of the upward move from degree `d` equals the distance
/// of the downward move from degree `d + 1`, for every interval table and
/// every integer degree.
pub proof fn lemma_next_prev_adjoint(steps: Seq<u8>, d: int)
    ensures
        next_step(steps, d) == prev_step(steps, d + 1),
{
}

/// A named scale preset.
#[derive(Clone, Copy, PartialEq, Eq, Structural, Debug)]
pub enum ScaleType {
    Chromatic,
    Major,
    Minor,
}

/// The interval table of a named preset: all-ones for the chromatic scale,
/// the standard seven-value patterns for major and natural minor.
pub open spec fn preset_steps(t: ScaleType) -> Seq<u8> {
    match t {
        ScaleType::Chromatic => seq![1u8],
        ScaleType::Major => seq![2u8, 2u8, 1u8, 2u8, 2u8, 2u8, 1u8],
        ScaleType::Minor => seq![2u8, 1u8, 2u8, 2u8, 1u8, 2u8, 2u8],
    }
}

/// A musical scale: a non-empty cyclic table of half-step intervals.
///
/// Entry `i` is the number of half-steps from scale degree `i` to degree
/// `i + 1`; the table wraps for degrees outside `0 .. len`.
pub struct Scale {
    steps: Vec<u8>,
}

impl View for Scale {
    type V = Seq<u8>;

    closed spec fn view(&self) -> Seq<u8> {
        self.steps@
    }
}

impl Scale {
    #[verifier::type_invariant]
    spec fn wf(self) -> bool {
        &&& 1 <= self.steps@.len() <= 0x7fff_ffff
        &&& forall|i: int| 0 <= i < self.steps@.len() ==> 1 <= self.steps@[i]
    }

    /// Build a scale from an arbitrary non-empty table of positive
    /// half-step counts.
    pub fn new(steps: Vec<u8>) -> (r: Self)
        requires
            1 <= steps@.len() <= 0x7fff_ffff,
            forall|i: int| 0 <= i < steps@.len() ==> 1 <= steps@[i],
        ensures
            r@ == steps@,
    {
        Scale { steps }
    }

    /// Build one of the named preset scales.
    pub fn from_type(t: ScaleType) -> (r: Self)
        ensures
            r@ == preset_steps(t),
    {
        let steps: Vec<u8> = match t {
            ScaleType::Chromatic => vec![1u8],
            ScaleType::Major => vec![2u8, 2u8, 1u8, 2u8, 2u8, 2u8, 1u8],
            ScaleType::Minor => vec![2u8, 1u8, 2u8, 2u8, 1u8, 2u8, 2u8],
        };
        proof {
            assert(steps@ =~= preset_steps(t));
        }
        Scale { steps }
    }

    /// How many entries the interval table has.
    pub fn count(&self) -> (r: usize)
        ensures
            r == self@.len(),
            1 <= r <= 0x7fff_ffff,
    {
        proof {
            use_type_invariant(&*self);
        }
        self.steps.len()
    }

    /// Half-steps to move one degree upward from `degree`; any integer
    /// degree is valid, the table index wraps via Euclidean modulo.
    pub fn next_from(&self, degree: i32) -> (r: u8)
        ensures
            r == next_step(self@, degree as int),
    {
        proof {
            use_type_invariant(&*self);
        }
        let len = self.steps.len();
        match degree.checked_rem_euclid(len as i32) {
            Some(m) => {
                proof {
                    vstd::arithmetic::div_mod::lemma_mod_division_less_than_divisor(
                        degree as int,
                        len as int,
                    );
                }
                self.steps[m as usize]
            },
            None => {
                // unreachable: the divisor is at least 1
                self.steps[0]
            },
        }
    }

    /// Half-steps to move one degree downward from `degree`.
    pub fn prev_from(&self, degree: i32) -> (r: u8)
        requires
            degree > i32::MIN,
        ensures
            r == prev_step(self@, degree as int),
    {
        self.next_from(degree - 1)
    }
}

} // verus!
