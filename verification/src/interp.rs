//! The symbolic interpreter.
//!
//! A single left-to-right pass over a symbol sequence maintains a current
//! pitch, a current scale degree, and a stack of saved (pitch, degree)
//! pairs, and coalesces consecutive plays of one pitch into longer notes.
//!
//! The behaviour is fixed by a small-step specification: `interp_step` says
//! what one symbol does to the interpreter state, `interp_run` folds it
//! over a sequence, and `LSystem::get_notes` promises to return exactly the
//! notes of that fold.

use vstd::prelude::*;

use crate::lsystem::LSystem;
use crate::lsystem::Symbol;
use crate::note::Note;
use crate::note::NoteModel;
use crate::note::Scale;
use crate::note::next_step;
use crate::note::prev_step;
use vstd::arithmetic::div_mod::lemma_small_mod;

verus! {

/// The transient state of one interpretation run.
///
/// The pitch is an 8-bit value that wraps on overflow and underflow; the
/// scale degree is an unbounded integer and may go negative.
pub struct InterpState {
    pub pitch: u8,
    pub degree: int,
    pub stack: Seq<(u8, int)>,
    pub notes: Seq<NoteModel>,
}

/// The state a run starts from: the starting pitch, degree zero, an empty
/// stack, and no notes.
pub open spec fn init_state(start_pitch: u8) -> InterpState {
    InterpState { pitch: start_pitch, degree: 0, stack: Seq::empty(), notes: Seq::empty() }
}

/// The maximum velocity, used for every emitted note.
pub open spec fn max_velocity() -> u8 {
    127
}

/// What the play symbol does to the note list: extend the most recently
/// emitted note by one time unit if it carries the current pitch, else
/// append a fresh note of duration 1 at maximum velocity.
pub open spec fn play_notes(notes: Seq<NoteModel>, pitch: u8) -> Seq<NoteModel> {
    if notes.len() > 0 && notes.last().pitch == pitch {
        notes.update(
            notes.len() - 1,
            NoteModel { duration: notes.last().duration + 1, ..notes.last() },
        )
    } else {
        notes.push(NoteModel { pitch, duration: 1, velocity: max_velocity() })
    }
}

/// What one symbol does to the interpreter state, for a scale with the
/// interval table `steps`.
pub open spec fn interp_step(steps: Seq<u8>, st: InterpState, s: Symbol) -> InterpState {
    match s {
        Symbol::Push => InterpState { stack: st.stack.push((st.pitch, st.degree)), ..st },
        Symbol::Pop => if st.stack.len() > 0 {
            InterpState {
                pitch: st.stack.last().0,
                degree: st.stack.last().1,
                stack: st.stack.drop_last(),
                ..st
            }
        } else {
            st
        },
        Symbol::Raise => InterpState {
            pitch: st.pitch.wrapping_add(next_step(steps, st.degree)),
            degree: st.degree + 1,
            ..st
        },
        Symbol::Lower => InterpState {
            pitch: st.pitch.wrapping_sub(prev_step(steps, st.degree)),
            degree: st.degree - 1,
            ..st
        },
        Symbol::Play => InterpState { notes: play_notes(st.notes, st.pitch), ..st },
        Symbol::Letter(_) => st,
    }
}

/// The fold of `interp_step` over a symbol sequence, left to right.
pub open spec fn interp_run(steps: Seq<u8>, st: InterpState, syms: Seq<Symbol>) -> InterpState
    decreases syms.len(),
{
    if syms.len() == 0 {
        st
    } else {
        interp_run(steps, interp_step(steps, st, syms[0]), syms.drop_first())
    }
}

/// The notes a whole run emits from the starting pitch `start`.
pub open spec fn run_notes(steps: Seq<u8>, syms: Seq<Symbol>, start: u8) -> Seq<NoteModel> {
    interp_run(steps, init_state(start), syms).notes
}

/// The views of the notes in an emitted list.
pub open spec fn note_views(notes: Seq<Note>) -> Seq<NoteModel> {
    notes.map_values(|n: Note| n@)
}

/// The total number of time units in a note list.
pub open spec fn total_duration(notes: Seq<NoteModel>) -> int
    decreases notes.len(),
{
    if notes.len() == 0 {
        0
    } else {
        total_duration(notes.drop_last()) + notes.last().duration
    }
}

/// Every note of a run is well formed: positive duration, maximum velocity.
pub open spec fn notes_wf(notes: Seq<NoteModel>) -> bool {
    forall|i: int|
        0 <= i < notes.len() ==> (#[trigger] notes[i]).duration >= 1 && notes[i].velocity
            == max_velocity()
}

proof fn lemma_play_notes_wf(notes: Seq<NoteModel>, pitch: u8)
    requires
        notes_wf(notes),
    ensures
        notes_wf(play_notes(notes, pitch)),
        total_duration(play_notes(notes, pitch)) == total_duration(notes) + 1,
        play_notes(notes, pitch).len() >= notes.len(),
{
    let out = play_notes(notes, pitch);
    if notes.len() > 0 && notes.last().pitch == pitch {
        assert(out.drop_last() =~= notes.drop_last());
        assert(out.last().duration == notes.last().duration + 1);
    } else {
        assert(out.drop_last() =~= notes);
    }
}

proof fn lemma_step_run(steps: Seq<u8>, st: InterpState, syms: Seq<Symbol>, x: Symbol)
    ensures
        interp_run(steps, st, syms.push(x)) == interp_step(
            steps,
            interp_run(steps, st, syms),
            x,
        ),
    decreases syms.len(),
{
    reveal_with_fuel(interp_run, 3);
    if syms.len() == 0 {
        assert(syms.push(x)[0] == x);
        assert(syms.push(x).drop_first() =~= Seq::<Symbol>::empty());
    } else {
        lemma_step_run(steps, interp_step(steps, st, syms[0]), syms.drop_first(), x);
        assert(syms.push(x)[0] == syms[0]);
        assert(syms.push(x).drop_first() =~= syms.drop_first().push(x));
    }
}

proof fn lemma_run_duration(steps: Seq<u8>, st: InterpState, syms: Seq<Symbol>)
    requires
        notes_wf(st.notes),
    ensures
        notes_wf(interp_run(steps, st, syms).notes),
        total_duration(interp_run(steps, st, syms).notes) <= total_duration(st.notes)
            + syms.len(),
        interp_run(steps, st, syms).notes.len() >= st.notes.len(),
    decreases syms.len(),
{
    if syms.len() > 0 {
        let st1 = interp_step(steps, st, syms[0]);
        match syms[0] {
            Symbol::Play => {
                lemma_play_notes_wf(st.notes, st.pitch);
            },
            _ => {},
        }
        lemma_run_duration(steps, st1, syms.drop_first());
    }
}

/// Each note's duration is bounded by the total duration of the list.
proof fn lemma_note_le_total(notes: Seq<NoteModel>, i: int)
    requires
        notes_wf(notes),
        0 <= i < notes.len(),
    ensures
        notes[i].duration <= total_duration(notes),
    decreases notes.len(),
{
    if i == notes.len() - 1 {
        lemma_total_duration_nonneg(notes.drop_last());
        assert(notes_wf(notes.drop_last()));
    } else {
        assert(notes_wf(notes.drop_last()));
        lemma_note_le_total(notes.drop_last(), i);
        assert(notes.drop_last()[i] == notes[i]);
    }
}

proof fn lemma_total_duration_nonneg(notes: Seq<NoteModel>)
    requires
        notes_wf(notes),
    ensures
        total_duration(notes) >= 0,
    decreases notes.len(),
{
    if notes.len() > 0 {
        assert(notes_wf(notes.drop_last()));
        lemma_total_duration_nonneg(notes.drop_last());
    }
}

/// The interpreter state after the first `i` symbols of `syms`.
spec fn run_prefix(steps: Seq<u8>, syms: Seq<Symbol>, start: u8, i: int) -> InterpState {
    interp_run(steps, init_state(start), syms.take(i))
}

/// The executable stack mirrors the specification stack: same pitches, and
/// each saved degree reduced modulo the interval-table length `m`.
spec fn stack_matches(stack: Seq<(u8, usize)>, model: Seq<(u8, int)>, m: int) -> bool {
    &&& stack.len() == model.len()
    &&& forall|j: int|
        0 <= j < stack.len() ==> (#[trigger] stack[j]).0 == model[j].0 && stack[j].1 == model[j].1
            % m && stack[j].1 < m
}

proof fn lemma_deg_inc(d: int, m: int)
    requires
        0 < m,
    ensures
        (d % m + 1) % m == (d + 1) % m,
{
    vstd::arithmetic::div_mod::lemma_add_mod_noop(d, 1, m);
    vstd::arithmetic::div_mod::lemma_mod_division_less_than_divisor(d, m);
    vstd::arithmetic::div_mod::lemma_mod_division_less_than_divisor(1, m);
    if m == 1 {
        vstd::arithmetic::div_mod::lemma_mod_division_less_than_divisor(d % m + 1, m);
        vstd::arithmetic::div_mod::lemma_mod_division_less_than_divisor(d + 1, m);
    } else {
        lemma_small_mod(1nat, m as nat);
    }
}

proof fn lemma_deg_dec(d: int, m: int)
    requires
        0 < m,
    ensures
        (d % m + m - 1) % m == (d - 1) % m,
        (d % m - 1) % m == (d - 1) % m,
{
    vstd::arithmetic::div_mod::lemma_sub_mod_noop(d, 1, m);
    vstd::arithmetic::div_mod::lemma_mod_add_multiples_vanish(d % m - 1, m);
    vstd::arithmetic::div_mod::lemma_mod_division_less_than_divisor(d, m);
    if m == 1 {
        vstd::arithmetic::div_mod::lemma_mod_division_less_than_divisor(d % m + m - 1, m);
        vstd::arithmetic::div_mod::lemma_mod_division_less_than_divisor(d % m - 1, m);
        vstd::arithmetic::div_mod::lemma_mod_division_less_than_divisor(d - 1, m);
    } else {
        lemma_small_mod(1nat, m as nat);
    }
}

impl LSystem {
    /// Interpret the current symbol sequence over `scale`, starting from
    /// pitch `start_key`: one left-to-right pass of the stack machine,
    /// returning exactly the notes that the small-step specification
    /// `interp_run` emits.
    #[verifier::loop_isolation(false)]
    pub fn get_notes(&self, scale: Scale, start_key: u8) -> (r: Vec<Note>)
        ensures
            note_views(r@) == run_notes(scale@, self.symbols(), start_key),
    {
        let ghost syms = self.symbols();
        let ghost m = scale@.len() as int;
        let len = scale.count();
        let mut key: u8 = start_key;
        let mut deg_mod: usize = 0;
        let mut stack: Vec<(u8, usize)> = Vec::new();
        let mut notes: Vec<Note> = Vec::new();
        let elements = self.sequence();
        let n = elements.len();
        proof {
            assert(syms.take(0) =~= Seq::<Symbol>::empty());
            lemma_small_mod(0nat, len as nat);
        }
        for i in 0..n
            invariant
                key == run_prefix(scale@, syms, start_key, i as int).pitch,
                deg_mod < len,
                deg_mod == run_prefix(scale@, syms, start_key, i as int).degree % m,
                stack_matches(stack@, run_prefix(scale@, syms, start_key, i as int).stack, m),
                note_views(notes@) == run_prefix(scale@, syms, start_key, i as int).notes,
        {
            let ghost st = run_prefix(scale@, syms, start_key, i as int);
            let ghost d = st.degree;
            proof {
                lemma_step_run(scale@, init_state(start_key), syms.take(i as int), syms[i as int]);
                assert(syms.take(i + 1) =~= syms.take(i as int).push(syms[i as int]));
            }
            match elements[i] {
                Symbol::Push => {
                    stack.push((key, deg_mod));
                },
                Symbol::Pop => {
                    match stack.pop() {
                        Some(p) => {
                            key = p.0;
                            deg_mod = p.1;
                        },
                        None => {},
                    }
                },
                Symbol::Raise => {
                    let step = scale.next_from(deg_mod as i32);
                    proof {
                        lemma_small_mod(deg_mod as nat, len as nat);
                        lemma_deg_inc(d, m);
                    }
                    key = key.wrapping_add(step);
                    deg_mod = (deg_mod + 1) % len;
                },
                Symbol::Lower => {
                    let step = scale.prev_from(deg_mod as i32);
                    proof {
                        lemma_deg_dec(d, m);
                    }
                    key = key.wrapping_sub(step);
                    deg_mod = (deg_mod + len - 1) % len;
                },
                Symbol::Play => {
                    proof {
                        lemma_run_duration(scale@, init_state(start_key), syms.take(i as int));
                    }
                    let ln = notes.len();
                    let mut tied = false;
                    if ln > 0 {
                        let last = notes[ln - 1];
                        if last.midi_num == key {
                            proof {
                                lemma_note_le_total(st.notes, ln - 1);
                                assert(last.duration <= i);
                            }
                            notes.pop();
                            notes.push(Note::new(last.midi_num, last.duration + 1, last.velocity));
                            tied = true;
                            proof {
                                assert(note_views(notes@) =~= play_notes(st.notes, key));
                            }
                        }
                    }
                    if !tied {
                        notes.push(Note::new(key, 1, 127));
                        proof {
                            assert(note_views(notes@) =~= play_notes(st.notes, key));
                        }
                    }
                },
                Symbol::Letter(_) => {},
            }
        }
        proof {
            assert(syms.take(n as int) =~= syms);
        }
        notes
    }
}

/// Law: a sequence of inert letters leaves the interpreter state untouched,
/// so it emits no note from any starting state.
pub proof fn lemma_letters_silent(steps: Seq<u8>, st: InterpState, syms: Seq<Symbol>)
    requires
        forall|i: int| 0 <= i < syms.len() ==> (#[trigger] syms[i]) is Letter,
    ensures
        interp_run(steps, st, syms) == st,
    decreases syms.len(),
{
    if syms.len() > 0 {
        lemma_letters_silent(steps, st, syms.drop_first());
    }
}

/// Law: when the initial sequence holds only inert letters and every one of
/// its symbols has itself as its production, then no matter how many
/// generations are expanded, interpreting the result emits no note at all —
/// no play symbol can ever appear.
pub proof fn lemma_letter_rules_silent(
    t: Map<Symbol, Seq<Symbol>>,
    initiator: Seq<Symbol>,
    steps: Seq<u8>,
    start: u8,
    g: nat,
)
    requires
        forall|i: int| 0 <= i < initiator.len() ==> (#[trigger] initiator[i]) is Letter,
        forall|i: int|
            0 <= i < initiator.len() ==> crate::lsystem::produce(t, #[trigger] initiator[i])
                == seq![initiator[i]],
    ensures
        run_notes(steps, crate::lsystem::rewrite_n(t, initiator, g), start) == Seq::<
            NoteModel,
        >::empty(),
{
    crate::lsystem::lemma_identity_rewrite_n(t, initiator, g);
    lemma_letters_silent(steps, init_state(start), initiator);
}

} // verus!
