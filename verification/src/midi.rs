//! Serialization-facing event computation.
//!
//! A note list is laid out as timed key events for a MIDI-like track
//! format: for each note, one "on" event at time zero relative to the
//! previous event, then one "off" event after the note's duration in
//! ticks. Writing the events to a file, and the channel they go on, is the
//! caller's business; this module fixes what the events are.

use vstd::prelude::*;

use crate::note::Note;

verus! {

/// One timed key event: `delta` ticks after the previous event, the key
/// starts sounding (`on` true) or stops sounding (`on` false).
#[derive(Clone, Copy, PartialEq, Eq, Structural, Debug)]
pub struct KeyEvent {
    pub delta: u32,
    pub on: bool,
    pub key: u8,
    pub velocity: u8,
}

/// The pair of events one note becomes. A duration wider than 32 bits is
/// truncated, since the track format carries at most 32-bit deltas.
pub open spec fn events_of_note(n: Note) -> Seq<KeyEvent> {
    seq![
        KeyEvent { delta: 0, on: true, key: n.midi_num, velocity: n.velocity },
        KeyEvent { delta: n.duration as u32, on: false, key: n.midi_num, velocity: n.velocity },
    ]
}

/// The event layout of a whole note list, in performance order.
pub open spec fn track_events_of(notes: Seq<Note>) -> Seq<KeyEvent>
    decreases notes.len(),
{
    if notes.len() == 0 {
        Seq::empty()
    } else {
        events_of_note(notes[0]) + track_events_of(notes.drop_first())
    }
}

proof fn lemma_track_snoc(notes: Seq<Note>, x: Note)
    ensures
        track_events_of(notes.push(x)) == track_events_of(notes) + events_of_note(x),
    decreases notes.len(),
{
    reveal_with_fuel(track_events_of, 3);
    if notes.len() == 0 {
        assert(notes.push(x)[0] == x);
        assert(notes.push(x).drop_first() =~= Seq::<Note>::empty());
        assert(track_events_of(notes.push(x)) =~= track_events_of(notes) + events_of_note(x));
    } else {
        lemma_track_snoc(notes.drop_first(), x);
        assert(notes.push(x)[0] == notes[0]);
        assert(notes.push(x).drop_first() =~= notes.drop_first().push(x));
        assert(track_events_of(notes.push(x)) =~= track_events_of(notes) + events_of_note(x));
    }
}

/// Compute the on/off event pairs for `notes`: event `2 * i` switches note
/// `i` on immediately, event `2 * i + 1` switches it off after the note's
/// duration.
#[verifier::loop_isolation(false)]
pub fn track_events(notes: &Vec<Note>) -> (r: Vec<KeyEvent>)
    ensures
        r@ == track_events_of(notes@),
        r@.len() == 2 * notes@.len(),
{
    let mut events: Vec<KeyEvent> = Vec::new();
    let n = notes.len();
    proof {
        assert(notes@.take(0) =~= Seq::<Note>::empty());
    }
    for i in 0..n
        invariant
            events@ == track_events_of(notes@.take(i as int)),
            events@.len() == 2 * i,
    {
        let note = notes[i];
        events.push(KeyEvent { delta: 0, on: true, key: note.midi_num, velocity: note.velocity });
        events.push(
            KeyEvent {
                delta: #[verifier::truncate] (note.duration as u32),
                on: false,
                key: note.midi_num,
                velocity: note.velocity,
            },
        );
        proof {
            lemma_track_snoc(notes@.take(i as int), notes@[i as int]);
            assert(notes@.take(i + 1) =~= notes@.take(i as int).push(notes@[i as int]));
            assert(events@ =~= track_events_of(notes@.take(i + 1)));
        }
    }
    proof {
        assert(notes@.take(n as int) =~= notes@);
    }
    events
}

} // verus!
