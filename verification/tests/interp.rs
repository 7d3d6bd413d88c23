use lsys_music::lsystem::LSystem;
use lsys_music::lsystem::ProductionTable;
use lsys_music::lsystem::Symbol;
use lsys_music::midi::track_events;
use lsys_music::note::Note;
use lsys_music::note::Scale;
use lsys_music::note::ScaleType;

fn run(symbols: Vec<Symbol>, steps: Vec<u8>, start: u8) -> Vec<Note> {
    let sys = LSystem::new(ProductionTable::new(), symbols);
    sys.get_notes(Scale::new(steps), start)
}

#[test]
fn chromatic_up_plays_two_notes() {
    // "S+S" from 60 on scale [1]: 60 then 61, each one time unit.
    let notes = run(vec![Symbol::Play, Symbol::Raise, Symbol::Play], vec![1], 60);
    assert_eq!(notes.len(), 2);
    assert_eq!((notes[0].midi_num, notes[0].duration), (60, 1));
    assert_eq!((notes[1].midi_num, notes[1].duration), (61, 1));
}

#[test]
fn consecutive_plays_tie_into_one_note() {
    // "SS": one note of duration 2.
    let notes = run(vec![Symbol::Play, Symbol::Play], vec![1], 60);
    assert_eq!(notes.len(), 1);
    assert_eq!(notes[0].midi_num, 60);
    assert_eq!(notes[0].duration, 2);
    assert_eq!(notes[0].velocity, 127);
}

#[test]
fn pop_restores_pre_push_pitch() {
    // "S[+S]S" from 60 on scale [1]: 60, 61, then 60 again.
    let notes = run(
        vec![
            Symbol::Play,
            Symbol::Push,
            Symbol::Raise,
            Symbol::Play,
            Symbol::Pop,
            Symbol::Play,
        ],
        vec![1],
        60,
    );
    assert_eq!(notes.len(), 3);
    assert_eq!((notes[0].midi_num, notes[0].duration), (60, 1));
    assert_eq!((notes[1].midi_num, notes[1].duration), (61, 1));
    assert_eq!((notes[2].midi_num, notes[2].duration), (60, 1));
}

#[test]
fn pop_on_empty_stack_is_a_noop() {
    // "]+S" from 60 on scale [1]: the stray pop changes nothing, the raise
    // still starts from degree 0 and pitch 60.
    let notes = run(vec![Symbol::Pop, Symbol::Raise, Symbol::Play], vec![1], 60);
    assert_eq!(notes.len(), 1);
    assert_eq!(notes[0].midi_num, 61);
}

#[test]
fn pop_restores_degree_as_well() {
    // Scale [2, 3]: "+[+]+S" — the bracketed raise is undone, so the two
    // effective raises take degree steps 2 then 3: 60 + 2 + 3 = 65.
    let notes = run(
        vec![
            Symbol::Raise,
            Symbol::Push,
            Symbol::Raise,
            Symbol::Pop,
            Symbol::Raise,
            Symbol::Play,
        ],
        vec![2, 3],
        60,
    );
    assert_eq!(notes.len(), 1);
    assert_eq!(notes[0].midi_num, 65);
}

#[test]
fn same_pitch_after_interruption_starts_a_new_note() {
    // "SS+S-SS": ties only merge with the immediately preceding note.
    let notes = run(
        vec![
            Symbol::Play,
            Symbol::Play,
            Symbol::Raise,
            Symbol::Play,
            Symbol::Lower,
            Symbol::Play,
            Symbol::Play,
        ],
        vec![1],
        60,
    );
    assert_eq!(notes.len(), 3);
    assert_eq!((notes[0].midi_num, notes[0].duration), (60, 2));
    assert_eq!((notes[1].midi_num, notes[1].duration), (61, 1));
    assert_eq!((notes[2].midi_num, notes[2].duration), (60, 2));
}

#[test]
fn letters_only_produce_no_notes() {
    // Letters with identity productions: whatever the depth, no note.
    let mut table = ProductionTable::new();
    table.insert(Symbol::Letter('X'), vec![Symbol::Letter('X')]);
    table.insert(Symbol::Letter('Y'), vec![Symbol::Letter('Y')]);
    let mut sys = LSystem::new(
        table,
        vec![Symbol::Letter('X'), Symbol::Letter('Y'), Symbol::Letter('X')],
    );
    sys.forward(6);
    let notes = sys.get_notes(Scale::new(vec![1]), 60);
    assert!(notes.is_empty());
}

#[test]
fn pitch_wraps_on_overflow_and_underflow() {
    let up = run(vec![Symbol::Raise, Symbol::Play], vec![1], 255);
    assert_eq!(up[0].midi_num, 0);
    let down = run(vec![Symbol::Lower, Symbol::Play], vec![1], 0);
    assert_eq!(down[0].midi_num, 255);
}

#[test]
fn negative_degree_wraps_to_last_scale_entry() {
    // Scale [2, 3]: moving down from degree 0 takes the last entry (3).
    let notes = run(vec![Symbol::Lower, Symbol::Play], vec![2, 3], 60);
    assert_eq!(notes[0].midi_num, 57);
}

#[test]
fn scale_walk_follows_interval_table() {
    // Major scale from 60: two raises give 60 + 2 + 2 = 64.
    let notes = run(
        vec![Symbol::Raise, Symbol::Raise, Symbol::Play],
        vec![2, 2, 1, 2, 2, 2, 1],
        60,
    );
    assert_eq!(notes[0].midi_num, 64);
}

#[test]
fn next_from_equals_prev_from_one_degree_higher() {
    let scales = [vec![1u8], vec![2, 2, 1, 2, 2, 2, 1], vec![1, 3, 3, 3, 2]];
    for steps in scales {
        let scale = Scale::new(steps);
        for d in -30i32..30i32 {
            assert_eq!(scale.next_from(d), scale.prev_from(d + 1));
        }
    }
}

#[test]
fn next_from_wraps_cyclically() {
    let scale = Scale::new(vec![2, 3, 4]);
    assert_eq!(scale.next_from(0), 2);
    assert_eq!(scale.next_from(1), 3);
    assert_eq!(scale.next_from(2), 4);
    assert_eq!(scale.next_from(3), 2);
    assert_eq!(scale.next_from(-1), 4);
    assert_eq!(scale.next_from(-3), 2);
    assert_eq!(scale.count(), 3);
}

#[test]
fn scale_presets_hold_the_documented_tables() {
    assert_eq!(Scale::from_type(ScaleType::Chromatic).count(), 1);
    let major = Scale::from_type(ScaleType::Major);
    assert_eq!(
        (0..7).map(|d| major.next_from(d)).collect::<Vec<u8>>(),
        vec![2, 2, 1, 2, 2, 2, 1]
    );
    let minor = Scale::from_type(ScaleType::Minor);
    assert_eq!(
        (0..7).map(|d| minor.next_from(d)).collect::<Vec<u8>>(),
        vec![2, 1, 2, 2, 1, 2, 2]
    );
}

#[test]
fn note_new_stores_its_fields() {
    let note = Note::new(72, 4, 100);
    assert_eq!(note.midi_num, 72);
    assert_eq!(note.duration, 4);
    assert_eq!(note.velocity, 100);
}

#[test]
fn track_events_pair_each_note() {
    let notes = vec![Note::new(60, 2, 127), Note::new(64, 1, 127)];
    let events = track_events(&notes);
    assert_eq!(events.len(), 4);
    assert_eq!((events[0].delta, events[0].on, events[0].key), (0, true, 60));
    assert_eq!((events[1].delta, events[1].on, events[1].key), (2, false, 60));
    assert_eq!((events[2].delta, events[2].on, events[2].key), (0, true, 64));
    assert_eq!((events[3].delta, events[3].on, events[3].key), (1, false, 64));
    assert_eq!(events[0].velocity, 127);
}

#[test]
fn empty_sequence_plays_nothing() {
    let notes = run(vec![], vec![1], 60);
    assert!(notes.is_empty());
    let events = track_events(&notes);
    assert!(events.is_empty());
}
