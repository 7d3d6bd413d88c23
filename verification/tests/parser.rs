use lsys_music::lsystem::Symbol;
use lsys_music::note::Scale;
use lsys_music::parser::LSysParser;

#[test]
fn parses_rules_and_initial_sequence() {
    let text = b"S => SS      # rule 1\nX => S+[X]-X # rule 2\n\nX            # the start\n";
    let sys = LSysParser::parse(text).unwrap();
    assert_eq!(sys.sequence(), &vec![Symbol::Letter('X')]);
    assert_eq!(sys.step_count(), 0);
}

#[test]
fn parsed_rules_drive_rewriting() {
    let text = b"X => S+[X]-X\nX\n";
    let mut sys = LSysParser::parse(text).unwrap();
    sys.forward(1);
    assert_eq!(
        sys.sequence(),
        &vec![
            Symbol::Play,
            Symbol::Raise,
            Symbol::Push,
            Symbol::Letter('X'),
            Symbol::Pop,
            Symbol::Lower,
            Symbol::Letter('X'),
        ]
    );
}

#[test]
fn a_lone_sequence_line_parses_with_no_rules() {
    let mut sys = LSysParser::parse(b"S+S").unwrap();
    // With no rules supplied, the sequence never changes.
    sys.forward(5);
    assert_eq!(
        sys.sequence(),
        &vec![Symbol::Play, Symbol::Raise, Symbol::Play]
    );
    let notes = sys.get_notes(Scale::new(vec![1]), 60);
    assert_eq!(notes.len(), 2);
    assert_eq!(notes[0].midi_num, 60);
    assert_eq!(notes[1].midi_num, 61);
}

#[test]
fn blank_lines_and_comments_are_ignored() {
    let text = b"# a comment line\n\n  \t\nA => AB\nB => A\n\n  AB  # trailing\n\n# after\n";
    let mut sys = LSysParser::parse(text).unwrap();
    sys.forward(1);
    assert_eq!(
        sys.sequence(),
        &vec![
            Symbol::Letter('A'),
            Symbol::Letter('B'),
            Symbol::Letter('A'),
        ]
    );
}

#[test]
fn missing_initial_sequence_is_an_error() {
    assert!(LSysParser::parse(b"S => SS\n").is_err());
    assert!(LSysParser::parse(b"").is_err());
    assert!(LSysParser::parse(b"# only a comment\n").is_err());
}

#[test]
fn lowercase_or_stray_bytes_are_errors() {
    assert!(LSysParser::parse(b"s => SS\nS\n").is_err());
    assert!(LSysParser::parse(b"S => Sq\nS\n").is_err());
    assert!(LSysParser::parse(b"S*S\n").is_err());
}

#[test]
fn rule_without_right_hand_side_is_an_error() {
    assert!(LSysParser::parse(b"S =>\nS\n").is_err());
    assert!(LSysParser::parse(b"S => # nothing\nS\n").is_err());
}

#[test]
fn significant_line_after_the_sequence_is_an_error() {
    assert!(LSysParser::parse(b"S\nS => SS\n").is_err());
    assert!(LSysParser::parse(b"S\nS\n").is_err());
}

#[test]
fn duplicate_rule_keeps_the_later_one() {
    let text = b"X => S\nX => +\nX\n";
    let mut sys = LSysParser::parse(text).unwrap();
    sys.forward(1);
    assert_eq!(sys.sequence(), &vec![Symbol::Raise]);
}

#[test]
fn windows_line_endings_are_accepted() {
    let text = b"S => SS\r\nS\r\n";
    let mut sys = LSysParser::parse(text).unwrap();
    sys.forward(1);
    assert_eq!(sys.sequence(), &vec![Symbol::Play, Symbol::Play]);
}

#[test]
fn spaces_inside_symbol_lists_are_ignored() {
    let mut sys = LSysParser::parse(b"X => S + [ X ]\nX Y\n").unwrap();
    assert_eq!(
        sys.sequence(),
        &vec![Symbol::Letter('X'), Symbol::Letter('Y')]
    );
    sys.forward(1);
    assert_eq!(
        sys.sequence(),
        &vec![
            Symbol::Play,
            Symbol::Raise,
            Symbol::Push,
            Symbol::Letter('X'),
            Symbol::Pop,
            Symbol::Letter('Y'),
        ]
    );
}
