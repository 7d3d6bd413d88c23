use lsys_music::lsystem::LSystem;
use lsys_music::lsystem::ProductionTable;
use lsys_music::lsystem::Symbol;

fn doubling_system() -> LSystem {
    let mut table = ProductionTable::new();
    table.insert(Symbol::Play, vec![Symbol::Play, Symbol::Play]);
    LSystem::new(table, vec![Symbol::Play])
}

#[test]
fn forward_zero_is_noop() {
    let mut sys = doubling_system();
    sys.forward(0);
    assert_eq!(sys.sequence(), &vec![Symbol::Play]);
    assert_eq!(sys.step_count(), 0);
}

#[test]
fn forward_zero_keeps_mixed_initiator() {
    let mut table = ProductionTable::new();
    table.insert(Symbol::Letter('X'), vec![Symbol::Play, Symbol::Letter('X')]);
    let start = vec![Symbol::Push, Symbol::Letter('X'), Symbol::Pop, Symbol::Raise];
    let mut sys = LSystem::new(table, start.clone());
    sys.forward(0);
    assert_eq!(sys.sequence(), &start);
}

#[test]
fn forward_is_additive() {
    let mut table1 = ProductionTable::new();
    table1.insert(Symbol::Letter('X'), vec![Symbol::Play, Symbol::Raise, Symbol::Letter('X')]);
    table1.insert(Symbol::Play, vec![Symbol::Play, Symbol::Play]);
    let mut table2 = ProductionTable::new();
    table2.insert(Symbol::Letter('X'), vec![Symbol::Play, Symbol::Raise, Symbol::Letter('X')]);
    table2.insert(Symbol::Play, vec![Symbol::Play, Symbol::Play]);

    let mut split = LSystem::new(table1, vec![Symbol::Letter('X')]);
    split.forward(2);
    split.forward(3);

    let mut whole = LSystem::new(table2, vec![Symbol::Letter('X')]);
    whole.forward(5);

    assert_eq!(split.sequence(), whole.sequence());
    assert_eq!(split.step_count(), whole.step_count());
}

#[test]
fn empty_table_freezes_sequence() {
    let table = ProductionTable::new();
    let start = vec![Symbol::Play, Symbol::Raise, Symbol::Letter('Q'), Symbol::Play];
    let mut sys = LSystem::new(table, start.clone());
    sys.forward(7);
    assert_eq!(sys.sequence(), &start);
    assert_eq!(sys.step_count(), 7);
}

#[test]
fn doubling_three_generations_gives_eight_plays() {
    let mut sys = doubling_system();
    sys.forward(3);
    assert_eq!(sys.sequence().len(), 8);
    for sym in sys.sequence() {
        assert_eq!(*sym, Symbol::Play);
    }
    assert_eq!(sys.step_count(), 3);
}

#[test]
fn rewriting_is_parallel_not_iterated() {
    // X => S X within one round must not rewrite the freshly produced X.
    let mut table = ProductionTable::new();
    table.insert(Symbol::Letter('X'), vec![Symbol::Play, Symbol::Letter('X')]);
    let mut sys = LSystem::new(table, vec![Symbol::Letter('X')]);
    sys.forward(1);
    assert_eq!(sys.sequence(), &vec![Symbol::Play, Symbol::Letter('X')]);
}

#[test]
fn later_production_for_same_symbol_wins() {
    let mut table = ProductionTable::new();
    table.insert(Symbol::Letter('X'), vec![Symbol::Play]);
    table.insert(Symbol::Letter('X'), vec![Symbol::Raise]);
    let mut sys = LSystem::new(table, vec![Symbol::Letter('X')]);
    sys.forward(1);
    assert_eq!(sys.sequence(), &vec![Symbol::Raise]);
}

#[test]
fn production_table_get_finds_stored_rule() {
    let mut table = ProductionTable::new();
    table.insert(Symbol::Play, vec![Symbol::Play, Symbol::Lower]);
    assert_eq!(table.get(Symbol::Play), Some(&vec![Symbol::Play, Symbol::Lower]));
    assert_eq!(table.get(Symbol::Pop), None);
    assert!(!table.is_empty());
    assert!(ProductionTable::new().is_empty());
}

#[test]
fn symbols_render_to_their_characters() {
    assert_eq!(Symbol::Push.to_char(), '[');
    assert_eq!(Symbol::Pop.to_char(), ']');
    assert_eq!(Symbol::Raise.to_char(), '+');
    assert_eq!(Symbol::Lower.to_char(), '-');
    assert_eq!(Symbol::Play.to_char(), 'S');
    assert_eq!(Symbol::Letter('X').to_char(), 'X');
}
