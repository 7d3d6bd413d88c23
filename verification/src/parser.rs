//! The grammar front end.
//!
//! The concrete text syntax: each line holds either a production, written
//! `A => B` with `A` one symbol and `B` a sequence of symbols, or nothing.
//! The last significant line is the initial symbol sequence, written as a
//! plain symbol list; it must follow every production line. `#` starts a
//! comment running to the end of the line; spaces and tabs are ignored.
//! A symbol is an uppercase letter (`S` means play) or one of `[`, `]`,
//! `+`, `-`.
//!
//! The accepted language and its meaning are fixed by the specification
//! functions here, line by line; `LSysParser::parse` promises to accept
//! exactly that language and to build exactly the described engine.

use vstd::prelude::*;

use crate::lsystem::LSystem;
use crate::lsystem::Symbol;
use crate::lsystem::ProductionTable;
use crate::lsystem::assoc_map;
use crate::lsystem::effective_table;

verus! {

/// Rejection of text that does not fit the grammar.
#[derive(Clone, Copy, PartialEq, Eq, Structural, Debug)]
pub struct ParseError;

/// Whitespace that may appear anywhere between tokens of a line.
pub open spec fn is_blank(b: u8) -> bool {
    b == 32 || b == 9 || b == 13
}

/// The bytes that write a symbol: an uppercase letter or `+ - [ ]`.
pub open spec fn is_symbol_byte(b: u8) -> bool {
    (65 <= b && b <= 90) || b == 43 || b == 45 || b == 91 || b == 93
}

/// The symbol a byte writes; `S` (0x53) is the play symbol.
pub open spec fn symbol_of_byte(b: u8) -> Symbol {
    if b == 91 {
        Symbol::Push
    } else if b == 93 {
        Symbol::Pop
    } else if b == 43 {
        Symbol::Raise
    } else if b == 45 {
        Symbol::Lower
    } else if b == 83 {
        Symbol::Play
    } else {
        Symbol::Letter(b as char)
    }
}

/// The significant bytes of a line: everything before the first `#`, with
/// blanks removed.
pub open spec fn sig_chars(line: Seq<u8>) -> Seq<u8>
    decreases line.len(),
{
    if line.len() == 0 {
        Seq::empty()
    } else if line[0] == 35 {
        Seq::empty()
    } else if is_blank(line[0]) {
        sig_chars(line.drop_first())
    } else {
        seq![line[0]] + sig_chars(line.drop_first())
    }
}

/// Whether every byte of `cs` writes a symbol.
pub open spec fn all_symbol_bytes(cs: Seq<u8>) -> bool {
    forall|i: int| 0 <= i < cs.len() ==> is_symbol_byte(#[trigger] cs[i])
}

/// The symbols a run of symbol bytes writes.
pub open spec fn symbols_of(cs: Seq<u8>) -> Seq<Symbol> {
    cs.map_values(|b: u8| symbol_of_byte(b))
}

/// A production line, once stripped: one symbol, `=>`, and a non-empty
/// symbol list.
pub open spec fn is_rule_line(cs: Seq<u8>) -> bool {
    &&& cs.len() >= 4
    &&& is_symbol_byte(cs[0])
    &&& cs[1] == 61
    &&& cs[2] == 62
    &&& all_symbol_bytes(cs.skip(3))
}

/// The production a stripped production line writes.
pub open spec fn rule_of_line(cs: Seq<u8>) -> (Symbol, Seq<Symbol>) {
    (symbol_of_byte(cs[0]), symbols_of(cs.skip(3)))
}

/// A stripped line that is a plain non-empty symbol list.
pub open spec fn is_seq_line(cs: Seq<u8>) -> bool {
    cs.len() >= 1 && all_symbol_bytes(cs)
}

/// Whether every line of `lines` is blank once stripped.
pub open spec fn all_blank(lines: Seq<Seq<u8>>) -> bool {
    forall|i: int| 0 <= i < lines.len() ==> sig_chars(#[trigger] lines[i]).len() == 0
}

/// The index of the first newline of `t`, or `t.len()` if there is none.
pub open spec fn find_nl(t: Seq<u8>) -> int
    decreases t.len(),
{
    if t.len() == 0 {
        0
    } else if t[0] == 10 {
        0
    } else {
        1 + find_nl(t.drop_first())
    }
}

/// The lines of `t`, split at each newline; a trailing fragment counts as
/// a line, so a text of `k` newlines has `k + 1` lines.
pub open spec fn line_split(t: Seq<u8>) -> Seq<Seq<u8>>
    decreases t.len(),
{
    let i = find_nl(t);
    if i < 0 || i >= t.len() {
        seq![t]
    } else {
        seq![t.take(i)] + line_split(t.skip(i + 1))
    }
}

/// What a line list parses to: the production list in file order and the
/// initial sequence, or nothing if the text does not fit the grammar —
/// no initial sequence, a malformed line, or a significant line after the
/// initial sequence.
pub open spec fn parse_lines(lines: Seq<Seq<u8>>) -> Option<
    (Seq<(Symbol, Seq<Symbol>)>, Seq<Symbol>),
>
    decreases lines.len(),
{
    if lines.len() == 0 {
        None
    } else {
        let cs = sig_chars(lines[0]);
        if cs.len() == 0 {
            parse_lines(lines.drop_first())
        } else if is_rule_line(cs) {
            match parse_lines(lines.drop_first()) {
                Some(pr) => Some((seq![rule_of_line(cs)] + pr.0, pr.1)),
                None => None,
            }
        } else if is_seq_line(cs) {
            if all_blank(lines.drop_first()) {
                Some((Seq::empty(), symbols_of(cs)))
            } else {
                None
            }
        } else {
            None
        }
    }
}

/// What a whole text parses to.
pub open spec fn parse_result(t: Seq<u8>) -> Option<(Seq<(Symbol, Seq<Symbol>)>, Seq<Symbol>)> {
    parse_lines(line_split(t))
}

proof fn lemma_find_nl_props(t: Seq<u8>)
    ensures
        0 <= find_nl(t) <= t.len(),
        find_nl(t) < t.len() ==> t[find_nl(t)] == 10,
    decreases t.len(),
{
    if t.len() > 0 && t[0] != 10 {
        lemma_find_nl_props(t.drop_first());
    }
}

proof fn lemma_find_nl_no_nl(t: Seq<u8>)
    requires
        forall|j: int| 0 <= j < t.len() ==> t[j] != 10,
    ensures
        find_nl(t) == t.len(),
    decreases t.len(),
{
    if t.len() > 0 {
        assert(forall|j: int| 0 <= j < t.drop_first().len() ==> t.drop_first()[j] != 10);
        lemma_find_nl_no_nl(t.drop_first());
    }
}

proof fn lemma_find_nl_concat(line: Seq<u8>, rest: Seq<u8>)
    requires
        forall|j: int| 0 <= j < line.len() ==> line[j] != 10,
    ensures
        find_nl(line + seq![10u8] + rest) == line.len(),
    decreases line.len(),
{
    let s = line + seq![10u8] + rest;
    if line.len() == 0 {
        assert(s[0] == 10);
    } else {
        assert(s[0] == line[0]);
        assert(forall|j: int|
            0 <= j < line.drop_first().len() ==> line.drop_first()[j] != 10);
        lemma_find_nl_concat(line.drop_first(), rest);
        assert(s.drop_first() =~= line.drop_first() + seq![10u8] + rest);
    }
}

/// Splitting a text whose first line is `line` peels that line off.
proof fn lemma_split_at_nl(line: Seq<u8>, rest: Seq<u8>)
    requires
        forall|j: int| 0 <= j < line.len() ==> line[j] != 10,
    ensures
        line_split(line + seq![10u8] + rest) == seq![line] + line_split(rest),
{
    let s = line + seq![10u8] + rest;
    lemma_find_nl_concat(line, rest);
    assert(s.take(line.len() as int) =~= line);
    assert(s.skip(line.len() as int + 1) =~= rest);
}

/// A text without newlines is one line.
proof fn lemma_split_no_nl(t: Seq<u8>)
    requires
        forall|j: int| 0 <= j < t.len() ==> t[j] != 10,
    ensures
        line_split(t) == seq![t],
{
    lemma_find_nl_no_nl(t);
}

/// The views of split-up lines.
spec fn line_views(lines: Seq<Vec<u8>>) -> Seq<Seq<u8>> {
    lines.map_values(|v: Vec<u8>| v@)
}

fn is_symbol_byte_x(b: u8) -> (r: bool)
    ensures
        r == is_symbol_byte(b),
{
    (65 <= b && b <= 90) || b == 43 || b == 45 || b == 91 || b == 93
}

fn symbol_of_byte_x(b: u8) -> (r: Symbol)
    ensures
        r == symbol_of_byte(b),
{
    if b == 91 {
        Symbol::Push
    } else if b == 93 {
        Symbol::Pop
    } else if b == 43 {
        Symbol::Raise
    } else if b == 45 {
        Symbol::Lower
    } else if b == 83 {
        Symbol::Play
    } else {
        Symbol::Letter(b as char)
    }
}

/// Strip one line to its significant bytes.
#[verifier::loop_isolation(false)]
fn sig_of_line(line: &Vec<u8>) -> (r: Vec<u8>)
    ensures
        r@ == sig_chars(line@),
{
    let mut out: Vec<u8> = Vec::new();
    let n = line.len();
    proof {
        assert(line@.skip(0) =~= line@);
    }
    for j in 0..n
        invariant
            sig_chars(line@) == out@ + sig_chars(line@.skip(j as int)),
    {
        let b = line[j];
        proof {
            assert(line@.skip(j as int).drop_first() =~= line@.skip(j + 1));
        }
        if b == 35 {
            proof {
                assert(out@ + sig_chars(line@.skip(j as int)) =~= out@);
            }
            return out;
        } else if b == 32 || b == 9 || b == 13 {
        } else {
            let ghost prev = out@;
            out.push(b);
            proof {
                assert(prev + (seq![b] + sig_chars(line@.skip(j + 1))) =~= out@ + sig_chars(
                    line@.skip(j + 1),
                ));
            }
        }
    }
    proof {
        assert(line@.skip(n as int) =~= Seq::<u8>::empty());
        assert(out@ + sig_chars(line@.skip(n as int)) =~= out@);
    }
    out
}

/// Convert the bytes of `cs` from `from` on into symbols, or report the
/// first byte that writes none.
#[verifier::loop_isolation(false)]
fn symbols_of_tail(cs: &Vec<u8>, from: usize) -> (r: Option<Vec<Symbol>>)
    requires
        from <= cs@.len(),
    ensures
        match r {
            Some(v) => all_symbol_bytes(cs@.skip(from as int)) && v@ == symbols_of(
                cs@.skip(from as int),
            ),
            None => !all_symbol_bytes(cs@.skip(from as int)),
        },
{
    let mut out: Vec<Symbol> = Vec::new();
    let n = cs.len();
    for j in from..n
        invariant
            out@ == symbols_of(cs@.subrange(from as int, j as int)),
            forall|l: int| from <= l < j ==> is_symbol_byte(#[trigger] cs@[l]),
    {
        let b = cs[j];
        if !is_symbol_byte_x(b) {
            proof {
                assert(cs@.skip(from as int)[j - from] == b);
            }
            return None;
        }
        out.push(symbol_of_byte_x(b));
        proof {
            assert(cs@.subrange(from as int, j + 1) =~= cs@.subrange(from as int, j as int).push(
                b,
            ));
            assert(out@ =~= symbols_of(cs@.subrange(from as int, j + 1)));
        }
    }
    proof {
        assert(cs@.subrange(from as int, n as int) =~= cs@.skip(from as int));
        assert forall|i: int| 0 <= i < cs@.skip(from as int).len() implies is_symbol_byte(
            #[trigger] cs@.skip(from as int)[i],
        ) by {
            assert(cs@.skip(from as int)[i] == cs@[from + i]);
        }
    }
    Some(out)
}

/// The grammar front end.
pub struct LSysParser;

impl LSysParser {
    /// Parse a whole text. The call succeeds exactly when the text fits
    /// the grammar; the engine then holds the productions in file order
    /// (a later production for one symbol overrides an earlier one) and
    /// the initial symbol list as its sequence.
    #[verifier::loop_isolation(false)]
    #[verifier::rlimit(60)]
    pub fn parse(input: &[u8]) -> (r: Result<LSystem, ParseError>)
        ensures
            match parse_result(input@) {
                Some(pr) => r matches Ok(sys) && sys.symbols() == pr.1 && sys.generation() == 0
                    && sys.productions() == effective_table(assoc_map(pr.0), pr.1),
                None => r is Err,
            },
    {
        let ghost t = input@;
        let mut lines: Vec<Vec<u8>> = Vec::new();
        let mut cur: Vec<u8> = Vec::new();
        let n = input.len();
        proof {
            assert(t.skip(0) =~= t);
            assert(cur@ =~= t.subrange(0, 0));
        }
        for i in 0..n
            invariant
                cur@.len() <= i,
                forall|j: int| 0 <= j < cur@.len() ==> cur@[j] != 10,
                cur@ == t.subrange(i - cur@.len(), i as int),
                line_split(t) == line_views(lines@) + line_split(t.skip(i - cur@.len())),
        {
            let b = input[i];
            if b == 10 {
                let ghost cur_snap = cur@;
                let ghost pos = i - cur@.len();
                proof {
                    assert(t.skip(pos) =~= cur_snap + seq![10u8] + t.skip(i + 1));
                    lemma_split_at_nl(cur_snap, t.skip(i + 1));
                }
                lines.push(cur);
                cur = Vec::new();
                proof {
                    assert(line_views(lines@) =~= line_views(lines@.drop_last()) + seq![cur_snap]);
                    assert(line_views(lines@) + line_split(t.skip(i + 1)) =~= (line_views(
                        lines@.drop_last(),
                    ) + seq![cur_snap]) + line_split(t.skip(i + 1)));
                    assert(line_split(t) == line_views(lines@) + line_split(t.skip(i + 1)));
                    assert(cur@ =~= t.subrange(i + 1, i + 1));
                }
            } else {
                let ghost pos = i - cur@.len();
                cur.push(b);
                proof {
                    assert(cur@ =~= t.subrange(pos, i + 1));
                }
            }
        }
        let ghost pos = n - cur@.len();
        proof {
            assert(t.skip(pos) =~= cur@);
            lemma_split_no_nl(cur@);
        }
        let ghost cur_snap = cur@;
        lines.push(cur);
        proof {
            assert(line_views(lines@) =~= line_views(lines@.drop_last()) + seq![cur_snap]);
            assert(line_views(lines@.drop_last()) + seq![cur_snap] =~= line_split(t));
            assert(line_split(t) == line_views(lines@));
        }
        let ghost lvs = line_views(lines@);
        let mut table = ProductionTable::new();
        let ghost mut rules_acc: Seq<(Symbol, Seq<Symbol>)> = Seq::empty();
        let ln = lines.len();
        proof {
            assert(lvs.skip(0) =~= lvs);
        }
        for k in 0..ln
            invariant
                table@ == assoc_map(rules_acc),
                parse_lines(lvs) == match parse_lines(lvs.skip(k as int)) {
                    Some(pr) => Some((rules_acc + pr.0, pr.1)),
                    None => None,
                },
        {
            let cs = sig_of_line(&lines[k]);
            let ghost rest = lvs.skip(k as int);
            proof {
                assert(rest[0] == lvs[k as int]);
                assert(lvs[k as int] == lines@[k as int]@);
                assert(rest.drop_first() =~= lvs.skip(k + 1));
            }
            if cs.len() == 0 {
            } else {
                let rule_shaped = cs.len() >= 4 && is_symbol_byte_x(cs[0]) && cs[1] == 61
                    && cs[2] == 62;
                if rule_shaped {
                    match symbols_of_tail(&cs, 3) {
                        Some(rhs) => {
                            let lhs = symbol_of_byte_x(cs[0]);
                            let ghost rhs_view = rhs@;
                            table.insert(lhs, rhs);
                            proof {
                                assert(is_rule_line(cs@));
                                assert(rule_of_line(cs@) == (lhs, rhs_view));
                                let prev = rules_acc;
                                rules_acc = rules_acc.push((lhs, rhs_view));
                                assert(rules_acc.drop_last() =~= prev);
                                assert(table@ == assoc_map(rules_acc));
                                match parse_lines(lvs.skip(k + 1)) {
                                    Some(pr) => {
                                        assert(prev + (seq![(lhs, rhs_view)] + pr.0) =~= rules_acc
                                            + pr.0);
                                    },
                                    None => {},
                                }
                            }
                        },
                        None => {
                            proof {
                                assert(!is_rule_line(cs@));
                                assert(!is_symbol_byte(cs@[1]));
                                assert(!is_seq_line(cs@));
                                assert(parse_lines(rest) is None);
                            }
                            return Err(ParseError);
                        },
                    }
                } else {
                    match symbols_of_tail(&cs, 0) {
                        Some(start_syms) => {
                            proof {
                                assert(cs@.skip(0) =~= cs@);
                                assert(is_seq_line(cs@));
                                assert(!is_rule_line(cs@));
                            }
                            for k2 in (k + 1)..ln
                                invariant
                                    forall|j: int|
                                        k + 1 <= j < k2 ==> sig_chars(#[trigger] lvs[j]).len()
                                            == 0,
                            {
                                let cs2 = sig_of_line(&lines[k2]);
                                if cs2.len() > 0 {
                                    proof {
                                        assert(lvs[k2 as int] == lines@[k2 as int]@);
                                        assert(lvs.skip(k + 1)[k2 - (k + 1)] == lvs[k2 as int]);
                                        assert(!all_blank(lvs.skip(k + 1)));
                                        assert(parse_lines(rest) is None);
                                    }
                                    return Err(ParseError);
                                }
                            }
                            proof {
                                assert forall|j: int|
                                    0 <= j < lvs.skip(k + 1).len() implies sig_chars(
                                    #[trigger] lvs.skip(k + 1)[j],
                                ).len() == 0 by {
                                    assert(lvs.skip(k + 1)[j] == lvs[k + 1 + j]);
                                }
                                assert(all_blank(lvs.skip(k + 1)));
                                assert(parse_lines(rest) == Some(
                                    (Seq::<(Symbol, Seq<Symbol>)>::empty(), symbols_of(cs@)),
                                ));
                                assert(rules_acc + Seq::<(Symbol, Seq<Symbol>)>::empty()
                                    =~= rules_acc);
                            }
                            let sys = LSystem::new(table, start_syms);
                            return Ok(sys);
                        },
                        None => {
                            proof {
                                assert(cs@.skip(0) =~= cs@);
                                assert(!is_seq_line(cs@));
                                assert(!is_rule_line(cs@));
                                assert(parse_lines(rest) is None);
                            }
                            return Err(ParseError);
                        },
                    }
                }
            }
        }
        proof {
            assert(lvs.skip(ln as int) =~= Seq::<Seq<u8>>::empty());
        }
        Err(ParseError)
    }
}

} // verus!
