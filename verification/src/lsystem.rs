//! The L-system rewriting engine.
//!
//! An `LSystem` owns a symbol sequence and a production table and advances
//! the sequence through generations of parallel, context-free substitution:
//! each generation rewrites every symbol of the current sequence at once,
//! replacing it by its production's right-hand side, or by itself when no
//! production names it.

use vstd::prelude::*;

verus! {

/// An atomic token of the rewriting alphabet.
///
/// `Push`, `Pop`, `Raise`, `Lower` and `Play` drive the interpreter;
/// `Letter` carries an uppercase letter and exists purely as a rewriting
/// placeholder with no interpretation-time effect.
#[derive(Clone, Copy, PartialEq, Eq, Hash, Structural, Debug)]
pub enum Symbol {
    /// Save the interpreter state (written `[`).
    Push,
    /// Restore the interpreter state (written `]`).
    Pop,
    /// Move one scale degree upward (written `+`).
    Raise,
    /// Move one scale degree downward (written `-`).
    Lower,
    /// Sound the current pitch (written `S`).
    Play,
    /// An inert placeholder (any other uppercase letter).
    Letter(char),
}

/// The character that writes a symbol in the concrete text syntax.
pub open spec fn char_of_symbol(s: Symbol) -> char {
    match s {
        Symbol::Push => '[',
        Symbol::Pop => ']',
        Symbol::Raise => '+',
        Symbol::Lower => '-',
        Symbol::Play => 'S',
        Symbol::Letter(c) => c,
    }
}

impl Symbol {
    /// The character that writes this symbol in the concrete text syntax.
    pub fn to_char(&self) -> (c: char)
        ensures
            c == char_of_symbol(*self),
    {
        match *self {
            Symbol::Push => '[',
            Symbol::Pop => ']',
            Symbol::Raise => '+',
            Symbol::Lower => '-',
            Symbol::Play => 'S',
            Symbol::Letter(c) => c,
        }
    }
}

/// The association list underneath a `ProductionTable`, read as a map.
/// A later entry for the same key overrides an earlier one.
pub open spec fn assoc_map(entries: Seq<(Symbol, Seq<Symbol>)>) -> Map<Symbol, Seq<Symbol>>
    decreases entries.len(),
{
    if entries.len() == 0 {
        Map::empty()
    } else {
        assoc_map(entries.drop_last()).insert(entries.last().0, entries.last().1)
    }
}

/// The views of the table entries.
spec fn entry_views(entries: Seq<(Symbol, Vec<Symbol>)>) -> Seq<(Symbol, Seq<Symbol>)> {
    entries.map_values(|e: (Symbol, Vec<Symbol>)| (e.0, e.1@))
}

/// A mapping from symbols to replacement sequences.
///
/// At most one production exists per distinct symbol; inserting a symbol a
/// second time overwrites its production (last write wins). A symbol absent
/// from the table is its own identity production at rewriting time.
pub struct ProductionTable {
    entries: Vec<(Symbol, Vec<Symbol>)>,
}

impl View for ProductionTable {
    type V = Map<Symbol, Seq<Symbol>>;

    closed spec fn view(&self) -> Map<Symbol, Seq<Symbol>> {
        assoc_map(entry_views(self.entries@))
    }
}

proof fn lemma_assoc_absent(entries: Seq<(Symbol, Seq<Symbol>)>, key: Symbol)
    requires
        forall|l: int| 0 <= l < entries.len() ==> (#[trigger] entries[l]).0 != key,
    ensures
        !assoc_map(entries).contains_key(key),
    decreases entries.len(),
{
    if entries.len() > 0 {
        lemma_assoc_absent(entries.drop_last(), key);
    }
}

proof fn lemma_assoc_present(entries: Seq<(Symbol, Seq<Symbol>)>, j: int, key: Symbol)
    requires
        0 <= j < entries.len(),
        entries[j].0 == key,
        forall|l: int| j < l < entries.len() ==> (#[trigger] entries[l]).0 != key,
    ensures
        assoc_map(entries).contains_key(key),
        assoc_map(entries)[key] == entries[j].1,
    decreases entries.len(),
{
    if j == entries.len() - 1 {
    } else {
        lemma_assoc_present(entries.drop_last(), j, key);
    }
}

impl ProductionTable {
    #[verifier::type_invariant]
    spec fn wf(self) -> bool {
        forall|j: int, k: int|
            0 <= j < k < self.entries@.len() ==> (#[trigger] self.entries@[j]).0 != (
            #[trigger] self.entries@[k]).0
    }

    /// An empty table.
    pub fn new() -> (r: Self)
        ensures
            r@ == Map::<Symbol, Seq<Symbol>>::empty(),
    {
        ProductionTable { entries: Vec::new() }
    }

    /// Whether the table holds no production at all.
    pub fn is_empty(&self) -> (r: bool)
        ensures
            r <==> self@ == Map::<Symbol, Seq<Symbol>>::empty(),
    {
        proof {
            if self.entries@.len() > 0 {
                let views = entry_views(self.entries@);
                assert(assoc_map(views).contains_key(views.last().0));
            }
        }
        self.entries.len() == 0
    }

    /// Record the production `lhs => rhs`, overwriting any earlier
    /// production for `lhs`.
    #[verifier::loop_isolation(false)]
    pub fn insert(&mut self, lhs: Symbol, rhs: Vec<Symbol>)
        ensures
            final (self)@ == old(self)@.insert(lhs, rhs@),
    {
        proof {
            use_type_invariant(&*self);
        }
        let mut entries: Vec<(Symbol, Vec<Symbol>)> = Vec::new();
        std::mem::swap(&mut entries, &mut self.entries);
        let ghost rhs_snap = rhs;
        let ghost old_entries = entries@;
        let ghost old_views = entry_views(entries@);
        proof {
            assert(old_views.len() == old_entries.len());
            assert forall|l: int, k: int|
                0 <= l < k < old_views.len() implies (#[trigger] old_views[l]).0 != (
            #[trigger] old_views[k]).0 by {
                assert(old_views[l].0 == old_entries[l].0);
                assert(old_views[k].0 == old_entries[k].0);
            }
        }
        let n = entries.len();
        for j in 0..n
            invariant
                n == entries@.len(),
                entries@ == old_entries,
                forall|l: int| 0 <= l < j ==> (#[trigger] entries@[l]).0 != lhs,
        {
            if entries[j].0 == lhs {
                proof {
                    assert(old_views[j as int].0 == lhs);
                    lemma_assoc_replace(old_views, j as int, rhs@);
                }
                entries.remove(j);
                entries.insert(j, (lhs, rhs));
                proof {
                    assert(entries@ =~= old_entries.update(j as int, (lhs, rhs_snap)));
                    assert(entry_views(entries@) =~= old_views.update(j as int, (lhs, rhs_snap@)));
                }
                self.entries = entries;
                return ;
            }
        }
        entries.push((lhs, rhs));
        proof {
            assert(entry_views(entries@).drop_last() =~= old_views);
        }
        self.entries = entries;
    }

    /// The production stored for `key`, if the table holds one.
    #[verifier::loop_isolation(false)]
    pub fn get(&self, key: Symbol) -> (r: Option<&Vec<Symbol>>)
        ensures
            match r {
                Some(v) => self@.contains_key(key) && v@ == self@[key],
                None => !self@.contains_key(key),
            },
    {
        let n = self.entries.len();
        for j in 0..n
            invariant
                n == self.entries@.len(),
                forall|l: int| 0 <= l < j ==> (#[trigger] self.entries@[l]).0 != key,
        {
            if self.entries[j].0 == key {
                proof {
                    use_type_invariant(&*self);
                    lemma_assoc_present(entry_views(self.entries@), j as int, key);
                }
                return Some(&self.entries[j].1);
            }
        }
        proof {
            lemma_assoc_absent(entry_views(self.entries@), key);
        }
        None
    }
}

proof fn lemma_assoc_replace(entries: Seq<(Symbol, Seq<Symbol>)>, j: int, rhs: Seq<Symbol>)
    requires
        0 <= j < entries.len(),
        forall|l: int, k: int|
            0 <= l < k < entries.len() ==> (#[trigger] entries[l]).0 != (#[trigger] entries[k]).0,
    ensures
        assoc_map(entries.update(j, (entries[j].0, rhs))) == assoc_map(entries).insert(
            entries[j].0,
            rhs,
        ),
    decreases entries.len(),
{
    let updated = entries.update(j, (entries[j].0, rhs));
    if j == entries.len() - 1 {
        assert(updated.drop_last() =~= entries.drop_last());
        assert(assoc_map(updated) =~= assoc_map(entries).insert(entries[j].0, rhs));
    } else {
        lemma_assoc_replace(entries.drop_last(), j, rhs);
        assert(updated.drop_last() =~= entries.drop_last().update(j, (entries[j].0, rhs)));
        assert(updated.last() == entries.last());
        assert(assoc_map(updated) =~= assoc_map(entries).insert(entries[j].0, rhs));
    }
}

/// What one symbol becomes in one rewriting round: its production's
/// right-hand side, or itself when the table has no production for it.
pub open spec fn produce(t: Map<Symbol, Seq<Symbol>>, s: Symbol) -> Seq<Symbol> {
    if t.contains_key(s) {
        t[s]
    } else {
        seq![s]
    }
}

/// One round of parallel rewriting: every symbol of `syms` is replaced at
/// once, never seeing the other replacements of the same round.
pub open spec fn rewrite(t: Map<Symbol, Seq<Symbol>>, syms: Seq<Symbol>) -> Seq<Symbol>
    decreases syms.len(),
{
    if syms.len() == 0 {
        Seq::empty()
    } else {
        produce(t, syms[0]) + rewrite(t, syms.drop_first())
    }
}

/// `n` rounds of parallel rewriting.
pub open spec fn rewrite_n(t: Map<Symbol, Seq<Symbol>>, syms: Seq<Symbol>, n: nat) -> Seq<Symbol>
    decreases n,
{
    if n == 0 {
        syms
    } else {
        rewrite_n(t, rewrite(t, syms), (n - 1) as nat)
    }
}

/// The table that maps every symbol of `initiator` to itself.
pub open spec fn identity_table(initiator: Seq<Symbol>) -> Map<Symbol, Seq<Symbol>> {
    Map::new(|s: Symbol| initiator.contains(s), |s: Symbol| seq![s])
}

/// The table an engine actually rewrites with: a supplied empty table is
/// materialized as explicit identity productions over the initiator, so the
/// guarantee that no productions freeze the sequence stays visible.
pub open spec fn effective_table(t: Map<Symbol, Seq<Symbol>>, initiator: Seq<Symbol>) -> Map<
    Symbol,
    Seq<Symbol>,
> {
    if t == Map::<Symbol, Seq<Symbol>>::empty() {
        identity_table(initiator)
    } else {
        t
    }
}

proof fn lemma_rewrite_snoc(t: Map<Symbol, Seq<Symbol>>, syms: Seq<Symbol>, x: Symbol)
    ensures
        rewrite(t, syms.push(x)) == rewrite(t, syms) + produce(t, x),
    decreases syms.len(),
{
    reveal_with_fuel(rewrite, 3);
    if syms.len() == 0 {
        assert(syms.push(x)[0] == x);
        assert(syms.push(x).drop_first() =~= Seq::<Symbol>::empty());
        assert(rewrite(t, syms.push(x)) == produce(t, x) + rewrite(t, Seq::<Symbol>::empty()));
        assert(rewrite(t, syms.push(x)) =~= rewrite(t, syms) + produce(t, x));
    } else {
        lemma_rewrite_snoc(t, syms.drop_first(), x);
        assert(syms.push(x)[0] == syms[0]);
        assert(syms.push(x).drop_first() =~= syms.drop_first().push(x));
        assert(rewrite(t, syms.push(x)) == produce(t, syms[0]) + (rewrite(t, syms.drop_first())
            + produce(t, x)));
        assert(rewrite(t, syms.push(x)) =~= rewrite(t, syms) + produce(t, x));
    }
}

proof fn lemma_rewrite_n_snoc(t: Map<Symbol, Seq<Symbol>>, syms: Seq<Symbol>, n: nat)
    ensures
        rewrite_n(t, syms, n + 1) == rewrite(t, rewrite_n(t, syms, n)),
    decreases n,
{
    reveal_with_fuel(rewrite_n, 3);
    if n > 0 {
        lemma_rewrite_n_snoc(t, rewrite(t, syms), (n - 1) as nat);
    }
}

/// Law: zero rounds of rewriting leave any sequence identical to itself,
/// for every production table and initiator.
pub proof fn lemma_forward_zero(t: Map<Symbol, Seq<Symbol>>, syms: Seq<Symbol>)
    ensures
        rewrite_n(t, syms, 0) == syms,
{
}

/// Law: rewriting `a` rounds and then `b` more is the same as rewriting
/// `a + b` rounds in one go, for all non-negative `a` and `b`.
pub proof fn lemma_forward_additive(t: Map<Symbol, Seq<Symbol>>, syms: Seq<Symbol>, a: nat, b: nat)
    ensures
        rewrite_n(t, rewrite_n(t, syms, a), b) == rewrite_n(t, syms, a + b),
    decreases a,
{
    if a > 0 {
        lemma_forward_additive(t, rewrite(t, syms), (a - 1) as nat, b);
    }
}

/// One rewriting round changes nothing when every symbol of the sequence
/// has itself as its effective production.
proof fn lemma_identity_rewrite(t: Map<Symbol, Seq<Symbol>>, syms: Seq<Symbol>)
    requires
        forall|i: int| 0 <= i < syms.len() ==> produce(t, #[trigger] syms[i]) == seq![syms[i]],
    ensures
        rewrite(t, syms) == syms,
    decreases syms.len(),
{
    if syms.len() == 0 {
        assert(rewrite(t, syms) =~= syms);
    } else {
        lemma_identity_rewrite(t, syms.drop_first());
        assert(rewrite(t, syms) =~= syms);
    }
}

/// Any number of rewriting rounds changes nothing when every symbol of the
/// sequence has itself as its effective production.
pub proof fn lemma_identity_rewrite_n(t: Map<Symbol, Seq<Symbol>>, syms: Seq<Symbol>, n: nat)
    requires
        forall|i: int| 0 <= i < syms.len() ==> produce(t, #[trigger] syms[i]) == seq![syms[i]],
    ensures
        rewrite_n(t, syms, n) == syms,
    decreases n,
{
    if n > 0 {
        lemma_identity_rewrite(t, syms);
        lemma_identity_rewrite_n(t, syms, (n - 1) as nat);
    }
}

/// Law: an engine built from an empty production table never changes its
/// sequence, however many rounds are performed. An empty table is
/// materialized as identity productions over the initiator, and rewriting with
/// those leaves the initiator intact for every `n`.
pub proof fn lemma_empty_table_frozen(initiator: Seq<Symbol>, n: nat)
    ensures
        rewrite_n(identity_table(initiator), initiator, n) == initiator,
{
    let t = identity_table(initiator);
    assert(forall|i: int|
        0 <= i < initiator.len() ==> produce(t, #[trigger] initiator[i]) == seq![initiator[i]]);
    lemma_identity_rewrite_n(t, initiator, n);
}

/// The rewriting engine: a production table, the current symbol sequence,
/// and a generation counter.
pub struct LSystem {
    rules: ProductionTable,
    elements: Vec<Symbol>,
    step: u32,
}

impl LSystem {
    /// The production table the engine rewrites with.
    pub closed spec fn productions(&self) -> Map<Symbol, Seq<Symbol>> {
        self.rules@
    }

    /// The current symbol sequence.
    pub closed spec fn symbols(&self) -> Seq<Symbol> {
        self.elements@
    }

    /// How many rewriting rounds have been performed since construction.
    pub closed spec fn generation(&self) -> u32 {
        self.step
    }

    /// Build an engine from a production table and an initiator. The live
    /// sequence starts as the initiator and the generation counter at zero.
    ///
    /// A supplied empty table is seeded with an identity production for
    /// every initiator symbol, keeping the "no productions means the sequence
    /// never changes" guarantee explicit.
    #[verifier::loop_isolation(false)]
    pub fn new(rules: ProductionTable, initiator: Vec<Symbol>) -> (r: Self)
        ensures
            r.symbols() == initiator@,
            r.generation() == 0,
            r.productions() == effective_table(rules@, initiator@),
    {
        let rules = if rules.is_empty() {
            let mut seeded = ProductionTable::new();
            let n = initiator.len();
            for i in 0..n
                invariant
                    n == initiator@.len(),
                    seeded@ == identity_table(initiator@.take(i as int)),
            {
                let sym = initiator[i];
                let mut rhs: Vec<Symbol> = Vec::new();
                rhs.push(sym);
                proof {
                    assert(rhs@ =~= seq![sym]);
                }
                seeded.insert(sym, rhs);
                proof {
                    let pre = initiator@.take(i as int);
                    let post = initiator@.take(i + 1);
                    assert(post =~= pre.push(sym));
                    assert forall|s: Symbol| #[trigger] post.contains(s) <==> pre.contains(s) || s
                        == sym by {
                        if pre.contains(s) {
                            let w = choose|w: int| 0 <= w < pre.len() && pre[w] == s;
                            assert(post[w] == s);
                        }
                        if s == sym {
                            assert(post[pre.len() as int] == s);
                        }
                        if post.contains(s) {
                            let w = choose|w: int| 0 <= w < post.len() && post[w] == s;
                            if w < pre.len() {
                                assert(pre[w] == s);
                            }
                        }
                    }
                    assert(seeded@ =~= identity_table(post));
                }
            }
            proof {
                assert(initiator@.take(n as int) =~= initiator@);
                assert(seeded@ =~= identity_table(initiator@));
            }
            seeded
        } else {
            rules
        };
        proof {
            assert(identity_table(Seq::<Symbol>::empty()) =~= Map::<Symbol, Seq<Symbol>>::empty());
        }
        LSystem { rules, elements: initiator, step: 0 }
    }

    /// A read-only view of the current symbol sequence.
    pub fn sequence(&self) -> (r: &Vec<Symbol>)
        ensures
            r@ == self.symbols(),
    {
        &self.elements
    }

    /// The generation counter.
    pub fn step_count(&self) -> (r: u32)
        ensures
            r == self.generation(),
    {
        self.step
    }

    /// Perform `generations` rounds of parallel rewriting. Each round scans
    /// the current sequence once, left to right, substitutes every symbol's
    /// production (or the symbol itself), and atomically replaces the
    /// sequence with the result; then the generation counter increments.
    #[verifier::loop_isolation(false)]
    pub fn forward(&mut self, generations: u32)
        requires
            old(self).generation() + generations <= u32::MAX,
        ensures
            final (self).productions() == old(self).productions(),
            final (self).symbols() == rewrite_n(
                old(self).productions(),
                old(self).symbols(),
                generations as nat,
            ),
            final (self).generation() == old(self).generation() + generations,
    {
        for g in 0..generations
            invariant
                old(self).generation() + generations <= u32::MAX,
                self.rules@ == old(self).productions(),
                self.elements@ == rewrite_n(
                    old(self).productions(),
                    old(self).symbols(),
                    g as nat,
                ),
                self.step == old(self).generation() + g,
        {
            let ghost t = self.rules@;
            let ghost cur = self.elements@;
            let mut new_elements: Vec<Symbol> = Vec::new();
            let n = self.elements.len();
            for i in 0..n
                invariant
                    n == self.elements@.len(),
                    self.rules@ == t,
                    self.elements@ == cur,
                    new_elements@ == rewrite(t, cur.take(i as int)),
            {
                let sym = self.elements[i];
                match self.rules.get(sym) {
                    Some(rhs) => {
                        let m = rhs.len();
                        for k in 0..m
                            invariant
                                m == rhs@.len(),
                                new_elements@ == rewrite(t, cur.take(i as int)) + rhs@.take(
                                    k as int,
                                ),
                        {
                            new_elements.push(rhs[k]);
                            proof {
                                assert(rhs@.take(k + 1) =~= rhs@.take(k as int).push(
                                    rhs@[k as int],
                                ));
                            }
                        }
                        proof {
                            assert(rhs@.take(m as int) =~= rhs@);
                        }
                    },
                    None => {
                        new_elements.push(sym);
                    },
                }
                proof {
                    lemma_rewrite_snoc(t, cur.take(i as int), cur[i as int]);
                    assert(cur.take(i + 1) =~= cur.take(i as int).push(cur[i as int]));
                    assert(new_elements@ =~= rewrite(t, cur.take(i + 1)));
                }
            }
            proof {
                assert(cur.take(n as int) =~= cur);
                lemma_rewrite_n_snoc(
                    old(self).productions(),
                    old(self).symbols(),
                    g as nat,
                );
            }
            self.elements = new_elements;
            self.step = self.step + 1;
        }
    }
}

} // verus!
