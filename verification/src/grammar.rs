//! Context-free grammar rules for the parser side of the toolchain.

use vstd::prelude::*;

verus! {

/// A single grammar symbol.
#[derive(Clone, PartialEq, Eq, PartialOrd, Ord, Debug)]
pub enum Symbol<Terminal, Nonterminal> {
    Nonterminal(Nonterminal),
    Terminal(Terminal),
}

/// Associativity of a terminal or a group of terminals.
#[derive(Clone, Copy, PartialEq, Eq, PartialOrd, Ord, Debug)]
pub enum Associativity {
    NonAssociative,
    Left,
    Right,
}

/// A single context-free grammar rule.
#[derive(Clone, PartialEq, Eq, PartialOrd, Ord, Debug)]
pub struct Rule<Terminal, Nonterminal> {
    /// The left-hand nonterminal of the rule.
    left_hand: Nonterminal,
    /// The right-hand side of the rule.
    right_hand: Vec<Symbol<Terminal, Nonterminal>>,
    /// The precedence of the rule.
    ///
    /// Usually, this will be set to the last terminal of the right-hand side.
    precedence: Option<Terminal>,
}

/// The last terminal of a right-hand side, if any: the symbol that decides
/// a rule's default precedence.
pub open spec fn spec_find_precedence<T, N>(right_hand: Seq<Symbol<T, N>>) -> Option<T>
    decreases right_hand.len(),
{
    if right_hand.len() == 0 {
        None
    } else {
        match right_hand.last() {
            Symbol::Terminal(t) => Some(t),
            Symbol::Nonterminal(_) => spec_find_precedence(right_hand.drop_last()),
        }
    }
}

impl<Terminal, Nonterminal> Rule<Terminal, Nonterminal> {
    /// The left-hand nonterminal of the rule.
    pub closed spec fn spec_left_hand(&self) -> Nonterminal {
        self.left_hand
    }

    /// The right-hand side of the rule.
    pub closed spec fn spec_right_hand(&self) -> Seq<Symbol<Terminal, Nonterminal>> {
        self.right_hand@
    }

    /// The precedence of the rule.
    pub closed spec fn spec_precedence(&self) -> Option<Terminal> {
        self.precedence
    }
}

impl<Terminal: Copy, Nonterminal> Rule<Terminal, Nonterminal> {
    /// Create a rule whose precedence is the last terminal of its
    /// right-hand side.
    pub fn new(left_hand: Nonterminal, right_hand: Vec<Symbol<Terminal, Nonterminal>>) -> (r:
        Rule<Terminal, Nonterminal>)
        ensures
            r.spec_left_hand() == left_hand,
            r.spec_right_hand() == right_hand@,
            r.spec_precedence() == spec_find_precedence(right_hand@),
    {
        let precedence = Rule::find_precedence(&right_hand);
        Rule { left_hand, right_hand, precedence }
    }

    /// Create a rule with an explicit precedence terminal.
    pub fn with_precedence(
        left_hand: Nonterminal,
        right_hand: Vec<Symbol<Terminal, Nonterminal>>,
        precedence: Terminal,
    ) -> (r: Rule<Terminal, Nonterminal>)
        ensures
            r.spec_left_hand() == left_hand,
            r.spec_right_hand() == right_hand@,
            r.spec_precedence() == Some(precedence),
    {
        Rule { left_hand, right_hand, precedence: Some(precedence) }
    }

    /// Find the last terminal of the right-hand side.
    fn find_precedence(right_hand: &Vec<Symbol<Terminal, Nonterminal>>) -> (r: Option<Terminal>)
        ensures
            r == spec_find_precedence(right_hand@),
    {
        let mut i: usize = right_hand.len();
        proof {
            assert(right_hand@.take(right_hand@.len() as int) =~= right_hand@);
        }
        while i > 0
            invariant
                0 <= i <= right_hand@.len(),
                spec_find_precedence(right_hand@) == spec_find_precedence(
                    right_hand@.take(i as int),
                ),
            decreases i,
        {
            i = i - 1;
            match &right_hand[i] {
                Symbol::Terminal(t) => {
                    proof {
                        assert(right_hand@.take(i + 1).last() == right_hand@[i as int]);
                    }
                    return Some(*t);
                },
                Symbol::Nonterminal(_) => {
                    proof {
                        assert(right_hand@.take(i + 1).last() == right_hand@[i as int]);
                        assert(right_hand@.take(i + 1).drop_last() =~= right_hand@.take(i as int));
                    }
                },
            }
        }
        proof {
            assert(right_hand@.take(0) =~= Seq::<Symbol<Terminal, Nonterminal>>::empty());
        }
        None
    }
}

/// Context-free grammar.
#[derive(Clone, PartialEq, Eq, Debug)]
pub struct Grammar<Terminal, Nonterminal> {
    /// The starting nonterminal of the grammar.
    starting_nonterminal: Nonterminal,
    /// The rules of this grammar.
    rules: Vec<Rule<Terminal, Nonterminal>>,
    /// A list of symbol precedence, starting with the highest precedence.
    symbol_precedence: Vec<(Associativity, Vec<Terminal>)>,
}

impl<Terminal, Nonterminal> Grammar<Terminal, Nonterminal> {
    /// The starting nonterminal of the grammar.
    pub closed spec fn spec_start(&self) -> Nonterminal {
        self.starting_nonterminal
    }

    /// The rules of this grammar.
    pub closed spec fn spec_rules(&self) -> Seq<Rule<Terminal, Nonterminal>> {
        self.rules@
    }

    /// The symbol precedence list of this grammar.
    pub closed spec fn spec_symbol_precedence(&self) -> Seq<(Associativity, Seq<Terminal>)> {
        Seq::new(
            self.symbol_precedence@.len(),
            |i: int| (self.symbol_precedence@[i].0, self.symbol_precedence@[i].1@),
        )
    }

    /// Assemble a grammar from its parts.
    pub fn new(
        starting_nonterminal: Nonterminal,
        rules: Vec<Rule<Terminal, Nonterminal>>,
        symbol_precedence: Vec<(Associativity, Vec<Terminal>)>,
    ) -> (r: Grammar<Terminal, Nonterminal>)
        ensures
            r.spec_start() == starting_nonterminal,
            r.spec_rules() == rules@,
            r.spec_symbol_precedence().len() == symbol_precedence@.len(),
            forall|i: int|
                0 <= i < symbol_precedence@.len() ==> #[trigger] r.spec_symbol_precedence()[i]
                    == (symbol_precedence@[i].0, symbol_precedence@[i].1@),
    {
        Grammar { starting_nonterminal, rules, symbol_precedence }
    }
}

} // verus!
