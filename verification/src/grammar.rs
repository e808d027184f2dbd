//! Grammars: symbols, alternatives, rules, and the interpreter's table of rules.

use vstd::prelude::*;
use vstd::std_specs::cmp::PartialEqSpecImpl;

verus! {

/// A literal piece of text that an input must contain.
#[derive(Debug, PartialEq)]
pub struct Terminal(pub String);

/// A reference to a rule by its name.
#[derive(Debug, PartialEq)]
pub struct NonTerm(pub String);

/// One symbol of an alternative.
#[derive(Debug, PartialEq)]
pub enum TerminalOrNonTerminal {
    Term(Terminal),
    Non(NonTerm),
}

/// One alternative of a rule: the symbols to be read in order.
#[derive(Debug, PartialEq)]
pub struct Production {
    pub terms: Vec<TerminalOrNonTerminal>,
}

/// A rule: a name and its alternatives, tried in order.
#[derive(Debug, PartialEq)]
pub struct NonTerminal {
    pub name: String,
    pub productions: Vec<Production>,
}

/// A symbol, as a mathematical value.
pub enum Symbol {
    Terminal(Seq<char>),
    Nonterminal(Seq<char>),
}

/// A rule, as a mathematical value.
pub struct Rule {
    pub name: Seq<char>,
    pub alternatives: Seq<Seq<Symbol>>,
}

/// A grammar maps each rule name to that rule's alternatives.
pub type Grammar = Map<Seq<char>, Seq<Seq<Symbol>>>;

impl View for TerminalOrNonTerminal {
    type V = Symbol;

    open spec fn view(&self) -> Symbol {
        match self {
            TerminalOrNonTerminal::Term(Terminal(s)) => Symbol::Terminal(s@),
            TerminalOrNonTerminal::Non(NonTerm(s)) => Symbol::Nonterminal(s@),
        }
    }
}

impl View for Production {
    type V = Seq<Symbol>;

    open spec fn view(&self) -> Seq<Symbol> {
        self.terms@.map_values(|t: TerminalOrNonTerminal| t@)
    }
}

impl View for NonTerminal {
    type V = Rule;

    open spec fn view(&self) -> Rule {
        Rule { name: self.name@, alternatives: self.productions@.map_values(|p: Production| p@) }
    }
}

/// A grammar, read from text by `add_interpreter` and used by `parse`.
/// Two interpreters are equal when they hold the same grammar.
///
/// The rules are kept in a vector with distinct names rather than in a
/// `HashMap<String, _>`: vstd's specifications of `HashMap` hold only for key
/// types that obey its key model, which vstd does not establish for `String`,
/// so not even the length of a map after one `insert` could be proved.
#[derive(Debug)]
pub struct Interpreter {
    nonterminals: Vec<NonTerminal>,
}

/// The position of the rule named `k` in `rules`, where there is one.
pub open spec fn rule_index(rules: Seq<NonTerminal>, k: Seq<char>) -> int {
    choose|i: int| 0 <= i < rules.len() && rules[i].name@ == k
}

/// Whether some rule in `rules` is named `k`.
pub open spec fn has_rule(rules: Seq<NonTerminal>, k: Seq<char>) -> bool {
    exists|i: int| 0 <= i < rules.len() && rules[i].name@ == k
}

/// No two rules in `rules` have the same name.
pub open spec fn names_distinct(rules: Seq<NonTerminal>) -> bool {
    forall|i: int, j: int|
        0 <= i < rules.len() && 0 <= j < rules.len() && i != j ==> rules[i].name@ != rules[j].name@
}

/// The grammar that a list of rules with distinct names stands for.
pub open spec fn grammar_of(rules: Seq<NonTerminal>) -> Grammar {
    Map::new(
        |k: Seq<char>| has_rule(rules, k),
        |k: Seq<char>| rules[rule_index(rules, k)]@.alternatives,
    )
}

impl View for Interpreter {
    type V = Grammar;

    closed spec fn view(&self) -> Grammar {
        grammar_of(self.nonterminals@)
    }
}

proof fn lemma_grammar_of_at(rules: Seq<NonTerminal>, i: int)
    requires
        names_distinct(rules),
        0 <= i < rules.len(),
    ensures
        grammar_of(rules).contains_key(rules[i].name@),
        grammar_of(rules)[rules[i].name@] == rules[i]@.alternatives,
{
    let k = rules[i].name@;
    assert(has_rule(rules, k));
    let j = rule_index(rules, k);
    assert(j == i);
}

/// The position of the rule named `name` in `rules`, if any.
fn position(rules: &Vec<NonTerminal>, name: &String) -> (r: Option<usize>)
    ensures
        match r {
            Some(i) => i < rules@.len() && rules@[i as int].name@ == name@,
            None => !has_rule(rules@, name@),
        },
{
    let mut i: usize = 0;
    while i < rules.len()
        invariant
            i <= rules@.len(),
            forall|j: int| 0 <= j < i ==> rules@[j].name@ != name@,
        decreases rules@.len() - i,
    {
        if rules[i].name == *name {
            return Some(i);
        }
        i = i + 1;
    }
    None
}

impl Interpreter {
    #[verifier::type_invariant]
    closed spec fn inv(self) -> bool {
        names_distinct(self.nonterminals@)
    }

    /// An interpreter with an empty grammar.
    pub fn new() -> (r: Interpreter)
        ensures
            r@ == Map::<Seq<char>, Seq<Seq<Symbol>>>::empty(),
    {
        let r = Interpreter { nonterminals: Vec::new() };
        assert(r@ =~= Map::<Seq<char>, Seq<Seq<Symbol>>>::empty());
        r
    }

    /// The rules of the grammar, each name once, in no particular order.
    pub fn rules(&self) -> (r: &Vec<NonTerminal>)
        ensures
            names_distinct(r@),
            grammar_of(r@) == self@,
    {
        proof {
            use_type_invariant(self);
        }
        &self.nonterminals
    }

    /// The rule named `name`, if the grammar has one.
    pub(crate) fn lookup(&self, name: &String) -> (r: Option<&NonTerminal>)
        ensures
            match r {
                Some(nt) => self@.contains_key(name@) && nt@.name == name@ && nt@.alternatives
                    == self@[name@],
                None => !self@.contains_key(name@),
            },
    {
        proof {
            use_type_invariant(self);
        }
        match position(&self.nonterminals, name) {
            Some(i) => {
                proof {
                    lemma_grammar_of_at(self.nonterminals@, i as int);
                }
                Some(&self.nonterminals[i])
            },
            None => None,
        }
    }

    /// Puts `nt` in the grammar, in place of any rule of the same name.
    pub(crate) fn insert(&mut self, nt: NonTerminal)
        ensures
            final(self)@ == old(self)@.insert(nt@.name, nt@.alternatives),
    {
        proof {
            use_type_invariant(&*self);
        }
        let ghost old_rules = self.nonterminals@;
        let mut rules: Vec<NonTerminal> = Vec::new();
        std::mem::swap(&mut rules, &mut self.nonterminals);
        let pos = position(&rules, &nt.name);
        let ghost name = nt@.name;
        let ghost alts = nt@.alternatives;
        let ghost at: int = match pos {
            Some(i) => i as int,
            None => old_rules.len() as int,
        };
        match pos {
            Some(i) => {
                rules.set(i, nt);
            },
            None => {
                rules.push(nt);
            },
        }
        proof {
            let new_rules = rules@;
            assert(new_rules.len() == old_rules.len() || new_rules.len() == old_rules.len() + 1);
            assert(new_rules[at].name@ == name);
            assert forall|j: int| 0 <= j < new_rules.len() && j != at implies #[trigger] new_rules[j] == old_rules[j] by {}
            assert(names_distinct(new_rules)) by {
                assert forall|a: int, b: int|
                    0 <= a < new_rules.len() && 0 <= b < new_rules.len() && a != b implies
                    new_rules[a].name@ != new_rules[b].name@ by {
                    if a == at {
                        assert(new_rules[b] == old_rules[b]);
                    } else if b == at {
                        assert(new_rules[a] == old_rules[a]);
                    } else {
                        assert(new_rules[a] == old_rules[a]);
                        assert(new_rules[b] == old_rules[b]);
                    }
                }
            }
            assert forall|k: Seq<char>| #[trigger] has_rule(new_rules, k) == (has_rule(old_rules, k) || k == name) by {
                if has_rule(old_rules, k) {
                    let j = choose|j: int| 0 <= j < old_rules.len() && old_rules[j].name@ == k;
                    assert(0 <= j < new_rules.len() && new_rules[j].name@ == k);
                }
                if has_rule(new_rules, k) && k != name {
                    let j = choose|j: int| 0 <= j < new_rules.len() && new_rules[j].name@ == k;
                    assert(0 <= j < old_rules.len() && old_rules[j].name@ == k);
                }
                if k == name {
                    assert(new_rules[at].name@ == k);
                }
            }
            assert forall|k: Seq<char>| has_rule(new_rules, k) implies
                #[trigger] grammar_of(new_rules)[k] == grammar_of(old_rules).insert(name, alts)[k] by {
                let j = choose|j: int| 0 <= j < new_rules.len() && new_rules[j].name@ == k;
                lemma_grammar_of_at(new_rules, j);
                if k != name {
                    assert(j != at);
                    lemma_grammar_of_at(old_rules, j);
                } else {
                    assert(j == at);
                }
            }
            assert(grammar_of(new_rules) =~= grammar_of(old_rules).insert(name, alts));
        }
        self.nonterminals = rules;
    }
}

fn same_symbol(a: &TerminalOrNonTerminal, b: &TerminalOrNonTerminal) -> (r: bool)
    ensures
        r == (a@ == b@),
{
    match (a, b) {
        (TerminalOrNonTerminal::Term(Terminal(x)), TerminalOrNonTerminal::Term(Terminal(y))) => *x == *y,
        (TerminalOrNonTerminal::Non(NonTerm(x)), TerminalOrNonTerminal::Non(NonTerm(y))) => *x == *y,
        _ => false,
    }
}

fn same_production(a: &Production, b: &Production) -> (r: bool)
    ensures
        r == (a@ == b@),
{
    if a.terms.len() != b.terms.len() {
        assert(a@.len() != b@.len());
        return false;
    }
    let mut i: usize = 0;
    while i < a.terms.len()
        invariant
            a.terms@.len() == b.terms@.len(),
            i <= a.terms@.len(),
            forall|j: int| 0 <= j < i ==> a.terms@[j]@ == b.terms@[j]@,
        decreases a.terms@.len() - i,
    {
        if !same_symbol(&a.terms[i], &b.terms[i]) {
            assert(a@[i as int] != b@[i as int]);
            return false;
        }
        i = i + 1;
    }
    assert(a@ =~= b@);
    true
}

fn same_alternatives(a: &NonTerminal, b: &NonTerminal) -> (r: bool)
    ensures
        r == (a@.alternatives == b@.alternatives),
{
    if a.productions.len() != b.productions.len() {
        assert(a@.alternatives.len() != b@.alternatives.len());
        return false;
    }
    let mut i: usize = 0;
    while i < a.productions.len()
        invariant
            a.productions@.len() == b.productions@.len(),
            i <= a.productions@.len(),
            forall|j: int| 0 <= j < i ==> a.productions@[j]@ == b.productions@[j]@,
        decreases a.productions@.len() - i,
    {
        if !same_production(&a.productions[i], &b.productions[i]) {
            assert(a@.alternatives[i as int] != b@.alternatives[i as int]);
            return false;
        }
        i = i + 1;
    }
    assert(a@.alternatives =~= b@.alternatives);
    true
}

impl Interpreter {
    /// Whether every rule of this grammar is in `other` with the same alternatives.
    fn included_in(&self, other: &Interpreter) -> (r: bool)
        ensures
            r == (forall|k: Seq<char>|
                #[trigger] self@.contains_key(k) ==> other@.contains_key(k) && other@[k] == self@[k]),
    {
        proof {
            use_type_invariant(self);
        }
        let mut i: usize = 0;
        while i < self.nonterminals.len()
            invariant
                i <= self.nonterminals@.len(),
                names_distinct(self.nonterminals@),
                forall|j: int|
                    0 <= j < i ==> other@.contains_key(#[trigger] self.nonterminals@[j].name@)
                        && other@[self.nonterminals@[j].name@] == self.nonterminals@[j]@.alternatives,
            decreases self.nonterminals@.len() - i,
        {
            let nt = &self.nonterminals[i];
            proof {
                lemma_grammar_of_at(self.nonterminals@, i as int);
            }
            match other.lookup(&nt.name) {
                Some(o) => {
                    if !same_alternatives(nt, o) {
                        assert(self@.contains_key(nt.name@));
                        return false;
                    }
                },
                None => {
                    assert(self@.contains_key(nt.name@));
                    return false;
                },
            }
            i = i + 1;
        }
        proof {
            assert forall|k: Seq<char>| #[trigger] self@.contains_key(k) implies other@.contains_key(k)
                && other@[k] == self@[k] by {
                let j = choose|j: int| 0 <= j < self.nonterminals@.len() && self.nonterminals@[j].name@ == k;
                lemma_grammar_of_at(self.nonterminals@, j);
            }
        }
        true
    }
}

impl PartialEq for Interpreter {
    fn eq(&self, other: &Interpreter) -> (r: bool) {
        let r = self.included_in(other) && other.included_in(self);
        proof {
            if r {
                assert(self@ =~= other@);
            }
        }
        r
    }
}

impl PartialEqSpecImpl for Interpreter {
    open spec fn obeys_eq_spec() -> bool {
        true
    }

    open spec fn eq_spec(&self, other: &Interpreter) -> bool {
        self@ == other@
    }
}

} // verus!
