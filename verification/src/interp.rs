//! Parsing inputs against a grammar.

use vstd::prelude::*;
use crate::grammar::{Grammar, Interpreter, NonTerminal, Production, Symbol, Terminal, NonTerm, TerminalOrNonTerminal};
use crate::reader::{common_prefix_len, lemma_prefix_ok_assoc, prefix_ok, result_view, Reading};
use crate::stream::{CharStream, push_char};
use crate::text::{decimal, decimal_string};

verus! {

broadcast use vstd::string::group_string_axioms;

/// A node of a parse tree, as a mathematical value.
pub enum Node {
    /// A terminal that was read.
    Leaf(Seq<char>),
    /// A rule that was read.
    Branch(ParseTree),
}

/// A parse tree: the rule, which of its alternatives was taken, and what was
/// read for its symbols.
pub struct ParseTree {
    pub name: Seq<char>,
    pub index: nat,
    pub children: Seq<Node>,
}

/// A node of a parse tree.
#[derive(Debug)]
pub enum LanguageProductionOrTerm {
    Term(Terminal),
    Prod(LanguageProduction),
}

/// A parse tree: the rule that was read, the position of the alternative that
/// was taken, and what was read for each of its symbols.
#[derive(Debug)]
pub struct LanguageProduction {
    name: String,
    index: usize,
    productions: Vec<LanguageProductionOrTerm>,
}

/// The mathematical value of a node.
pub closed spec fn node_of(x: LanguageProductionOrTerm) -> Node
    decreases x,
{
    match x {
        LanguageProductionOrTerm::Term(Terminal(s)) => Node::Leaf(s@),
        LanguageProductionOrTerm::Prod(lp) => Node::Branch(tree_of(lp)),
    }
}

/// The mathematical value of a parse tree.
pub closed spec fn tree_of(lp: LanguageProduction) -> ParseTree
    decreases lp,
{
    ParseTree {
        name: lp.name@,
        index: lp.index as nat,
        children: Seq::new(
            lp.productions@.len(),
            |i: int|
                if 0 <= i < lp.productions@.len() {
                    proof {
                        assert(decreases_to!(lp => lp.productions));
                        assert(decreases_to!(lp.productions => lp.productions@));
                        assert(decreases_to!(lp.productions@ => lp.productions@[i]));
                    }
                    node_of(lp.productions@[i])
                } else {
                    Node::Leaf(Seq::empty())
                },
        ),
    }
}

impl View for LanguageProduction {
    type V = ParseTree;

    open spec fn view(&self) -> ParseTree {
        tree_of(*self)
    }
}

/// The mathematical values of a sequence of nodes.
pub open spec fn nodes_of(v: Seq<LanguageProductionOrTerm>) -> Seq<Node> {
    v.map_values(|x: LanguageProductionOrTerm| node_of(x))
}

proof fn lemma_tree_of(lp: LanguageProduction)
    ensures
        tree_of(lp) == (ParseTree { name: lp.name@, index: lp.index as nat, children: nodes_of(lp.productions@) }),
{
    assert(tree_of(lp).children =~= nodes_of(lp.productions@));
}

/// The first character of `s`, if any.
pub open spec fn first(s: Seq<char>) -> Option<char> {
    if s.len() == 0 {
        None
    } else {
        Some(s[0])
    }
}

/// Whether the alternative `alt` is tried when the next input character is `c`:
/// it is not empty, and its first symbol is an empty terminal, a terminal that
/// starts with `c`, a rule of which some alternative is tried, or a name that
/// is not in the grammar. `Some` when this is decided within `depth` nested
/// rule lookups, `None` otherwise.
pub open spec fn alt_can_start(g: Grammar, alt: Seq<Symbol>, c: Option<char>, depth: nat) -> Option<bool>
    decreases depth, 0nat, 0int,
{
    if alt.len() == 0 {
        Some(false)
    } else {
        match alt[0] {
            Symbol::Terminal(t) => Some(
                if t.len() == 0 {
                    true
                } else {
                    match c {
                        Some(c) => t[0] == c,
                        None => false,
                    }
                },
            ),
            Symbol::Nonterminal(n) => if g.contains_key(n) {
                if depth == 0 {
                    None
                } else {
                    rule_can_start(g, g[n], 0, c, (depth - 1) as nat)
                }
            } else {
                Some(true)
            },
        }
    }
}

/// Whether some alternative of `alts`, from position `i` on, is tried when the
/// next input character is `c`.
pub open spec fn rule_can_start(g: Grammar, alts: Seq<Seq<Symbol>>, i: int, c: Option<char>, depth: nat) -> Option<bool>
    decreases depth, 1nat, alts.len() - i,
{
    if i < 0 || i >= alts.len() {
        Some(false)
    } else {
        match alt_can_start(g, alts[i], c, depth) {
            None => None,
            Some(true) => Some(true),
            Some(false) => rule_can_start(g, alts, i + 1, c, depth),
        }
    }
}

/// The message when the terminal `t` is not found; `rest` is the input from
/// the first character that did not match.
pub open spec fn terminal_error(t: Seq<char>, rest: Seq<char>) -> Seq<char> {
    "Error trying to parse production. Trying to parse '"@ + t + "'."@ + if rest.len() > 0 {
        " Recieved charater '"@ + seq![rest[0]] + "'"@
    } else {
        " Reached EOF."@
    }
}

/// Reading the terminal `t` at the front of `s`. The characters that match are
/// consumed, up to the first one that does not.
pub open spec fn read_terminal(t: Seq<char>, s: Seq<char>) -> Reading<()> {
    let n = common_prefix_len(s, t);
    if n == t.len() {
        (Ok(()), s.skip(n as int))
    } else {
        (Err(terminal_error(t, s.skip(n as int))), s.skip(n as int))
    }
}

/// Puts `x` in front of a successful reading.
pub open spec fn prefix_node(x: Node, o: Option<Reading<Seq<Node>>>) -> Option<Reading<Seq<Node>>> {
    match o {
        None => None,
        Some(r) => Some(prefix_ok(seq![x], r)),
    }
}

/// Puts `p` in front of a successful reading.
pub open spec fn prefix_nodes(p: Seq<Node>, o: Option<Reading<Seq<Node>>>) -> Option<Reading<Seq<Node>>> {
    match o {
        None => None,
        Some(r) => Some(prefix_ok(p, r)),
    }
}

/// Reading the symbols of `syms` from position `i` on at the front of `s`: a
/// terminal must match, a rule of the grammar is read, a name that is not in
/// the grammar is passed over. `None` when more than `depth` nested rules
/// would be needed.
pub open spec fn read_symbols(g: Grammar, syms: Seq<Symbol>, i: int, s: Seq<char>, depth: nat) -> Option<
    Reading<Seq<Node>>,
>
    decreases depth, 0nat, syms.len() - i,
{
    if i < 0 || i >= syms.len() {
        Some((Ok(Seq::empty()), s))
    } else {
        match syms[i] {
            Symbol::Terminal(t) => {
                let (m, r) = read_terminal(t, s);
                match m {
                    Err(e) => Some((Err(e), r)),
                    Ok(_) => prefix_node(Node::Leaf(t), read_symbols(g, syms, i + 1, r, depth)),
                }
            },
            Symbol::Nonterminal(n) => if !g.contains_key(n) {
                read_symbols(g, syms, i + 1, s, depth)
            } else if depth == 0 {
                None
            } else {
                match read_rule(g, n, 0, s, (depth - 1) as nat) {
                    None => None,
                    Some((Err(e), r)) => Some((Err(e), r)),
                    Some((Ok(tree), r)) => prefix_node(
                        Node::Branch(tree),
                        read_symbols(g, syms, i + 1, r, depth),
                    ),
                }
            },
        }
    }
}

/// The message when alternative `i` of rule `n` fails with `e`.
pub open spec fn alternative_error(e: Seq<char>, n: Seq<char>, i: nat) -> Seq<char> {
    e + " In nonterminal "@ + n + " parsing the "@ + decimal(i) + " production."@
}

/// The message when no alternative of rule `n` is tried.
pub open spec fn no_alternative_error(n: Seq<char>) -> Seq<char> {
    "Could not parse the production "@ + n
}

/// Reading rule `n` at the front of `s`: the first alternative from position
/// `i` on that is tried (see `alt_can_start`, on the first character of `s`)
/// is read, and its outcome is the rule's.
pub open spec fn read_rule(g: Grammar, n: Seq<char>, i: int, s: Seq<char>, depth: nat) -> Option<
    Reading<ParseTree>,
>
    decreases depth, 1nat, g[n].len() - i,
{
    if i < 0 || i >= g[n].len() {
        Some((Err(no_alternative_error(n)), s))
    } else {
        match alt_can_start(g, g[n][i], first(s), depth) {
            None => None,
            Some(false) => read_rule(g, n, i + 1, s, depth),
            Some(true) => match read_symbols(g, g[n][i], 0, s, depth) {
                None => None,
                Some((Ok(children), r)) => Some(
                    (Ok(ParseTree { name: n, index: i as nat, children }), r),
                ),
                Some((Err(e), r)) => Some((Err(alternative_error(e, n, i as nat)), r)),
            },
        }
    }
}

/// Where reading stalls: a rule none of whose alternatives is tried, with the
/// next input character at that point. Reading rule `n` from alternative `i`
/// on at the front of `s` stalls there when no alternative is tried, or where
/// reading the alternative that is tried stalls. `None` when it does not stall
/// (it succeeds, or fails on a terminal), or when the depth runs out.
pub open spec fn rule_stall(g: Grammar, n: Seq<char>, i: int, s: Seq<char>, depth: nat) -> Option<
    (Seq<char>, Option<char>),
>
    decreases depth, 1nat, g[n].len() - i,
{
    if i < 0 || i >= g[n].len() {
        Some((n, first(s)))
    } else {
        match alt_can_start(g, g[n][i], first(s), depth) {
            None => None,
            Some(false) => rule_stall(g, n, i + 1, s, depth),
            Some(true) => symbols_stall(g, g[n][i], 0, s, depth),
        }
    }
}

/// Where reading the symbols of `syms` from position `i` on stalls (see `rule_stall`).
pub open spec fn symbols_stall(g: Grammar, syms: Seq<Symbol>, i: int, s: Seq<char>, depth: nat) -> Option<
    (Seq<char>, Option<char>),
>
    decreases depth, 0nat, syms.len() - i,
{
    if i < 0 || i >= syms.len() {
        None
    } else {
        match syms[i] {
            Symbol::Terminal(t) => {
                let (m, r) = read_terminal(t, s);
                match m {
                    Err(_) => None,
                    Ok(_) => symbols_stall(g, syms, i + 1, r, depth),
                }
            },
            Symbol::Nonterminal(n) => if !g.contains_key(n) {
                symbols_stall(g, syms, i + 1, s, depth)
            } else if depth == 0 {
                None
            } else {
                match read_rule(g, n, 0, s, (depth - 1) as nat) {
                    Some((Ok(_), r)) => symbols_stall(g, syms, i + 1, r, depth),
                    Some((Err(_), _)) => rule_stall(g, n, 0, s, (depth - 1) as nat),
                    None => None,
                }
            },
        }
    }
}

/// Where parsing `input` from rule `start` stalls, if it does.
pub open spec fn parse_stall(g: Grammar, start: Seq<char>, input: Seq<char>, depth: nat) -> Option<
    (Seq<char>, Option<char>),
> {
    if g.contains_key(start) {
        rule_stall(g, start, 0, input, depth)
    } else {
        None
    }
}

/// The view of a stall report.
pub open spec fn stall_view(o: Option<(String, Option<char>)>) -> Option<(Seq<char>, Option<char>)> {
    match o {
        Some((n, c)) => Some((n@, c)),
        None => None,
    }
}

/// A stall report after a reading that may stall at `st`: the new stall, or
/// the old report where there is none.
pub open spec fn stall_after(st: Option<(Seq<char>, Option<char>)>, old_report: Option<(String, Option<char>)>) -> Option<
    (Seq<char>, Option<char>),
> {
    match st {
        Some(p) => Some(p),
        None => stall_view(old_report),
    }
}

pub open spec fn msg_unknown_start() -> Seq<char> {
    "Could not find production given in language."@
}

/// The outcome of parsing `input` from rule `start`, within `depth` nested rules.
pub open spec fn parse_result(g: Grammar, start: Seq<char>, input: Seq<char>, depth: nat) -> Option<
    Result<ParseTree, Seq<char>>,
> {
    if g.contains_key(start) {
        match read_rule(g, start, 0, input, depth) {
            None => None,
            Some((r, _)) => Some(r),
        }
    } else {
        Some(Err(msg_unknown_start()))
    }
}

/// Parsing `input` from rule `start` comes to an end (the recursion through
/// the grammar does not go on for ever).
pub open spec fn parse_completes(g: Grammar, start: Seq<char>, input: Seq<char>) -> bool {
    exists|d: nat| d <= u64::MAX && #[trigger] parse_result(g, start, input, d) is Some
}

/// The first character of `s`, if any.
fn first_char(s: &String) -> (r: Option<char>)
    ensures
        r == first(s@),
{
    let st = CharStream::from_str(s.as_str());
    st.peek()
}

impl Interpreter {
    /// Whether `production` is tried when the next input character is `next_c`,
    /// within `depth` nested rule lookups.
    fn can_parse_using_production(&self, production: &Production, next_c: Option<char>, depth: u64) -> (r: Option<bool>)
        ensures
            r == alt_can_start(self@, production@, next_c, depth as nat),
        decreases depth, 0nat,
    {
        if production.terms.len() == 0 {
            return Some(false);
        }
        let p = &production.terms[0];
        match p {
            TerminalOrNonTerminal::Term(Terminal(s)) => {
                match (first_char(s), next_c) {
                    (Some(c1), Some(c2)) => Some(c1 == c2),
                    (None, _) => Some(true),
                    (_, _) => Some(false),
                }
            },
            TerminalOrNonTerminal::Non(NonTerm(s)) => {
                match self.lookup(s) {
                    Some(non_term) => {
                        if depth == 0 {
                            None
                        } else {
                            self.can_parse_using_nonterminal(non_term, next_c, depth - 1)
                        }
                    },
                    None => Some(true),
                }
            },
        }
    }

    /// Whether some alternative of `nonterminal` is tried when the next input
    /// character is `next_c`, within `depth` nested rule lookups.
    fn can_parse_using_nonterminal(&self, nonterminal: &NonTerminal, next_c: Option<char>, depth: u64) -> (r: Option<bool>)
        ensures
            r == rule_can_start(self@, nonterminal@.alternatives, 0, next_c, depth as nat),
        decreases depth, 1nat,
    {
        let ghost alts = nonterminal@.alternatives;
        let mut i: usize = 0;
        while i < nonterminal.productions.len()
            invariant
                i <= nonterminal.productions@.len(),
                alts == nonterminal@.alternatives,
                rule_can_start(self@, alts, 0, next_c, depth as nat) == rule_can_start(
                    self@,
                    alts,
                    i as int,
                    next_c,
                    depth as nat,
                ),
            decreases nonterminal.productions@.len() - i,
        {
            match self.can_parse_using_production(&nonterminal.productions[i], next_c, depth) {
                None => {
                    return None;
                },
                Some(true) => {
                    return Some(true);
                },
                Some(false) => {},
            }
            i = i + 1;
        }
        Some(false)
    }

    /// Reads the symbols of `production` from the input, within `depth` nested rules.
    #[verifier::loop_isolation(false)]
    fn parse_using_production(
        &self,
        production: &Production,
        lines: &mut CharStream,
        depth: u64,
        stall: &mut Option<(String, Option<char>)>,
    ) -> (r: Option<Result<Vec<LanguageProductionOrTerm>, String>>)
        ensures
            r is Some ==> stall_view(*final(stall)) == stall_after(
                symbols_stall(self@, production@, 0, old(lines)@, depth as nat),
                *old(stall),
            ),
            match r {
                None => read_symbols(self@, production@, 0, old(lines)@, depth as nat) is None,
                Some(x) => read_symbols(self@, production@, 0, old(lines)@, depth as nat) == Some(
                    (
                        match x {
                            Ok(v) => Ok(nodes_of(v@)),
                            Err(e) => Err(e@),
                        },
                        final(lines)@,
                    ),
                ),
            },
        decreases depth, 0nat,
    {
        let ghost g = self@;
        let ghost syms = production@;
        let ghost s0 = lines@;
        let mut productions: Vec<LanguageProductionOrTerm> = Vec::new();
        let mut i: usize = 0;
        proof {
            assert(nodes_of(productions@) =~= Seq::<Node>::empty());
            if let Some(x) = read_symbols(g, syms, 0, s0, depth as nat) {
                if let Ok(v) = x.0 {
                    assert(Seq::<Node>::empty() + v =~= v);
                }
            }
        }
        while i < production.terms.len()
            invariant
                i <= production.terms@.len(),
                read_symbols(g, syms, 0, s0, depth as nat) == prefix_nodes(
                    nodes_of(productions@),
                    read_symbols(g, syms, i as int, lines@, depth as nat),
                ),
                symbols_stall(g, syms, 0, s0, depth as nat) == symbols_stall(g, syms, i as int, lines@, depth as nat),
                stall_view(*stall) == stall_view(*old(stall)),
            decreases production.terms@.len() - i,
        {
            let ghost m0 = nodes_of(productions@);
            let ghost before = lines@;
            let term = &production.terms[i];
            match term {
                TerminalOrNonTerminal::Term(Terminal(t)) => {
                    if !self.parse_specific_id(lines, t) {
                        let mut error_msg = "Error trying to parse production. Trying to parse '".to_string();
                        error_msg.append(t.as_str());
                        error_msg.append("'.");
                        match lines.peek() {
                            Some(c3) => {
                                error_msg.append(" Recieved charater '");
                                push_char(&mut error_msg, c3);
                                error_msg.append("'");
                            },
                            None => {
                                error_msg.append(" Reached EOF.");
                            },
                        }
                        proof {
                            assert(error_msg@ =~= terminal_error(t@, lines@));
                        }
                        return Some(Err(error_msg));
                    }
                    let leaf = LanguageProductionOrTerm::Term(Terminal(t.clone()));
                    productions.push(leaf);
                    proof {
                        assert(nodes_of(productions@) =~= m0 + seq![Node::Leaf(t@)]);
                        if let Some(x) = read_symbols(g, syms, i + 1, lines@, depth as nat) {
                            lemma_prefix_ok_assoc(m0, seq![Node::Leaf(t@)], x);
                        }
                    }
                },
                TerminalOrNonTerminal::Non(NonTerm(name)) => {
                    match self.lookup(name) {
                        Some(nonterm) => {
                            if depth == 0 {
                                return None;
                            }
                            match self.parse_using_nonterminal(nonterm, lines, depth - 1, stall) {
                                None => {
                                    return None;
                                },
                                Some(Ok(lp)) => {
                                    proof {
                                        lemma_rule_stall_on_success(g, name@, 0, before, (depth - 1) as nat);
                                    }
                                    let ghost tree = lp@;
                                    productions.push(LanguageProductionOrTerm::Prod(lp));
                                    proof {
                                        assert(nodes_of(productions@) =~= m0 + seq![Node::Branch(tree)]);
                                        if let Some(x) = read_symbols(g, syms, i + 1, lines@, depth as nat) {
                                            lemma_prefix_ok_assoc(
                                                m0,
                                                seq![Node::Branch(tree)],
                                                x,
                                            );
                                        }
                                    }
                                },
                                Some(Err(e)) => {
                                    return Some(Err(e));
                                },
                            }
                        },
                        None => {},
                    }
                },
            }
            i = i + 1;
        }
        proof {
            let m = nodes_of(productions@);
            assert(m + Seq::<Node>::empty() =~= m);
        }
        Some(Ok(productions))
    }

    /// Reads `nonterminal` from the input: the first alternative that is tried
    /// decides the outcome. Within `depth` nested rules.
    #[verifier::loop_isolation(false)]
    fn parse_using_nonterminal(
        &self,
        nonterminal: &NonTerminal,
        lines: &mut CharStream,
        depth: u64,
        stall: &mut Option<(String, Option<char>)>,
    ) -> (r: Option<Result<LanguageProduction, String>>)
        requires
            self@.contains_key(nonterminal@.name),
            self@[nonterminal@.name] == nonterminal@.alternatives,
        ensures
            r is Some ==> stall_view(*final(stall)) == stall_after(
                rule_stall(self@, nonterminal@.name, 0, old(lines)@, depth as nat),
                *old(stall),
            ),
            match r {
                None => read_rule(self@, nonterminal@.name, 0, old(lines)@, depth as nat) is None,
                Some(x) => read_rule(self@, nonterminal@.name, 0, old(lines)@, depth as nat) == Some(
                    (result_view(x), final(lines)@),
                ),
            },
        decreases depth, 1nat,
    {
        let ghost g = self@;
        let ghost n = nonterminal@.name;
        let ghost s0 = lines@;
        let c = lines.peek();
        let mut index: usize = 0;
        while index < nonterminal.productions.len()
            invariant
                index <= nonterminal.productions@.len(),
                lines@ == s0,
                read_rule(g, n, 0, s0, depth as nat) == read_rule(g, n, index as int, s0, depth as nat),
                rule_stall(g, n, 0, s0, depth as nat) == rule_stall(g, n, index as int, s0, depth as nat),
                stall_view(*stall) == stall_view(*old(stall)),
            decreases nonterminal.productions@.len() - index,
        {
            let p = &nonterminal.productions[index];
            match self.can_parse_using_production(p, c, depth) {
                None => {
                    return None;
                },
                Some(true) => {
                    match self.parse_using_production(p, lines, depth, stall) {
                        None => {
                            return None;
                        },
                        Some(Ok(productions)) => {
                            let lp = LanguageProduction {
                                name: nonterminal.name.clone(),
                                index: index,
                                productions: productions,
                            };
                            proof {
                                lemma_tree_of(lp);
                            }
                            return Some(Ok(lp));
                        },
                        Some(Err(e)) => {
                            let mut error = e.clone();
                            error.append(" In nonterminal ");
                            error.append(nonterminal.name.as_str());
                            error.append(" parsing the ");
                            let number = decimal_string(index);
                            error.append(number.as_str());
                            error.append(" production.");
                            proof {
                                assert(error@ =~= alternative_error(e@, n, index as nat));
                            }
                            return Some(Err(error));
                        },
                    }
                },
                Some(false) => {},
            }
            index = index + 1;
        }
        *stall = Some((nonterminal.name.clone(), c));
        let mut error_msg = "Could not parse the production ".to_string();
        error_msg.append(nonterminal.name.as_str());
        Some(Err(error_msg))
    }

    /// Parses `lines` from the rule named `starting_production`, going at most
    /// `depth` rules deep; `None` when that is not deep enough. Beside the
    /// outcome, tells where parsing stalled, if it did: the rule none of whose
    /// alternatives was tried, and the next input character at that point.
    pub fn parse_with_depth_reporting(&self, starting_production: &String, lines: &String, depth: u64) -> (r:
        Option<(Result<LanguageProduction, String>, Option<(String, Option<char>)>)>)
        ensures
            match r {
                None => parse_result(self@, starting_production@, lines@, depth as nat) is None,
                Some((x, st)) => {
                    &&& parse_result(self@, starting_production@, lines@, depth as nat) == Some(
                        result_view(x),
                    )
                    &&& stall_view(st) == parse_stall(self@, starting_production@, lines@, depth as nat)
                },
            },
    {
        let mut itr = CharStream::from_str(lines.as_str());
        let mut stall: Option<(String, Option<char>)> = None;
        match self.lookup(starting_production) {
            Some(current_nonterm) => match self.parse_using_nonterminal(current_nonterm, &mut itr, depth, &mut stall) {
                Some(x) => Some((x, stall)),
                None => None,
            },
            None => Some((Err("Could not find production given in language.".to_string()), None)),
        }
    }

    /// Parses `lines` from the rule named `starting_production`, going at most
    /// `depth` rules deep; `None` when that is not deep enough.
    pub fn parse_with_depth(&self, starting_production: &String, lines: &String, depth: u64) -> (r: Option<
        Result<LanguageProduction, String>,
    >)
        ensures
            match r {
                None => parse_result(self@, starting_production@, lines@, depth as nat) is None,
                Some(x) => parse_result(self@, starting_production@, lines@, depth as nat) == Some(
                    result_view(x),
                ),
            },
    {
        match self.parse_with_depth_reporting(starting_production, lines, depth) {
            Some((x, _)) => Some(x),
            None => None,
        }
    }

    /// Parses `lines` from the rule named `starting_production`. The input need
    /// not be read to its end.
    pub fn parse(&self, starting_production: &String, lines: &String) -> (r: Result<LanguageProduction, String>)
        requires
            parse_completes(self@, starting_production@, lines@),
        ensures
            forall|d: nat| #[trigger]
                parse_result(self@, starting_production@, lines@, d) is Some ==> parse_result(
                    self@,
                    starting_production@,
                    lines@,
                    d,
                ) == Some(result_view(r)),
    {
        proof {
            let d = choose|d: nat| d <= u64::MAX && #[trigger] parse_result(self@, starting_production@, lines@, d) is Some;
            lemma_parse_result_depth(self@, starting_production@, lines@, d, u64::MAX as nat);
        }
        let r = self.parse_with_depth(starting_production, lines, u64::MAX);
        proof {
            assert forall|d: nat| #[trigger]
                parse_result(self@, starting_production@, lines@, d) is Some implies parse_result(
                    self@,
                    starting_production@,
                    lines@,
                    d,
                ) == Some(result_view(r.unwrap())) by {
                if d <= u64::MAX {
                    lemma_parse_result_depth(self@, starting_production@, lines@, d, u64::MAX as nat);
                } else {
                    lemma_parse_result_depth(self@, starting_production@, lines@, u64::MAX as nat, d);
                }
            }
        }
        r.unwrap()
    }
}

// ---------------------------------------------------------------- stalls

/// Reading a rule that succeeds does not stall.
proof fn lemma_rule_stall_on_success(g: Grammar, n: Seq<char>, i: int, s: Seq<char>, d: nat)
    ensures
        read_rule(g, n, i, s, d) matches Some((Ok(_), _)) ==> rule_stall(g, n, i, s, d) is None,
    decreases d, 1nat, g[n].len() - i,
{
    if 0 <= i < g[n].len() {
        match alt_can_start(g, g[n][i], first(s), d) {
            Some(false) => {
                lemma_rule_stall_on_success(g, n, i + 1, s, d);
            },
            Some(true) => {
                lemma_symbols_stall_on_success(g, g[n][i], 0, s, d);
            },
            None => {},
        }
    }
}

/// Reading symbols that succeeds does not stall.
proof fn lemma_symbols_stall_on_success(g: Grammar, syms: Seq<Symbol>, i: int, s: Seq<char>, d: nat)
    ensures
        read_symbols(g, syms, i, s, d) matches Some((Ok(_), _)) ==> symbols_stall(g, syms, i, s, d) is None,
    decreases d, 0nat, syms.len() - i,
{
    if 0 <= i < syms.len() {
        match syms[i] {
            Symbol::Terminal(t) => {
                let (m, r) = read_terminal(t, s);
                if m is Ok {
                    lemma_symbols_stall_on_success(g, syms, i + 1, r, d);
                }
            },
            Symbol::Nonterminal(n) => {
                if !g.contains_key(n) {
                    lemma_symbols_stall_on_success(g, syms, i + 1, s, d);
                } else if d > 0 {
                    if let Some((Ok(_), r)) = read_rule(g, n, 0, s, (d - 1) as nat) {
                        lemma_symbols_stall_on_success(g, syms, i + 1, r, d);
                    }
                }
            },
        }
    }
}

/// A stall is reported only when parsing fails: a parse that succeeds reports none.
pub proof fn law_stall_only_on_failure(g: Grammar, start: Seq<char>, input: Seq<char>, d: nat)
    ensures
        parse_result(g, start, input, d) matches Some(Ok(_)) ==> parse_stall(g, start, input, d) is None,
{
    if g.contains_key(start) {
        lemma_rule_stall_on_success(g, start, 0, input, d);
    }
}

// ---------------------------------------------------------------- depth

proof fn lemma_alt_can_start_depth(g: Grammar, alt: Seq<Symbol>, c: Option<char>, d1: nat, d2: nat)
    requires
        d1 <= d2,
        alt_can_start(g, alt, c, d1) is Some,
    ensures
        alt_can_start(g, alt, c, d2) == alt_can_start(g, alt, c, d1),
    decreases d1, 0nat, 0int,
{
    if alt.len() > 0 {
        if let Symbol::Nonterminal(n) = alt[0] {
            if g.contains_key(n) {
                lemma_rule_can_start_depth(g, g[n], 0, c, (d1 - 1) as nat, (d2 - 1) as nat);
            }
        }
    }
}

proof fn lemma_rule_can_start_depth(
    g: Grammar,
    alts: Seq<Seq<Symbol>>,
    i: int,
    c: Option<char>,
    d1: nat,
    d2: nat,
)
    requires
        d1 <= d2,
        rule_can_start(g, alts, i, c, d1) is Some,
    ensures
        rule_can_start(g, alts, i, c, d2) == rule_can_start(g, alts, i, c, d1),
    decreases d1, 1nat, alts.len() - i,
{
    if 0 <= i < alts.len() {
        lemma_alt_can_start_depth(g, alts[i], c, d1, d2);
        if alt_can_start(g, alts[i], c, d1) == Some(false) {
            lemma_rule_can_start_depth(g, alts, i + 1, c, d1, d2);
        }
    }
}

proof fn lemma_read_symbols_depth(g: Grammar, syms: Seq<Symbol>, i: int, s: Seq<char>, d1: nat, d2: nat)
    requires
        d1 <= d2,
        read_symbols(g, syms, i, s, d1) is Some,
    ensures
        read_symbols(g, syms, i, s, d2) == read_symbols(g, syms, i, s, d1),
    decreases d1, 0nat, syms.len() - i,
{
    if 0 <= i < syms.len() {
        match syms[i] {
            Symbol::Terminal(t) => {
                let (m, r) = read_terminal(t, s);
                if m is Ok {
                    lemma_read_symbols_depth(g, syms, i + 1, r, d1, d2);
                }
            },
            Symbol::Nonterminal(n) => {
                if !g.contains_key(n) {
                    lemma_read_symbols_depth(g, syms, i + 1, s, d1, d2);
                } else {
                    lemma_read_rule_depth(g, n, 0, s, (d1 - 1) as nat, (d2 - 1) as nat);
                    if let Some((Ok(tree), r)) = read_rule(g, n, 0, s, (d1 - 1) as nat) {
                        lemma_read_symbols_depth(g, syms, i + 1, r, d1, d2);
                    }
                }
            },
        }
    }
}

proof fn lemma_read_rule_depth(g: Grammar, n: Seq<char>, i: int, s: Seq<char>, d1: nat, d2: nat)
    requires
        d1 <= d2,
        read_rule(g, n, i, s, d1) is Some,
    ensures
        read_rule(g, n, i, s, d2) == read_rule(g, n, i, s, d1),
    decreases d1, 1nat, g[n].len() - i,
{
    if 0 <= i < g[n].len() {
        lemma_alt_can_start_depth(g, g[n][i], first(s), d1, d2);
        match alt_can_start(g, g[n][i], first(s), d1) {
            Some(false) => {
                lemma_read_rule_depth(g, n, i + 1, s, d1, d2);
            },
            Some(true) => {
                lemma_read_symbols_depth(g, g[n][i], 0, s, d1, d2);
            },
            None => {},
        }
    }
}

/// Parsing that comes to an end within some depth gives the same outcome at
/// every greater depth.
pub proof fn lemma_parse_result_depth(g: Grammar, start: Seq<char>, input: Seq<char>, d1: nat, d2: nat)
    requires
        d1 <= d2,
        parse_result(g, start, input, d1) is Some,
    ensures
        parse_result(g, start, input, d2) == parse_result(g, start, input, d1),
{
    if g.contains_key(start) {
        lemma_read_rule_depth(g, start, 0, input, d1, d2);
    }
}

} // verus!
