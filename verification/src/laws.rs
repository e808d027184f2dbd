//! Properties of the readers and of parsing that hold for every input.

use vstd::prelude::*;
use crate::grammar::{Grammar, Rule, Symbol};
use crate::interp::{
    alt_can_start, first, parse_completes, parse_result, rule_can_start, read_rule, read_symbols, read_terminal, Node,
    ParseTree,
};
use crate::reader::{
    alnum_run, common_prefix_len, insert_rules, lemma_alnum_run, lemma_common_prefix_len,
    read_identifier, read_rules, read_string, read_string_body, read_term, read_production, is_space,
    skip_space, prefix_ok, read_line, read_char_in_string, read_alternatives, arrow,
    lemma_skip_space, lemma_read_term, lemma_read_production, lemma_read_line,
};
use crate::text::{letter, letter_or_digit};

verus! {

// ---------------------------------------------------------------- readers

/// An identifier that is read is a non-empty front part of the text: its first
/// character is alphabetic, the others alphanumeric, and the text left does not
/// start with an alphanumeric character. When no identifier is read, nothing is
/// consumed.
pub proof fn law_identifier(s: Seq<char>)
    ensures
        match read_identifier(s) {
            (Ok(id), rest) => {
                &&& id.len() >= 1
                &&& s == id + rest
                &&& letter(id[0])
                &&& forall|i: int| 1 <= i < id.len() ==> letter_or_digit(#[trigger] id[i])
                &&& rest.len() == 0 || !letter_or_digit(rest[0])
            },
            (Err(_), rest) => rest == s,
        },
{
    if s.len() > 0 && letter(s[0]) {
        let t = s.drop_first();
        lemma_alnum_run(t);
        let n = 1 + alnum_run(t);
        assert(s =~= s.take(n as int) + s.skip(n as int));
        assert forall|i: int| 1 <= i < n implies letter_or_digit(#[trigger] s.take(n as int)[i]) by {
            assert(s.take(n as int)[i] == t[i - 1]);
        }
        if n < s.len() {
            assert(s.skip(n as int)[0] == t[alnum_run(t) as int]);
        }
    }
}

/// A fixed word is recognised exactly when the text starts with it, and then
/// exactly the word is consumed.
pub proof fn law_specific_id(s: Seq<char>, id: Seq<char>)
    ensures
        (common_prefix_len(s, id) == id.len()) == id.is_prefix_of(s),
        id.is_prefix_of(s) ==> s.skip(common_prefix_len(s, id) as int) == s.skip(id.len() as int),
{
    lemma_common_prefix_len(s, id);
    let n = common_prefix_len(s, id) as int;
    if n == id.len() {
        assert(id =~= id.take(n));
        assert(id.is_prefix_of(s)) by {
            assert forall|i: int| 0 <= i < id.len() implies id[i] == s[i] by {
                assert(s.take(n)[i] == id.take(n)[i]);
            }
        }
    } else {
        if id.is_prefix_of(s) {
            assert(s[n] == id[n]);
        }
    }
}

/// A text without quotes and backslashes, put between quotes, reads back as
/// itself, and the text after the closing quote is left.
pub proof fn law_quoted_text(body: Seq<char>, rest: Seq<char>)
    requires
        forall|i: int| 0 <= i < body.len() ==> #[trigger] body[i] != '\'' && body[i] != '\\',
    ensures
        read_string(seq!['\''] + body + seq!['\''] + rest) == (Ok::<Seq<char>, Seq<char>>(body), rest),
{
    let s = seq!['\''] + body + seq!['\''] + rest;
    assert(s.drop_first() =~= body + seq!['\''] + rest);
    lemma_string_body_plain(body, rest);
}

proof fn lemma_string_body_plain(body: Seq<char>, rest: Seq<char>)
    requires
        forall|i: int| 0 <= i < body.len() ==> #[trigger] body[i] != '\'' && body[i] != '\\',
    ensures
        read_string_body(body + seq!['\''] + rest) == (Ok::<Seq<char>, Seq<char>>(body), rest),
    decreases body.len(),
{
    let s = body + seq!['\''] + rest;
    if body.len() == 0 {
        assert(s[0] == '\'');
        assert(s.skip(1) =~= rest);
        assert(body =~= Seq::<char>::empty());
    } else {
        assert(s[0] == body[0]);
        let tail = body.drop_first();
        assert(s.skip(1) =~= tail + seq!['\''] + rest);
        assert(body[0] != '\'' && body[0] != '\\');
        lemma_string_body_plain(tail, rest);
        assert(seq![body[0]] + tail =~= body);
    }
}

// ---------------------------------------------------------------- grammars

/// Whether some rule in `rules` is named `k`.
pub open spec fn names_rule(rules: Seq<Rule>, k: Seq<char>) -> bool {
    exists|i: int| 0 <= i < rules.len() && #[trigger] rules[i].name == k
}

/// Whether rule `i` is the last one in `rules` with its name.
pub open spec fn last_of_its_name(rules: Seq<Rule>, i: int) -> bool {
    forall|j: int| i < j < rules.len() ==> #[trigger] rules[j].name != rules[i].name
}

/// Putting rules in a grammar keeps every name it had and adds the names of the
/// rules; a name takes the alternatives of the last rule that has it, and a name
/// that no rule has keeps its alternatives.
pub proof fn law_insert_rules(g: Grammar, rules: Seq<Rule>)
    ensures
        forall|k: Seq<char>| #[trigger] insert_rules(g, rules).contains_key(k) == (g.contains_key(k)
            || names_rule(rules, k)),
        forall|i: int|
            0 <= i < rules.len() && last_of_its_name(rules, i) ==> #[trigger] insert_rules(
                g,
                rules,
            )[rules[i].name] == rules[i].alternatives,
        forall|k: Seq<char>|
            g.contains_key(k) && !names_rule(rules, k) ==> #[trigger] insert_rules(g, rules)[k]
                == g[k],
    decreases rules.len(),
{
    if rules.len() > 0 {
        let front = rules.drop_last();
        let last = rules.last();
        law_insert_rules(g, front);
        assert(insert_rules(g, rules) == insert_rules(g, front).insert(last.name, last.alternatives));
        assert forall|k: Seq<char>| #[trigger] insert_rules(g, rules).contains_key(k) == (g.contains_key(k)
            || names_rule(rules, k)) by {
            if names_rule(front, k) {
                let i = choose|i: int| 0 <= i < front.len() && #[trigger] front[i].name == k;
                assert(rules[i].name == k);
            }
            if names_rule(rules, k) && k != last.name {
                let i = choose|i: int| 0 <= i < rules.len() && #[trigger] rules[i].name == k;
                assert(front[i].name == k);
            }
            if k == last.name {
                assert(rules[rules.len() - 1].name == k);
            }
        }
        assert forall|i: int|
            0 <= i < rules.len() && last_of_its_name(rules, i) implies #[trigger] insert_rules(
                g,
                rules,
            )[rules[i].name] == rules[i].alternatives by {
            if i < rules.len() - 1 {
                assert(rules[rules.len() - 1].name != rules[i].name);
                assert(last_of_its_name(front, i)) by {
                    assert forall|j: int| i < j < front.len() implies #[trigger] front[j].name
                        != front[i].name by {
                        assert(rules[j].name != rules[i].name);
                    }
                }
            }
        }
        assert forall|k: Seq<char>|
            g.contains_key(k) && !names_rule(rules, k) implies #[trigger] insert_rules(g, rules)[k]
                == g[k] by {
            if k == last.name {
                assert(rules[rules.len() - 1].name == k);
            }
            if names_rule(front, k) {
                let i = choose|i: int| 0 <= i < front.len() && #[trigger] front[i].name == k;
                assert(rules[i].name == k);
            }
        }
    }
}

/// Reading the same grammar text a second time leaves the grammar as the first
/// reading left it.
pub proof fn law_read_twice(g: Grammar, text: Seq<char>)
    ensures
        insert_rules(insert_rules(g, read_rules(text).0), read_rules(text).0) == insert_rules(
            g,
            read_rules(text).0,
        ),
{
    let rules = read_rules(text).0;
    let g1 = insert_rules(g, rules);
    let g2 = insert_rules(g1, rules);
    law_insert_rules(g, rules);
    law_insert_rules(g1, rules);
    assert forall|k: Seq<char>| g2.contains_key(k) implies g2[k] == g1[k] by {
        if names_rule(rules, k) {
            let i = choose|i: int| 0 <= i < rules.len() && #[trigger] rules[i].name == k;
            let j = last_index_of(rules, i);
            assert(g2[rules[j].name] == rules[j].alternatives);
            assert(g1[rules[j].name] == rules[j].alternatives);
        }
    }
    assert(g2 =~= g1);
}

/// The position of the last rule with the name of rule `i`.
proof fn last_index_of(rules: Seq<Rule>, i: int) -> (j: int)
    requires
        0 <= i < rules.len(),
    ensures
        i <= j < rules.len(),
        rules[j].name == rules[i].name,
        last_of_its_name(rules, j),
    decreases rules.len() - i,
{
    if exists|j: int| i < j < rules.len() && #[trigger] rules[j].name == rules[i].name {
        let j = choose|j: int| i < j < rules.len() && #[trigger] rules[j].name == rules[i].name;
        last_index_of(rules, j)
    } else {
        i
    }
}

// ---------------------------------------------------------------- parsing

/// The text that a sequence of parse-tree nodes covers: its terminals, left to right.
pub open spec fn nodes_text(ns: Seq<Node>) -> Seq<char>
    decreases ns,
{
    if ns.len() == 0 {
        Seq::empty()
    } else {
        let head = match ns[0] {
            Node::Leaf(s) => s,
            Node::Branch(t) => {
                proof {
                    assert(decreases_to!(ns => ns[0]));
                    assert(decreases_to!(ns[0] => t));
                    assert(decreases_to!(t => t.children));
                }
                nodes_text(t.children)
            },
        };
        proof {
            assert(decreases_to!(ns => ns.subrange(1, ns.len() as int)));
        }
        head + nodes_text(ns.subrange(1, ns.len() as int))
    }
}

/// The text of a single node.
pub open spec fn node_text(x: Node) -> Seq<char> {
    match x {
        Node::Leaf(s) => s,
        Node::Branch(t) => nodes_text(t.children),
    }
}

proof fn lemma_nodes_text_cons(x: Node, ns: Seq<Node>)
    ensures
        nodes_text(seq![x] + ns) == node_text(x) + nodes_text(ns),
{
    let all = seq![x] + ns;
    assert(all[0] == x);
    assert(all.subrange(1, all.len() as int) =~= ns);
}

proof fn lemma_read_symbols_text(g: Grammar, syms: Seq<Symbol>, i: int, s: Seq<char>, d: nat)
    ensures
        read_symbols(g, syms, i, s, d) matches Some((Ok(ns), r)) ==> s == nodes_text(ns) + r,
    decreases d, 0nat, syms.len() - i,
{
    if i < 0 || i >= syms.len() {
        assert(nodes_text(Seq::<Node>::empty()) + s =~= s);
    } else {
        match syms[i] {
            Symbol::Terminal(t) => {
                let (m, r0) = read_terminal(t, s);
                if m is Ok {
                    lemma_common_prefix_len(s, t);
                    assert(t.take(t.len() as int) =~= t);
                    assert(s =~= s.take(t.len() as int) + r0);
                    lemma_read_symbols_text(g, syms, i + 1, r0, d);
                    if let Some((Ok(ns), r)) = read_symbols(g, syms, i + 1, r0, d) {
                        lemma_nodes_text_cons(Node::Leaf(t), ns);
                        assert(s =~= (t + nodes_text(ns)) + r);
                    }
                }
            },
            Symbol::Nonterminal(n) => {
                if !g.contains_key(n) {
                    lemma_read_symbols_text(g, syms, i + 1, s, d);
                } else if d > 0 {
                    lemma_read_rule_text(g, n, 0, s, (d - 1) as nat);
                    if let Some((Ok(tree), r1)) = read_rule(g, n, 0, s, (d - 1) as nat) {
                        lemma_read_symbols_text(g, syms, i + 1, r1, d);
                        if let Some((Ok(ns), r)) = read_symbols(g, syms, i + 1, r1, d) {
                            lemma_nodes_text_cons(Node::Branch(tree), ns);
                            assert(s =~= (nodes_text(tree.children) + nodes_text(ns)) + r);
                        }
                    }
                }
            },
        }
    }
}

proof fn lemma_read_rule_text(g: Grammar, n: Seq<char>, i: int, s: Seq<char>, d: nat)
    ensures
        read_rule(g, n, i, s, d) matches Some((Ok(t), r)) ==> {
            &&& s == nodes_text(t.children) + r
            &&& t.name == n
            &&& i <= t.index < g[n].len()
        },
    decreases d, 1nat, g[n].len() - i,
{
    if 0 <= i < g[n].len() {
        match crate::interp::alt_can_start(g, g[n][i], first(s), d) {
            Some(false) => {
                lemma_read_rule_text(g, n, i + 1, s, d);
            },
            Some(true) => {
                lemma_read_symbols_text(g, g[n][i], 0, s, d);
            },
            None => {},
        }
    }
}

/// A successful parse reads a front part of the input: the terminals of the
/// tree, left to right, spell the input up to where parsing stopped. The tree is
/// for the start rule, and the alternative it records is one of that rule's.
pub proof fn law_parse_reads_prefix(g: Grammar, start: Seq<char>, input: Seq<char>, d: nat)
    ensures
        parse_result(g, start, input, d) matches Some(Ok(t)) ==> {
            &&& nodes_text(t.children).is_prefix_of(input)
            &&& t.name == start
            &&& g.contains_key(start)
            &&& t.index < g[start].len()
        },
{
    if g.contains_key(start) {
        lemma_read_rule_text(g, start, 0, input, d);
        if let Some((Ok(t), r)) = read_rule(g, start, 0, input, d) {
            assert(nodes_text(t.children) =~= input.take(nodes_text(t.children).len() as int));
        }
    }
}

// ---------------------------------------------------------------- completion

/// Alternative `alt` of rule `n` starts with a non-empty terminal or with a rule
/// of the grammar of lower rank than `n`.
pub open spec fn starts_ranked(g: Grammar, rank: spec_fn(Seq<char>) -> nat, n: Seq<char>, alt: Seq<Symbol>) -> bool {
    match alt[0] {
        Symbol::Terminal(t) => t.len() > 0,
        Symbol::Nonterminal(m) => g.contains_key(m) && rank(m) < rank(n),
    }
}

/// The rules of `g` are ranked below `bound` so that every alternative that is
/// not empty starts with a non-empty terminal or with a rule of lower rank: no
/// rule can reach itself without reading input.
pub open spec fn left_ranked(g: Grammar, rank: spec_fn(Seq<char>) -> nat, bound: nat) -> bool {
    forall|n: Seq<char>| #[trigger]
        g.contains_key(n) ==> {
            &&& rank(n) < bound
            &&& forall|i: int|
                0 <= i < g[n].len() && g[n][i].len() > 0 ==> starts_ranked(g, rank, n, #[trigger] g[n][i])
        }
}

/// The depth that suffices to read rule of rank `k` at the front of a text of
/// length `len`.
pub open spec fn depth_needed(len: nat, k: nat, bound: nat) -> nat {
    len * (bound + 1) + k + 1
}

proof fn lemma_rule_can_start_some(
    g: Grammar,
    rank: spec_fn(Seq<char>) -> nat,
    bound: nat,
    m: Seq<char>,
    i: int,
    c: Option<char>,
    d: nat,
)
    requires
        left_ranked(g, rank, bound),
        g.contains_key(m),
        d >= rank(m),
        i >= 0,
    ensures
        rule_can_start(g, g[m], i, c, d) is Some,
    decreases rank(m), g[m].len() - i,
{
    if i < g[m].len() {
        let alt = g[m][i];
        if alt.len() > 0 {
            assert(starts_ranked(g, rank, m, g[m][i]));
            if let Symbol::Nonterminal(m2) = alt[0] {
                lemma_rule_can_start_some(g, rank, bound, m2, 0, c, (d - 1) as nat);
            }
        }
        if alt_can_start(g, alt, c, d) == Some(false) {
            lemma_rule_can_start_some(g, rank, bound, m, i + 1, c, d);
        }
    }
}

proof fn lemma_read_rule_some(
    g: Grammar,
    rank: spec_fn(Seq<char>) -> nat,
    bound: nat,
    n: Seq<char>,
    i: int,
    s: Seq<char>,
    d: nat,
)
    requires
        left_ranked(g, rank, bound),
        g.contains_key(n),
        d >= depth_needed(s.len(), rank(n), bound),
        i >= 0,
    ensures
        read_rule(g, n, i, s, d) is Some,
        read_rule(g, n, i, s, d) matches Some((Ok(_), r)) ==> r.len() < s.len(),
    decreases s.len(), rank(n) + 1, g[n].len() - i,
{
    if i < g[n].len() {
        let alt = g[n][i];
        let c = first(s);
        if alt.len() > 0 {
            assert(starts_ranked(g, rank, n, g[n][i]));
            if let Symbol::Nonterminal(m) = alt[0] {
                lemma_rule_can_start_some(g, rank, bound, m, 0, c, (d - 1) as nat);
            }
        }
        match alt_can_start(g, alt, c, d) {
            Some(false) => {
                lemma_read_rule_some(g, rank, bound, n, i + 1, s, d);
            },
            Some(true) => {
                assert(alt.len() > 0);
                match alt[0] {
                    Symbol::Terminal(t) => {
                        lemma_common_prefix_len(s, t);
                        let (m0, r1) = read_terminal(t, s);
                        if m0 is Ok {
                            lemma_read_symbols_some(g, rank, bound, alt, 1, r1, d, s.len());
                        }
                        assert(read_symbols(g, alt, 0, s, d) is Some);
                    },
                    Symbol::Nonterminal(m) => {
                        assert(d >= 1);
                        lemma_read_rule_some(g, rank, bound, m, 0, s, (d - 1) as nat);
                        if let Some((Ok(_), r1)) = read_rule(g, m, 0, s, (d - 1) as nat) {
                            lemma_read_symbols_some(g, rank, bound, alt, 1, r1, d, s.len());
                        }
                        assert(read_symbols(g, alt, 0, s, d) is Some);
                    },
                }
                assert(read_symbols(g, g[n][i], 0, s, d) is Some);
            },
            None => {},
        }
    }
}

proof fn lemma_read_symbols_some(
    g: Grammar,
    rank: spec_fn(Seq<char>) -> nat,
    bound: nat,
    syms: Seq<Symbol>,
    j: int,
    s: Seq<char>,
    d: nat,
    len: nat,
)
    requires
        left_ranked(g, rank, bound),
        s.len() < len,
        d >= len * (bound + 1),
        j >= 0,
    ensures
        read_symbols(g, syms, j, s, d) is Some,
        read_symbols(g, syms, j, s, d) matches Some((Ok(_), r)) ==> r.len() <= s.len(),
    decreases len, 0nat, syms.len() - j,
{
    if j < syms.len() {
        match syms[j] {
            Symbol::Terminal(t) => {
                lemma_common_prefix_len(s, t);
                let (m0, r1) = read_terminal(t, s);
                if m0 is Ok {
                    lemma_read_symbols_some(g, rank, bound, syms, j + 1, r1, d, len);
                }
            },
            Symbol::Nonterminal(m) => {
                if !g.contains_key(m) {
                    lemma_read_symbols_some(g, rank, bound, syms, j + 1, s, d, len);
                } else {
                    let k = rank(m);
                    let sl = s.len();
                    assert(k < bound);
                    assert(sl * (bound + 1) + k + 1 <= len * (bound + 1) - 1) by (nonlinear_arith)
                        requires
                            sl + 1 <= len,
                            k + 1 <= bound,
                    ;
                    lemma_read_rule_some(g, rank, bound, m, 0, s, (d - 1) as nat);
                    if let Some((Ok(_), r1)) = read_rule(g, m, 0, s, (d - 1) as nat) {
                        lemma_read_symbols_some(g, rank, bound, syms, j + 1, r1, d, len);
                    }
                }
            },
        }
    }
}

/// On a grammar where no rule can reach itself without reading input (see
/// `left_ranked`), parsing any input from any rule comes to an end within a
/// depth given by the input's length and the rank bound; when that depth fits
/// in a `u64`, `parse` may be called.
pub proof fn law_parse_completes(
    g: Grammar,
    rank: spec_fn(Seq<char>) -> nat,
    bound: nat,
    start: Seq<char>,
    input: Seq<char>,
)
    requires
        left_ranked(g, rank, bound),
    ensures
        parse_result(g, start, input, depth_needed(input.len(), bound, bound)) is Some,
        depth_needed(input.len(), bound, bound) <= u64::MAX ==> parse_completes(g, start, input),
{
    let d = depth_needed(input.len(), bound, bound);
    if g.contains_key(start) {
        lemma_read_rule_some(g, rank, bound, start, 0, input, d);
    }
    assert(parse_result(g, start, input, d) is Some);
}

// ---------------------------------------------------------------- symbols and lookahead

/// A quoted terminal reads back as its body, spaces included: for every body
/// without quotes and backslashes, the symbol read is that terminal and the
/// text after the closing quote is left.
pub proof fn law_quoted_terminal(body: Seq<char>, rest: Seq<char>)
    requires
        forall|i: int| 0 <= i < body.len() ==> #[trigger] body[i] != '\'' && body[i] != '\\',
    ensures
        read_term(seq!['\''] + body + seq!['\''] + rest) == (Ok::<Symbol, Seq<char>>(Symbol::Terminal(body)), rest),
{
    let s = seq!['\''] + body + seq!['\''] + rest;
    assert(s[0] == '\'');
    law_quoted_text(body, rest);
}

/// Symbols of an alternative need no separator between them: once a symbol is
/// read from the front of the text, the alternative is that symbol followed by
/// the alternative read from what is left, whatever that starts with.
pub proof fn law_production_symbol_then_rest(s: Seq<char>)
    ensures
        read_term(s).0 is Ok ==> read_production(s) == prefix_ok(
            seq![read_term(s).0->Ok_0],
            read_production(read_term(s).1),
        ),
{
    if read_term(s).0 is Ok {
        assert(s.len() > 0 && (s[0] == '\'' || letter(s[0])));
        assert(!is_space(s[0]));
        assert(s[0] != ';' && s[0] != '|');
        assert(skip_space(s) == s);
    }
}

/// Whether some alternative of `alts` from position `i` on can start on `c`.
pub open spec fn some_alt_can_start(g: Grammar, alts: Seq<Seq<Symbol>>, i: int, c: Option<char>, d: nat) -> bool {
    exists|j: int| i <= j < alts.len() && 0 <= j && #[trigger] alt_can_start(g, alts[j], c, d) == Some(true)
}

/// A rule can start on a character exactly when one of its alternatives can;
/// and an alternative that begins with a rule of the grammar can start exactly
/// when that rule can, one level deeper.
pub proof fn law_lookahead(g: Grammar, alts: Seq<Seq<Symbol>>, alt: Seq<Symbol>, c: Option<char>, d: nat)
    ensures
        rule_can_start(g, alts, 0, c, d) matches Some(b) ==> (b <==> some_alt_can_start(g, alts, 0, c, d)),
        alt.len() > 0 && (alt[0] matches Symbol::Nonterminal(m) && g.contains_key(m)) ==> alt_can_start(
            g,
            alt,
            c,
            d + 1,
        ) == rule_can_start(g, g[alt[0]->Nonterminal_0], 0, c, d),
{
    lemma_rule_can_start_exists(g, alts, 0, c, d);
}

proof fn lemma_rule_can_start_exists(g: Grammar, alts: Seq<Seq<Symbol>>, i: int, c: Option<char>, d: nat)
    requires
        i >= 0,
    ensures
        rule_can_start(g, alts, i, c, d) matches Some(b) ==> (b <==> some_alt_can_start(g, alts, i, c, d)),
    decreases alts.len() - i,
{
    if i < alts.len() {
        lemma_rule_can_start_exists(g, alts, i + 1, c, d);
        if alt_can_start(g, alts[i], c, d) == Some(false) {
            if some_alt_can_start(g, alts, i, c, d) {
                let j = choose|j: int| i <= j < alts.len() && 0 <= j && #[trigger] alt_can_start(g, alts[j], c, d) == Some(true);
                assert(j != i);
                assert(some_alt_can_start(g, alts, i + 1, c, d));
            }
        } else if alt_can_start(g, alts[i], c, d) == Some(true) {
            assert(some_alt_can_start(g, alts, i, c, d));
        }
    } else {
        assert(!some_alt_can_start(g, alts, i, c, d));
    }
}

// ---------------------------------------------------------------- separators

/// Whether every character of `w` is a separator.
pub open spec fn all_space(w: Seq<char>) -> bool {
    forall|i: int| 0 <= i < w.len() ==> is_space(#[trigger] w[i])
}

/// Whether `name` is an identifier: a letter, then letters and digits.
pub open spec fn is_identifier(name: Seq<char>) -> bool {
    &&& name.len() >= 1
    &&& letter(name[0])
    &&& forall|i: int| 1 <= i < name.len() ==> letter_or_digit(#[trigger] name[i])
}

proof fn lemma_skip_space_over(w: Seq<char>, x: Seq<char>)
    requires
        all_space(w),
    ensures
        skip_space(w + x) == skip_space(x),
    decreases w.len(),
{
    if w.len() > 0 {
        assert((w + x)[0] == w[0]);
        assert((w + x).drop_first() =~= w.drop_first() + x);
        lemma_skip_space_over(w.drop_first(), x);
    } else {
        assert(w + x =~= x);
    }
}

proof fn lemma_alnum_run_concat(p: Seq<char>, q: Seq<char>)
    requires
        forall|i: int| 0 <= i < p.len() ==> letter_or_digit(#[trigger] p[i]),
        q.len() == 0 || !letter_or_digit(q[0]),
    ensures
        alnum_run(p + q) == p.len(),
    decreases p.len(),
{
    if p.len() > 0 {
        assert((p + q)[0] == p[0]);
        assert((p + q).drop_first() =~= p.drop_first() + q);
        assert forall|i: int| 0 <= i < p.drop_first().len() implies letter_or_digit(#[trigger] p.drop_first()[i]) by {
            assert(p.drop_first()[i] == p[i + 1]);
        }
        lemma_alnum_run_concat(p.drop_first(), q);
    } else {
        assert(p + q =~= q);
    }
}

proof fn lemma_identifier_then(name: Seq<char>, x: Seq<char>)
    requires
        is_identifier(name),
        x.len() == 0 || !letter_or_digit(x[0]),
    ensures
        read_identifier(name + x) == (Ok::<Seq<char>, Seq<char>>(name), x),
{
    let s = name + x;
    assert(s[0] == name[0]);
    assert(s.drop_first() =~= name.drop_first() + x);
    assert forall|i: int| 0 <= i < name.drop_first().len() implies letter_or_digit(#[trigger] name.drop_first()[i]) by {
        assert(name.drop_first()[i] == name[i + 1]);
    }
    lemma_alnum_run_concat(name.drop_first(), x);
    assert(s.take(name.len() as int) =~= name);
    assert(s.skip(name.len() as int) =~= x);
}

/// Separators between a rule's name and its arrow are optional: a rule reads
/// the same whether its name is followed directly by what comes next or by a
/// run of spaces, tabs and newlines first.
pub proof fn law_line_space_after_name(name: Seq<char>, w: Seq<char>, rest: Seq<char>)
    requires
        is_identifier(name),
        all_space(w),
        rest.len() == 0 || !letter_or_digit(rest[0]),
    ensures
        read_line(name + w + rest) == read_line(name + rest),
{
    lemma_identifier_then(name, rest);
    let x = w + rest;
    if w.len() > 0 {
        assert(x[0] == w[0]);
        assert(is_space(w[0]));
    } else {
        assert(x =~= rest);
    }
    lemma_identifier_then(name, x);
    assert(name + w + rest =~= name + x);
    lemma_skip_space_over(w, rest);
}

// ---------------------------------------------------------------- readers read no further than they need

proof fn lemma_skip_space_extend(t: Seq<char>, x: Seq<char>)
    requires
        skip_space(t).len() > 0,
    ensures
        skip_space(t + x) == skip_space(t) + x,
    decreases t.len(),
{
    assert((t + x)[0] == t[0]);
    if is_space(t[0]) {
        assert((t + x).drop_first() =~= t.drop_first() + x);
        lemma_skip_space_extend(t.drop_first(), x);
    }
}

proof fn lemma_identifier_extend(t: Seq<char>, x: Seq<char>)
    requires
        read_identifier(t).0 is Ok,
        read_identifier(t).1.len() > 0,
    ensures
        read_identifier(t + x) == (read_identifier(t).0, read_identifier(t).1 + x),
{
    let n = 1 + alnum_run(t.drop_first());
    lemma_alnum_run(t.drop_first());
    let name = t.take(n as int);
    let r = t.skip(n as int);
    assert(r[0] == t.drop_first()[alnum_run(t.drop_first()) as int]);
    assert forall|i: int| 1 <= i < name.len() implies letter_or_digit(#[trigger] name[i]) by {
        assert(name[i] == t.drop_first()[i - 1]);
    }
    assert(t + x =~= name + (r + x));
    lemma_identifier_then(name, r + x);
}

proof fn lemma_char_in_string_extend(t: Seq<char>, x: Seq<char>)
    requires
        read_char_in_string(t).0 is Ok,
    ensures
        read_char_in_string(t + x) == (read_char_in_string(t).0, read_char_in_string(t).1 + x),
{
    assert((t + x)[0] == t[0]);
    if t[0] == '\\' {
        assert((t + x)[1] == t[1]);
        assert((t + x).skip(2) =~= t.skip(2) + x);
    } else {
        assert((t + x).skip(1) =~= t.skip(1) + x);
    }
}

proof fn lemma_string_body_extend(t: Seq<char>, x: Seq<char>)
    requires
        read_string_body(t).0 is Ok,
    ensures
        read_string_body(t + x) == (read_string_body(t).0, read_string_body(t).1 + x),
    decreases t.len(),
{
    let (c, rest) = read_char_in_string(t);
    lemma_char_in_string_extend(t, x);
    if c->Ok_0 != '\'' {
        crate::reader::lemma_read_string_body(t);
        lemma_string_body_extend(rest, x);
    }
}

proof fn lemma_term_extend(t: Seq<char>, x: Seq<char>)
    requires
        read_term(t).0 is Ok,
        read_term(t).1.len() > 0,
    ensures
        read_term(t + x) == (read_term(t).0, read_term(t).1 + x),
{
    assert((t + x)[0] == t[0]);
    if t[0] == '\'' {
        assert((t + x).drop_first() =~= t.drop_first() + x);
        lemma_string_body_extend(t.drop_first(), x);
    } else {
        lemma_identifier_extend(t, x);
    }
}

proof fn lemma_production_extend(t: Seq<char>, x: Seq<char>)
    requires
        read_production(t).0 is Ok,
    ensures
        read_production(t + x) == (read_production(t).0, read_production(t).1 + x),
    decreases t.len(),
{
    let u = skip_space(t);
    lemma_skip_space(t);
    lemma_skip_space_extend(t, x);
    assert((u + x)[0] == u[0]);
    if u[0] == ';' || u[0] == '|' {
    } else {
        let (sym, r1) = read_term(u);
        lemma_read_term(u);
        lemma_read_production(r1);
        lemma_term_extend(u, x);
        lemma_production_extend(r1, x);
    }
}

proof fn lemma_alternatives_extend(t: Seq<char>, x: Seq<char>)
    requires
        read_alternatives(t).0 is Ok,
    ensures
        read_alternatives(t + x) == (read_alternatives(t).0, read_alternatives(t).1 + x),
    decreases t.len(),
{
    let u = skip_space(t);
    lemma_skip_space(t);
    lemma_skip_space_extend(t, x);
    lemma_read_production(u);
    lemma_production_extend(u, x);
    let r1 = read_production(u).1;
    assert((r1 + x)[0] == r1[0]);
    assert((r1 + x).drop_first() =~= r1.drop_first() + x);
    if r1[0] == '|' {
        lemma_alternatives_extend(r1.drop_first(), x);
    }
}

proof fn lemma_prefix_len_extend(a: Seq<char>, b: Seq<char>, x: Seq<char>)
    requires
        common_prefix_len(a, b) == b.len(),
    ensures
        common_prefix_len(a + x, b) == b.len(),
    decreases b.len(),
{
    lemma_common_prefix_len(a, b);
    if b.len() > 0 {
        assert((a + x)[0] == a[0]);
        assert((a + x).drop_first() =~= a.drop_first() + x);
        lemma_prefix_len_extend(a.drop_first(), b.drop_first(), x);
    }
}

proof fn lemma_line_extend(t: Seq<char>, x: Seq<char>)
    requires
        read_line(t).0 is Ok,
    ensures
        read_line(t + x) == (read_line(t).0, read_line(t).1 + x),
{
    let (id, r0) = read_identifier(t);
    let t1 = skip_space(r0);
    lemma_skip_space(r0);
    lemma_common_prefix_len(t1, arrow());
    assert(t1.len() >= 2);
    lemma_identifier_extend(t, x);
    lemma_skip_space_extend(r0, x);
    lemma_prefix_len_extend(t1, arrow(), x);
    assert((t1 + x).skip(2) =~= t1.skip(2) + x);
    lemma_alternatives_extend(t1.skip(2), x);
}

/// Separators at the end of a grammar text change nothing: a text that is read
/// without error is read the same, with the same rules and no error, when spaces,
/// tabs and newlines follow it.
pub proof fn law_trailing_separators(s: Seq<char>, w: Seq<char>)
    requires
        all_space(w),
    ensures
        read_rules(s).1 is None ==> read_rules(s + w) == read_rules(s),
    decreases s.len(),
{
    if read_rules(s).1 is None {
        let t = skip_space(s);
        lemma_skip_space(s);
        if t.len() == 0 {
            assert(all_space(s));
            lemma_skip_space_over(s, w);
            lemma_skip_space_over(w, Seq::<char>::empty());
            assert(w + Seq::<char>::empty() =~= w);
        } else {
            lemma_skip_space_extend(s, w);
            lemma_read_line(t);
            lemma_line_extend(t, w);
            let r = read_line(t).1;
            law_trailing_separators(r, w);
        }
    }
}

} // verus!
