//! Reading grammars from text.
//!
//! A grammar text is a sequence of rules `name -> alt | alt ... ;`, where each
//! alternative is a sequence of quoted terminals (`'text'`, with the escapes
//! `\\`, `\n`, `\t`) and rule names (a letter followed by letters and digits),
//! separated by spaces, tabs and newlines.
//!
//! Each reader below is given as a spec function from the text to a pair: what
//! was read (or the error message) and what is left of the text.

use vstd::prelude::*;
use crate::grammar::{Grammar, Production, NonTerminal, Rule, Symbol, Terminal, NonTerm, TerminalOrNonTerminal, Interpreter};
use crate::stream::{CharStream, push_char};
use crate::text::{char_is_alphabetic, char_is_alphanumeric, letter, letter_or_digit};

verus! {

broadcast use vstd::string::group_string_axioms;

/// What a reader gives back: the value read or an error message, and the text left.
pub type Reading<T> = (Result<T, Seq<char>>, Seq<char>);

/// The view of a result whose error is a string.
pub open spec fn result_view<T: View>(r: Result<T, String>) -> Result<T::V, Seq<char>> {
    match r {
        Ok(v) => Ok(v@),
        Err(e) => Err(e@),
    }
}

/// Puts `p` in front of a successful sequence result.
pub open spec fn prefix_ok<T>(p: Seq<T>, r: Reading<Seq<T>>) -> Reading<Seq<T>> {
    match r.0 {
        Ok(v) => (Ok(p + v), r.1),
        Err(e) => (Err(e), r.1),
    }
}

// ---------------------------------------------------------------- whitespace

/// The characters that separate tokens.
pub open spec fn is_space(c: char) -> bool {
    c == ' ' || c == '\n' || c == '\t'
}

/// `s` without its leading run of separating characters.
pub open spec fn skip_space(s: Seq<char>) -> Seq<char>
    decreases s.len(),
{
    if s.len() > 0 && is_space(s[0]) {
        skip_space(s.drop_first())
    } else {
        s
    }
}

/// Skipping separators drops exactly the leading run of separators: what is
/// left is the end of the text, everything dropped is a separator, what is left
/// does not start with one, and skipping again changes nothing.
pub proof fn lemma_skip_space(s: Seq<char>)
    ensures
        skip_space(s).len() <= s.len(),
        skip_space(s) == s.skip(s.len() - skip_space(s).len()),
        forall|i: int| 0 <= i < s.len() - skip_space(s).len() ==> is_space(#[trigger] s[i]),
        skip_space(s).len() > 0 ==> !is_space(skip_space(s)[0]),
        skip_space(skip_space(s)) == skip_space(s),
    decreases s.len(),
{
    if s.len() > 0 && is_space(s[0]) {
        lemma_skip_space(s.drop_first());
        let t = skip_space(s);
        assert(s.drop_first().skip(s.drop_first().len() - t.len()) =~= s.skip(s.len() - t.len()));
        assert forall|i: int| 0 <= i < s.len() - t.len() implies is_space(#[trigger] s[i]) by {
            if i > 0 {
                assert(s[i] == s.drop_first()[i - 1]);
            }
        }
    } else {
        assert(s.skip(0) =~= s);
    }
}

// ---------------------------------------------------------------- identifiers

/// The length of the leading run of alphanumeric characters of `s`.
pub open spec fn alnum_run(s: Seq<char>) -> nat
    decreases s.len(),
{
    if s.len() > 0 && letter_or_digit(s[0]) {
        1 + alnum_run(s.drop_first())
    } else {
        0
    }
}

/// The alphanumeric run is the longest front part of the text made of
/// alphanumeric characters.
pub proof fn lemma_alnum_run(s: Seq<char>)
    ensures
        alnum_run(s) <= s.len(),
        forall|i: int| 0 <= i < alnum_run(s) ==> letter_or_digit(#[trigger] s[i]),
        alnum_run(s) < s.len() ==> !letter_or_digit(s[alnum_run(s) as int]),
    decreases s.len(),
{
    if s.len() > 0 && letter_or_digit(s[0]) {
        lemma_alnum_run(s.drop_first());
        assert forall|i: int| 0 <= i < alnum_run(s) implies letter_or_digit(#[trigger] s[i]) by {
            if i > 0 {
                assert(s[i] == s.drop_first()[i - 1]);
            }
        }
    }
}

pub open spec fn msg_nothing_to_parse() -> Seq<char> {
    "Nothing to parse here"@
}

pub open spec fn msg_not_identifier() -> Seq<char> {
    "Tried to parse identifier but found '"@
}

/// An identifier: an alphabetic character followed by the longest run of
/// alphanumeric characters. On an error nothing is consumed.
pub open spec fn read_identifier(s: Seq<char>) -> Reading<Seq<char>> {
    if s.len() == 0 {
        (Err(msg_nothing_to_parse()), s)
    } else if !letter(s[0]) {
        (Err(msg_not_identifier()), s)
    } else {
        let n = 1 + alnum_run(s.drop_first());
        (Ok(s.take(n as int)), s.skip(n as int))
    }
}

// ---------------------------------------------------------------- fixed words

/// The number of leading positions at which `a` and `b` agree.
pub open spec fn common_prefix_len(a: Seq<char>, b: Seq<char>) -> nat
    decreases a.len(),
{
    if a.len() > 0 && b.len() > 0 && a[0] == b[0] {
        1 + common_prefix_len(a.drop_first(), b.drop_first())
    } else {
        0
    }
}

/// The common prefix length is the length of the longest front part on which
/// both texts agree.
pub proof fn lemma_common_prefix_len(a: Seq<char>, b: Seq<char>)
    ensures
        common_prefix_len(a, b) <= a.len(),
        common_prefix_len(a, b) <= b.len(),
        a.take(common_prefix_len(a, b) as int) == b.take(common_prefix_len(a, b) as int),
        common_prefix_len(a, b) < a.len() && common_prefix_len(a, b) < b.len() ==> a[common_prefix_len(
            a,
            b,
        ) as int] != b[common_prefix_len(a, b) as int],
    decreases a.len(),
{
    if a.len() > 0 && b.len() > 0 && a[0] == b[0] {
        lemma_common_prefix_len(a.drop_first(), b.drop_first());
        let n = common_prefix_len(a, b) as int;
        assert(a.take(n) =~= seq![a[0]] + a.drop_first().take(n - 1));
        assert(b.take(n) =~= seq![b[0]] + b.drop_first().take(n - 1));
    } else {
        assert(a.take(0) =~= b.take(0));
    }
}

// ---------------------------------------------------------------- quoted terminals

pub open spec fn msg_eof_in_string() -> Seq<char> {
    "EOF reached parsing char in string"@
}

pub open spec fn msg_eof_after_backslash() -> Seq<char> {
    "EOF reached parsing character after \\ in string."@
}

pub open spec fn msg_unknown_escape() -> Seq<char> {
    "Unknown character after \\ in string."@
}

pub open spec fn msg_no_characters() -> Seq<char> {
    "Their was no characters."@
}

pub open spec fn msg_no_opening_quote() -> Seq<char> {
    "First character was not '"@
}

/// One character inside a quoted terminal, with the escapes `\\`, `\n` and `\t`.
pub open spec fn read_char_in_string(s: Seq<char>) -> Reading<char> {
    if s.len() == 0 {
        (Err(msg_eof_in_string()), s)
    } else if s[0] == '\\' {
        if s.len() < 2 {
            (Err(msg_eof_after_backslash()), s.skip(1))
        } else if s[1] == '\\' {
            (Ok('\\'), s.skip(2))
        } else if s[1] == 'n' {
            (Ok('\n'), s.skip(2))
        } else if s[1] == 't' {
            (Ok('\t'), s.skip(2))
        } else {
            (Err(msg_unknown_escape()), s.skip(2))
        }
    } else {
        (Ok(s[0]), s.skip(1))
    }
}

/// The characters of a quoted terminal after its opening quote, up to and
/// including the closing quote (which is consumed but not returned).
pub open spec fn read_string_body(s: Seq<char>) -> Reading<Seq<char>>
    decreases s.len(),
{
    let (c, rest) = read_char_in_string(s);
    match c {
        Err(e) => (Err(e), rest),
        Ok(c) => if c == '\'' {
            (Ok(Seq::empty()), rest)
        } else {
            prefix_ok(seq![c], read_string_body(rest))
        },
    }
}

/// A quoted terminal `'...'`.
pub open spec fn read_string(s: Seq<char>) -> Reading<Seq<char>> {
    if s.len() == 0 {
        (Err(msg_no_characters()), s)
    } else if s[0] != '\'' {
        (Err(msg_no_opening_quote()), s)
    } else {
        read_string_body(s.drop_first())
    }
}

/// Reading a quoted terminal leaves an end part of the text, and a terminal that
/// is read consumes at least one character.
pub proof fn lemma_read_string_body(s: Seq<char>)
    ensures
        read_string_body(s).1.len() <= s.len(),
        read_string_body(s).1 == s.skip(s.len() - read_string_body(s).1.len()),
        read_string_body(s).0 is Ok ==> read_string_body(s).1.len() < s.len(),
    decreases s.len(),
{
    let (c, rest) = read_char_in_string(s);
    match c {
        Err(e) => {},
        Ok(c) => {
            if c != '\'' {
                lemma_read_string_body(rest);
                let r = read_string_body(rest).1;
                assert(rest.skip(rest.len() - r.len()) =~= s.skip(s.len() - r.len()));
            }
        },
    }
}

// ---------------------------------------------------------------- symbols

pub open spec fn msg_unknown_symbol() -> Seq<char> {
    "Unknown character when parsing term or nonterminal."@
}

pub open spec fn msg_eof_symbol() -> Seq<char> {
    "Found EOF when parsing term or nonterminal."@
}

/// A symbol: a quoted terminal or a rule name.
pub open spec fn read_term(s: Seq<char>) -> Reading<Symbol> {
    if s.len() == 0 {
        (Err(msg_eof_symbol()), s)
    } else if s[0] == '\'' {
        match read_string(s) {
            (Ok(t), r) => (Ok(Symbol::Terminal(t)), r),
            (Err(e), r) => (Err(e), r),
        }
    } else if letter(s[0]) {
        match read_identifier(s) {
            (Ok(n), r) => (Ok(Symbol::Nonterminal(n)), r),
            (Err(e), r) => (Err(e), r),
        }
    } else {
        (Err(msg_unknown_symbol()), s)
    }
}

/// Reading a symbol leaves an end part of the text, and a symbol that is read
/// consumes at least one character.
pub proof fn lemma_read_term(s: Seq<char>)
    ensures
        read_term(s).1.len() <= s.len(),
        read_term(s).1 == s.skip(s.len() - read_term(s).1.len()),
        read_term(s).0 is Ok ==> read_term(s).1.len() < s.len(),
{
    if s.len() > 0 && s[0] == '\'' {
        lemma_read_string_body(s.drop_first());
        let r = read_term(s).1;
        assert(s.drop_first().skip(s.drop_first().len() - r.len()) =~= s.skip(s.len() - r.len()));
    } else if s.len() > 0 && letter(s[0]) {
        lemma_alnum_run(s.drop_first());
    } else {
        assert(s.skip(0) =~= s);
    }
}

// ---------------------------------------------------------------- alternatives

pub open spec fn msg_no_semicolon_in_production() -> Seq<char> {
    "Forgot a semicolon while parsing a production"@
}

/// One alternative: symbols up to (not including) the next `;` or `|`.
pub open spec fn read_production(s: Seq<char>) -> Reading<Seq<Symbol>>
    decreases s.len(),
{
    let t = skip_space(s);
    if t.len() == 0 {
        (Err(msg_no_semicolon_in_production()), t)
    } else if t[0] == ';' || t[0] == '|' {
        (Ok(Seq::empty()), t)
    } else {
        proof {
            lemma_skip_space(s);
            lemma_read_term(t);
        }
        match read_term(t) {
            (Err(e), r) => (Err(e), r),
            (Ok(sym), r) => prefix_ok(seq![sym], read_production(r)),
        }
    }
}

/// Reading an alternative leaves an end part of the text, and an alternative
/// that is read is followed by `;` or `|`.
pub proof fn lemma_read_production(s: Seq<char>)
    ensures
        read_production(s).1.len() <= s.len(),
        read_production(s).1 == s.skip(s.len() - read_production(s).1.len()),
        read_production(s).0 is Ok ==> {
            let r = read_production(s).1;
            r.len() > 0 && (r[0] == ';' || r[0] == '|')
        },
    decreases s.len(),
{
    let t = skip_space(s);
    lemma_skip_space(s);
    if t.len() == 0 || t[0] == ';' || t[0] == '|' {
    } else {
        lemma_read_term(t);
        let (sym, r) = read_term(t);
        if sym is Ok {
            lemma_read_production(r);
            let r2 = read_production(r).1;
            assert(r.skip(r.len() - r2.len()) =~= s.skip(s.len() - r2.len()));
        } else {
            assert(t.skip(t.len() - r.len()) =~= s.skip(s.len() - r.len()));
        }
    }
}

// ---------------------------------------------------------------- rules

pub open spec fn msg_no_arrow() -> Seq<char> {
    "Expected -> while parsing line."@
}

pub open spec fn msg_no_semicolon_in_line() -> Seq<char> {
    "Forgot a semicolon while parsing line."@
}

/// The arrow between a rule's name and its alternatives.
pub open spec fn arrow() -> Seq<char> {
    seq!['-', '>']
}

/// Alternatives separated by `|` and closed by `;` (which is consumed).
pub open spec fn read_alternatives(s: Seq<char>) -> Reading<Seq<Seq<Symbol>>>
    decreases s.len(),
{
    let t = skip_space(s);
    if t.len() == 0 {
        (Err(msg_no_semicolon_in_line()), t)
    } else {
        proof {
            lemma_skip_space(s);
            lemma_read_production(t);
        }
        match read_production(t) {
            (Err(e), r) => (Err(e), r),
            (Ok(p), r) => if r.len() > 0 && r[0] == '|' {
                prefix_ok(seq![p], read_alternatives(r.drop_first()))
            } else {
                (Ok(seq![p]), r.drop_first())
            },
        }
    }
}

/// Reading alternatives never lengthens the text.
pub proof fn lemma_read_alternatives(s: Seq<char>)
    ensures
        read_alternatives(s).1.len() <= s.len(),
    decreases s.len(),
{
    let t = skip_space(s);
    lemma_skip_space(s);
    if t.len() > 0 {
        lemma_read_production(t);
        let (p, r) = read_production(t);
        if p is Ok && r.len() > 0 && r[0] == '|' {
            lemma_read_alternatives(r.drop_first());
        }
    }
}

/// A rule: `name -> alternatives ;`.
pub open spec fn read_line(s: Seq<char>) -> Reading<Rule> {
    match read_identifier(s) {
        (Err(e), r) => (Err(e), r),
        (Ok(name), r) => {
            let t = skip_space(r);
            let n = common_prefix_len(t, arrow());
            if n < arrow().len() {
                (Err(msg_no_arrow()), t.skip(n as int))
            } else {
                match read_alternatives(t.skip(n as int)) {
                    (Ok(alts), r2) => (Ok(Rule { name, alternatives: alts }), r2),
                    (Err(e), r2) => (Err(e), r2),
                }
            }
        },
    }
}

/// A rule that is read consumes at least one character.
pub proof fn lemma_read_line(s: Seq<char>)
    ensures
        read_line(s).0 is Ok ==> read_line(s).1.len() < s.len(),
{
    let (id, r) = read_identifier(s);
    if id is Ok {
        lemma_alnum_run(s.drop_first());
        let t = skip_space(r);
        lemma_skip_space(r);
        let n = common_prefix_len(t, arrow());
        lemma_common_prefix_len(t, arrow());
        if n >= arrow().len() {
            lemma_read_alternatives(t.skip(n as int));
        }
    }
}

/// All rules of a grammar text: the rules read before the first error, and that
/// error, if any.
pub open spec fn read_rules(s: Seq<char>) -> (Seq<Rule>, Option<Seq<char>>)
    decreases s.len(),
{
    let t = skip_space(s);
    if t.len() == 0 {
        (Seq::empty(), None)
    } else {
        proof {
            lemma_skip_space(s);
            lemma_read_line(t);
        }
        match read_line(t) {
            (Err(e), _) => (Seq::empty(), Some(e)),
            (Ok(rule), r) => {
                let (rules, err) = read_rules(r);
                (seq![rule] + rules, err)
            },
        }
    }
}

/// `g` with `rules` put in it one after another, each in place of any rule of
/// the same name.
pub open spec fn insert_rules(g: Grammar, rules: Seq<Rule>) -> Grammar
    decreases rules.len(),
{
    if rules.len() == 0 {
        g
    } else {
        insert_rules(g, rules.drop_last()).insert(rules.last().name, rules.last().alternatives)
    }
}

/// The view of an optional string.
pub open spec fn option_view(o: Option<String>) -> Option<Seq<char>> {
    match o {
        Some(s) => Some(s@),
        None => None,
    }
}

/// Putting `b` and then `a` in front is putting `a + b` in front.
pub proof fn lemma_prefix_ok_assoc<T>(a: Seq<T>, b: Seq<T>, x: Reading<Seq<T>>)
    ensures
        prefix_ok(a, prefix_ok(b, x)) == prefix_ok(a + b, x),
{
    if let Ok(v) = x.0 {
        assert(a + (b + v) =~= (a + b) + v);
    }
}

proof fn lemma_read_rules_skip(s: Seq<char>)
    ensures
        read_rules(skip_space(s)) == read_rules(s),
{
    lemma_skip_space(s);
}

impl Interpreter {
    /// Skips spaces, tabs and newlines; tells whether the text is then used up.
    pub fn parse_whitespace(&self, lines: &mut CharStream) -> (r: bool)
        ensures
            final(lines)@ == skip_space(old(lines)@),
            r == (final(lines)@.len() == 0),
    {
        let ghost s0 = lines@;
        loop
            invariant
                skip_space(lines@) == skip_space(s0),
            ensures
                lines@ == skip_space(s0),
            decreases lines@.len(),
        {
            match lines.peek() {
                Some(c) => {
                    if c == ' ' || c == '\n' || c == '\t' {
                        lines.next();
                    } else {
                        break;
                    }
                },
                None => {
                    break;
                },
            }
        }
        match lines.peek() {
            Some(_) => false,
            None => true,
        }
    }

    /// Reads an identifier: an alphabetic character, then alphanumeric ones.
    pub fn parse_identifier(&self, lines: &mut CharStream) -> (r: Result<String, String>)
        ensures
            (result_view(r), final(lines)@) == read_identifier(old(lines)@),
    {
        let ghost s0 = lines@;
        let mut r = String::new();
        match lines.peek() {
            Some(c) => {
                if !char_is_alphabetic(c) {
                    return Err("Tried to parse identifier but found '".to_string());
                }
                push_char(&mut r, c);
                lines.next();
            },
            None => {
                return Err("Nothing to parse here".to_string());
            },
        }
        let ghost mut k: int = 1;
        proof {
            assert(r@ =~= s0.take(1));
            assert(lines@ =~= s0.drop_first());
            assert(s0.drop_first() =~= s0.skip(1));
        }
        loop
            invariant
                1 <= k <= s0.len(),
                r@ == s0.take(k),
                lines@ == s0.skip(k),
                1 + alnum_run(s0.drop_first()) == k + alnum_run(lines@),
            ensures
                r@ == s0.take(1 + alnum_run(s0.drop_first()) as int),
                lines@ == s0.skip(1 + alnum_run(s0.drop_first()) as int),
            decreases lines@.len(),
        {
            match lines.peek() {
                Some(c) => {
                    if char_is_alphanumeric(c) {
                        push_char(&mut r, c);
                        lines.next();
                        proof {
                            assert(s0.take(k).push(c) =~= s0.take(k + 1));
                            assert(s0.skip(k).drop_first() =~= s0.skip(k + 1));
                            k = k + 1;
                        }
                    } else {
                        break;
                    }
                },
                None => {
                    break;
                },
            }
        }
        Ok(r)
    }

    /// Reads the text of `id` if the input starts with it. Matching characters
    /// are consumed up to the first mismatch, whatever the answer.
    #[verifier::loop_isolation(false)]
    pub fn parse_specific_id(&self, lines: &mut CharStream, id: &String) -> (r: bool)
        ensures
            r == (common_prefix_len(old(lines)@, id@) == id@.len()),
            final(lines)@ == old(lines)@.skip(common_prefix_len(old(lines)@, id@) as int),
    {
        let ghost s0 = lines@;
        let mut itr2 = CharStream::from_str(id.as_str());
        let ghost mut k: int = 0;
        proof {
            assert(s0.skip(0) =~= s0);
            assert(id@.skip(0) =~= id@);
        }
        loop
            invariant
                0 <= k <= s0.len(),
                k <= id@.len(),
                lines@ == s0.skip(k),
                itr2@ == id@.skip(k),
                common_prefix_len(s0, id@) == k + common_prefix_len(lines@, itr2@),
            decreases lines@.len(),
        {
            match (lines.peek(), itr2.peek()) {
                (Some(c1), Some(c2)) => {
                    if c1 != c2 {
                        return false;
                    } else {
                        lines.next();
                        itr2.next();
                        proof {
                            assert(s0.skip(k).drop_first() =~= s0.skip(k + 1));
                            assert(id@.skip(k).drop_first() =~= id@.skip(k + 1));
                            k = k + 1;
                        }
                    }
                },
                (_, None) => {
                    return true;
                },
                _ => {
                    return false;
                },
            }
        }
    }

    /// Reads one character of a quoted terminal, resolving `\\`, `\n` and `\t`.
    pub fn parse_char_in_string(&self, lines: &mut CharStream) -> (r: Result<char, String>)
        ensures
            (result_view(r), final(lines)@) == read_char_in_string(old(lines)@),
    {
        let ghost s0 = lines@;
        if let Some(c) = lines.next() {
            if c == '\\' {
                let n = lines.next();
                proof {
                    assert(s0.drop_first() =~= s0.skip(1));
                    if s0.len() >= 2 {
                        assert(s0.skip(1).drop_first() =~= s0.skip(2));
                    }
                }
                match n {
                    Some('\\') => Ok('\\'),
                    Some('n') => Ok('\n'),
                    Some('t') => Ok('\t'),
                    Some(_) => Err("Unknown character after \\ in string.".to_string()),
                    None => Err("EOF reached parsing character after \\ in string.".to_string()),
                }
            } else {
                proof {
                    assert(s0.drop_first() =~= s0.skip(1));
                }
                Ok(c)
            }
        } else {
            Err("EOF reached parsing char in string".to_string())
        }
    }

    /// Reads a quoted terminal `'...'`.
    #[verifier::loop_isolation(false)]
    pub fn parse_string(&self, lines: &mut CharStream) -> (r: Result<String, String>)
        ensures
            (result_view(r), final(lines)@) == read_string(old(lines)@),
    {
        let ghost s0 = lines@;
        let mut r = String::new();
        match lines.peek() {
            Some(c) => {
                if c != '\'' {
                    return Err("First character was not '".to_string());
                }
                lines.next();
            },
            None => {
                return Err("Their was no characters.".to_string());
            },
        }
        proof {
            assert(prefix_ok(r@, read_string_body(lines@)) == read_string_body(lines@)) by {
                if let Ok(v) = read_string_body(lines@).0 {
                    assert(r@ + v =~= v);
                }
            }
        }
        loop
            invariant
                read_string(s0) == prefix_ok(r@, read_string_body(lines@)),
            decreases lines@.len(),
        {
            match self.parse_char_in_string(lines) {
                Ok(c) => {
                    if c == '\'' {
                        proof {
                            assert(r@ + Seq::<char>::empty() =~= r@);
                        }
                        return Ok(r);
                    }
                    let ghost r0 = r@;
                    push_char(&mut r, c);
                    proof {
                        lemma_prefix_ok_assoc(r0, seq![c], read_string_body(lines@));
                        assert(r0 + seq![c] =~= r@);
                    }
                },
                Err(e) => {
                    return Err(e);
                },
            }
        }
    }

    /// Reads a symbol: a quoted terminal or a rule name.
    pub fn parse_term_nonterm(&self, lines: &mut CharStream) -> (r: Result<TerminalOrNonTerminal, String>)
        ensures
            (result_view(r), final(lines)@) == read_term(old(lines)@),
    {
        match lines.peek() {
            Some(c) => {
                if c == '\'' {
                    match self.parse_string(lines) {
                        Ok(s) => Ok(TerminalOrNonTerminal::Term(Terminal(s))),
                        Err(e) => Err(e),
                    }
                } else if char_is_alphabetic(c) {
                    match self.parse_identifier(lines) {
                        Ok(s) => Ok(TerminalOrNonTerminal::Non(NonTerm(s))),
                        Err(e) => Err(e),
                    }
                } else {
                    Err("Unknown character when parsing term or nonterminal.".to_string())
                }
            },
            None => Err("Found EOF when parsing term or nonterminal.".to_string()),
        }
    }

    /// Reads one alternative: symbols up to the next `;` or `|`, which is left unread.
    #[verifier::loop_isolation(false)]
    pub fn parse_production(&self, lines: &mut CharStream) -> (r: Result<Production, String>)
        ensures
            (result_view(r), final(lines)@) == read_production(old(lines)@),
    {
        let ghost s0 = lines@;
        let mut terms: Vec<TerminalOrNonTerminal> = Vec::new();
        proof {
            assert(prefix_ok(Seq::<Symbol>::empty(), read_production(s0)) == read_production(s0)) by {
                if let Ok(v) = read_production(s0).0 {
                    assert(Seq::<Symbol>::empty() + v =~= v);
                }
            }
            assert(terms@.map_values(|t: TerminalOrNonTerminal| t@) =~= Seq::<Symbol>::empty());
        }
        loop
            invariant
                read_production(s0) == prefix_ok(
                    terms@.map_values(|t: TerminalOrNonTerminal| t@),
                    read_production(lines@),
                ),
            decreases lines@.len(),
        {
            let ghost before = lines@;
            self.parse_whitespace(lines);
            proof {
                lemma_skip_space(before);
            }
            match lines.peek() {
                Some(c) => {
                    if c == ';' || c == '|' {
                        proof {
                            let m = terms@.map_values(|t: TerminalOrNonTerminal| t@);
                            assert(m + Seq::<Symbol>::empty() =~= m);
                        }
                        return Ok(Production { terms: terms });
                    } else {
                        let ghost t = lines@;
                        match self.parse_term_nonterm(lines) {
                            Ok(term) => {
                                proof {
                                    lemma_read_term(t);
                                }
                                let ghost m0 = terms@.map_values(|t: TerminalOrNonTerminal| t@);
                                terms.push(term);
                                proof {
                                    lemma_prefix_ok_assoc(m0, seq![term@], read_production(lines@));
                                    assert(m0 + seq![term@] =~= terms@.map_values(
                                        |t: TerminalOrNonTerminal| t@,
                                    ));
                                }
                            },
                            Err(e) => {
                                return Err(e);
                            },
                        }
                    }
                },
                None => {
                    return Err("Forgot a semicolon while parsing a production".to_string());
                },
            }
        }
    }

    /// Reads one rule: `name -> alternative | ... ;`.
    #[verifier::loop_isolation(false)]
    pub fn parse_line(&self, lines: &mut CharStream) -> (r: Result<NonTerminal, String>)
        ensures
            (result_view(r), final(lines)@) == read_line(old(lines)@),
    {
        let identifier = match self.parse_identifier(lines) {
            Ok(id) => id,
            Err(e) => {
                return Err(e);
            },
        };
        self.parse_whitespace(lines);
        let ghost t = lines@;
        let arrow_text = "->".to_string();
        proof {
            reveal_strlit("->");
            assert(arrow_text@ =~= arrow());
            lemma_common_prefix_len(t, arrow());
        }
        if !self.parse_specific_id(lines, &arrow_text) {
            return Err("Expected -> while parsing line.".to_string());
        }
        let ghost s1 = lines@;
        let mut productions: Vec<Production> = Vec::new();
        proof {
            assert(productions@.map_values(|p: Production| p@) =~= Seq::<Seq<Symbol>>::empty());
            assert(prefix_ok(Seq::<Seq<Symbol>>::empty(), read_alternatives(s1)) == read_alternatives(s1)) by {
                if let Ok(v) = read_alternatives(s1).0 {
                    assert(Seq::<Seq<Symbol>>::empty() + v =~= v);
                }
            }
        }
        loop
            invariant
                read_alternatives(s1) == prefix_ok(
                    productions@.map_values(|p: Production| p@),
                    read_alternatives(lines@),
                ),
            decreases lines@.len(),
        {
            let ghost before = lines@;
            self.parse_whitespace(lines);
            proof {
                lemma_skip_space(before);
            }
            match lines.peek() {
                Some(_) => {
                    let ghost t2 = lines@;
                    let ghost m0 = productions@.map_values(|p: Production| p@);
                    let ghost mut pv: Seq<Symbol> = Seq::empty();
                    match self.parse_production(lines) {
                        Ok(production) => {
                            proof {
                                pv = production@;
                            }
                            productions.push(production);
                            proof {
                                lemma_read_production(t2);
                                assert(m0 + seq![pv] =~= productions@.map_values(|p: Production| p@));
                            }
                        },
                        Err(e) => {
                            return Err(e);
                        },
                    }
                    if let Some(c) = lines.peek() {
                        if c == '|' {
                            lines.next();
                            proof {
                                lemma_prefix_ok_assoc(m0, seq![pv], read_alternatives(lines@));
                            }
                        } else if c == ';' {
                            lines.next();
                            return Ok(NonTerminal { name: identifier, productions: productions });
                        }
                    }
                },
                None => {
                    return Err("Forgot a semicolon while parsing line.".to_string());
                },
            }
        }
    }

    /// Reads a grammar text and puts its rules in the grammar, each in place of
    /// any rule of the same name. Stops at the first rule that cannot be read and
    /// returns its error; the rules read before it stay in the grammar.
    pub fn add_interpreter(&mut self, lines: &String) -> (r: Option<String>)
        ensures
            final(self)@ == insert_rules(old(self)@, read_rules(lines@).0),
            option_view(r) == read_rules(lines@).1,
    {
        let mut itr = CharStream::from_str(lines.as_str());
        self.parse_whitespace(&mut itr);
        let ghost mut done: Seq<Rule> = Seq::empty();
        proof {
            lemma_read_rules_skip(lines@);
            lemma_skip_space(lines@);
            assert(done + read_rules(itr@).0 =~= read_rules(itr@).0);
        }
        loop
            invariant
                itr@ == skip_space(itr@),
                read_rules(lines@) == (done + read_rules(itr@).0, read_rules(itr@).1),
                self@ == insert_rules(old(self)@, done),
            ensures
                itr@.len() == 0,
                read_rules(lines@) == (done + read_rules(itr@).0, read_rules(itr@).1),
                self@ == insert_rules(old(self)@, done),
            decreases itr@.len(),
        {
            match itr.peek() {
                None => {
                    break;
                },
                Some(_) => {},
            }
            let ghost t = itr@;
            let result = self.parse_line(&mut itr);
            match result {
                Ok(non_term) => {
                    let ghost rule = non_term@;
                    self.insert(non_term);
                    proof {
                        lemma_read_line(t);
                        let d2 = done.push(rule);
                        assert(d2.drop_last() =~= done);
                        assert(done + (seq![rule] + read_rules(itr@).0) =~= d2 + read_rules(itr@).0);
                        done = d2;
                    }
                },
                Err(e) => {
                    proof {
                        assert(done + Seq::<Rule>::empty() =~= done);
                    }
                    return Some(e);
                },
            }
            let ghost r = itr@;
            self.parse_whitespace(&mut itr);
            proof {
                lemma_read_rules_skip(r);
                lemma_skip_space(r);
            }
        }
        proof {
            assert(done + Seq::<Rule>::empty() =~= done);
        }
        None
    }
}

} // verus!
