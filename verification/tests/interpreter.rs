use lang_parser::text::decimal_string;
use lang_parser::{CharStream, Interpreter, NonTerm, NonTerminal, Production, Terminal, TerminalOrNonTerminal};

fn grammar(text: &str) -> Interpreter {
    let mut interp = Interpreter::new();
    assert_eq!(interp.add_interpreter(&text.to_string()), None);
    interp
}

fn parse_debug(interp: &Interpreter, start: &str, input: &str) -> String {
    match interp.parse(&start.to_string(), &input.to_string()) {
        Ok(tree) => format!("{:?}", tree),
        Err(e) => format!("Err({})", e),
    }
}

fn stream_after(input: &str, f: impl Fn(&Interpreter, &mut CharStream)) -> String {
    let interp = Interpreter::new();
    let mut s = CharStream::from_str(input);
    f(&interp, &mut s);
    s.rest()
}

#[test]
fn stream_round_trip_keeps_characters() {
    let s = CharStream::from_str("héllo ✓");
    assert_eq!(s.rest(), "héllo ✓");
    let mut s = CharStream::from_str("ab");
    assert_eq!(s.peek(), Some('a'));
    assert_eq!(s.next(), Some('a'));
    assert_eq!(s.next(), Some('b'));
    assert_eq!(s.next(), None);
    assert_eq!(s.peek(), None);
    assert_eq!(s.rest(), "");
}

#[test]
fn decimal_rendering() {
    assert_eq!(decimal_string(0), "0");
    assert_eq!(decimal_string(7), "7");
    assert_eq!(decimal_string(12), "12");
    assert_eq!(decimal_string(1090), "1090");
    assert_eq!(decimal_string(usize::MAX), usize::MAX.to_string());
}

#[test]
fn whitespace_result_tells_end_of_text() {
    let interp = Interpreter::new();
    let mut s = CharStream::from_str(" \t\n");
    assert!(interp.parse_whitespace(&mut s));
    let mut s = CharStream::from_str("  x ");
    assert!(!interp.parse_whitespace(&mut s));
    assert_eq!(s.rest(), "x ");
    // a carriage return is not a separator
    let mut s = CharStream::from_str("\r x");
    assert!(!interp.parse_whitespace(&mut s));
    assert_eq!(s.rest(), "\r x");
}

#[test]
fn identifier_uses_unicode_letters_and_digits() {
    let interp = Interpreter::new();
    let mut s = CharStream::from_str("éa1٣ rest");
    assert_eq!(interp.parse_identifier(&mut s), Ok("éa1٣".to_string()));
    assert_eq!(s.rest(), " rest");
    let mut s = CharStream::from_str("٣a");
    assert_eq!(
        interp.parse_identifier(&mut s),
        Err("Tried to parse identifier but found '".to_string())
    );
    assert_eq!(s.rest(), "٣a");
}

#[test]
fn specific_id_is_prefix_test() {
    let interp = Interpreter::new();
    let key = "abc".to_string();
    let mut s = CharStream::from_str("abcdef");
    assert!(interp.parse_specific_id(&mut s, &key));
    assert_eq!(s.rest(), "def");
    let mut s = CharStream::from_str("abxdef");
    assert!(!interp.parse_specific_id(&mut s, &key));
    assert_eq!(s.rest(), "xdef");
    let empty = String::new();
    let mut s = CharStream::from_str("abc");
    assert!(interp.parse_specific_id(&mut s, &empty));
    assert_eq!(s.rest(), "abc");
}

#[test]
fn char_in_string_escapes_and_errors() {
    let interp = Interpreter::new();
    let mut s = CharStream::from_str("\\\\x");
    assert_eq!(interp.parse_char_in_string(&mut s), Ok('\\'));
    assert_eq!(s.rest(), "x");
    let mut s = CharStream::from_str("\\n");
    assert_eq!(interp.parse_char_in_string(&mut s), Ok('\n'));
    let mut s = CharStream::from_str("\\t");
    assert_eq!(interp.parse_char_in_string(&mut s), Ok('\t'));
    let mut s = CharStream::from_str("\\qrest");
    assert_eq!(
        interp.parse_char_in_string(&mut s),
        Err("Unknown character after \\ in string.".to_string())
    );
    assert_eq!(s.rest(), "rest");
    let mut s = CharStream::from_str("\\");
    assert_eq!(
        interp.parse_char_in_string(&mut s),
        Err("EOF reached parsing character after \\ in string.".to_string())
    );
    assert_eq!(s.rest(), "");
    let mut s = CharStream::from_str("");
    assert_eq!(
        interp.parse_char_in_string(&mut s),
        Err("EOF reached parsing char in string".to_string())
    );
}

#[test]
fn quoted_text_reads_back_as_itself() {
    let interp = Interpreter::new();
    for body in ["", "abc", "hello world", "-> | ;"] {
        let text = format!("'{}'tail", body);
        let mut s = CharStream::from_str(&text);
        assert_eq!(interp.parse_string(&mut s), Ok(body.to_string()));
        assert_eq!(s.rest(), "tail");
    }
    let mut s = CharStream::from_str("'a\\qb'");
    assert_eq!(
        interp.parse_string(&mut s),
        Err("Unknown character after \\ in string.".to_string())
    );
    assert_eq!(s.rest(), "b'");
}

#[test]
fn term_nonterm_errors() {
    let interp = Interpreter::new();
    let mut s = CharStream::from_str("");
    assert_eq!(
        interp.parse_term_nonterm(&mut s),
        Err("Found EOF when parsing term or nonterminal.".to_string())
    );
    let mut s = CharStream::from_str("%x");
    assert_eq!(
        interp.parse_term_nonterm(&mut s),
        Err("Unknown character when parsing term or nonterminal.".to_string())
    );
    assert_eq!(s.rest(), "%x");
    let mut s = CharStream::from_str("'open");
    assert_eq!(
        interp.parse_term_nonterm(&mut s),
        Err("EOF reached parsing char in string".to_string())
    );
}

#[test]
fn production_stops_before_separator_and_reports_symbol_errors() {
    let interp = Interpreter::new();
    let mut s = CharStream::from_str("  ;");
    assert_eq!(interp.parse_production(&mut s), Ok(Production { terms: vec![] }));
    assert_eq!(s.rest(), ";");
    let mut s = CharStream::from_str("a % b;");
    assert_eq!(
        interp.parse_production(&mut s),
        Err("Unknown character when parsing term or nonterminal.".to_string())
    );
    assert_eq!(s.rest(), "% b;");
}

#[test]
fn line_reads_a_rule() {
    let rest = stream_after("rule -> 'a' b | c ;next", |interp, s| {
        let expected = NonTerminal {
            name: "rule".to_string(),
            productions: vec![
                Production {
                    terms: vec![
                        TerminalOrNonTerminal::Term(Terminal("a".to_string())),
                        TerminalOrNonTerminal::Non(NonTerm("b".to_string())),
                    ],
                },
                Production { terms: vec![TerminalOrNonTerminal::Non(NonTerm("c".to_string()))] },
            ],
        };
        assert_eq!(interp.parse_line(s), Ok(expected));
    });
    assert_eq!(rest, "next");
}

#[test]
fn line_errors() {
    let interp = Interpreter::new();
    let mut s = CharStream::from_str("4abc -> 'x';");
    assert_eq!(interp.parse_line(&mut s), Err("Tried to parse identifier but found '".to_string()));
    let mut s = CharStream::from_str("program -'x';");
    assert_eq!(interp.parse_line(&mut s), Err("Expected -> while parsing line.".to_string()));
    assert_eq!(s.rest(), "'x';");
    let mut s = CharStream::from_str("program -> 'x'");
    assert_eq!(
        interp.parse_line(&mut s),
        Err("Forgot a semicolon while parsing a production".to_string())
    );
    let mut s = CharStream::from_str("program -> 'x' | ");
    assert_eq!(interp.parse_line(&mut s), Err("Forgot a semicolon while parsing line.".to_string()));
}

#[test]
fn add_interpreter_errors_keep_earlier_rules() {
    let mut interp = Interpreter::new();
    let r = interp.add_interpreter(&"a -> 'x';\nb -> 'y'".to_string());
    assert_eq!(r, Some("Forgot a semicolon while parsing a production".to_string()));
    assert_eq!(parse_debug(&interp, "a", "x"), "LanguageProduction { name: \"a\", index: 0, productions: [Term(Terminal(\"x\"))] }");
    assert_eq!(parse_debug(&interp, "b", "y"), "Err(Could not find production given in language.)");
    assert_eq!(grammar("a -> 'x';"), interp);
}

#[test]
fn empty_grammar_text_changes_nothing() {
    let mut interp = Interpreter::new();
    assert_eq!(interp.add_interpreter(&"  \n\t ".to_string()), None);
    assert_eq!(interp, Interpreter::new());
}

#[test]
fn last_definition_wins() {
    let interp = grammar("a -> 'x';\na -> 'y';");
    assert_eq!(parse_debug(&interp, "a", "y"), "LanguageProduction { name: \"a\", index: 0, productions: [Term(Terminal(\"y\"))] }");
    assert_eq!(parse_debug(&interp, "a", "x"), "Err(Could not parse the production a)");
    assert_eq!(interp, grammar("a -> 'y';"));
}

#[test]
fn reading_a_grammar_twice_changes_nothing() {
    let text = "program -> greeting name ;\ngreeting -> 'hello' | 'yo' ;\nname -> 'bob' | 'alice' ;\ngreeting -> 'hey' ;";
    let once = grammar(text);
    let mut twice = grammar(text);
    assert_eq!(twice.add_interpreter(&text.to_string()), None);
    assert_eq!(once, twice);
}

#[test]
fn interpreter_equality_ignores_rule_order() {
    assert_eq!(Interpreter::new(), Interpreter::new());
    assert_eq!(grammar("a -> 'x'; b -> 'y';"), grammar("b -> 'y'; a -> 'x';"));
    assert_ne!(grammar("a -> 'x';"), grammar("a -> 'x' | 'y';"));
    assert_ne!(grammar("a -> 'x';"), grammar("a -> x;"));
    assert_ne!(grammar("a -> 'x';"), grammar("a -> 'x'; b -> 'x';"));
    assert_ne!(grammar("a -> 'x';"), Interpreter::new());
}

#[test]
fn parse_builds_tree() {
    let interp = grammar("program -> greeting name ;\ngreeting -> 'hello' | 'yo' ;\nname -> 'bob' | 'alice' ;");
    assert_eq!(
        parse_debug(&interp, "program", "yoalice!"),
        "LanguageProduction { name: \"program\", index: 0, productions: [Prod(LanguageProduction { name: \"greeting\", index: 1, productions: [Term(Terminal(\"yo\"))] }), Prod(LanguageProduction { name: \"name\", index: 1, productions: [Term(Terminal(\"alice\"))] })] }"
    );
}

#[test]
fn parse_reports_where_it_failed() {
    let interp = grammar("program -> greeting name ;\ngreeting -> 'hello' | 'yo' ;\nname -> 'bob' | 'alice' ;");
    assert_eq!(
        parse_debug(&interp, "program", "hellox"),
        "Err(Could not parse the production name In nonterminal program parsing the 0 production.)"
    );
    assert_eq!(
        parse_debug(&interp, "program", "help"),
        "Err(Error trying to parse production. Trying to parse 'hello'. Recieved charater 'p' In nonterminal greeting parsing the 0 production. In nonterminal program parsing the 0 production.)"
    );
    assert_eq!(
        parse_debug(&interp, "program", "yob"),
        "Err(Error trying to parse production. Trying to parse 'bob'. Reached EOF. In nonterminal name parsing the 0 production. In nonterminal program parsing the 0 production.)"
    );
    assert_eq!(parse_debug(&interp, "missing", "hello"), "Err(Could not find production given in language.)");
    assert_eq!(parse_debug(&interp, "program", ""), "Err(Could not parse the production program)");
}

#[test]
fn error_names_alternative_in_decimal() {
    let interp = grammar("r -> 'a'|'b'|'c'|'d'|'e'|'f'|'g'|'h'|'i'|'j'|'k'|'l'|'mz';");
    assert_eq!(
        parse_debug(&interp, "r", "my"),
        "Err(Error trying to parse production. Trying to parse 'mz'. Recieved charater 'y' In nonterminal r parsing the 12 production.)"
    );
}

#[test]
fn unknown_names_in_alternatives_are_passed_over() {
    let interp = grammar("program -> 'a' missing 'b' ;");
    assert_eq!(
        parse_debug(&interp, "program", "ab"),
        "LanguageProduction { name: \"program\", index: 0, productions: [Term(Terminal(\"a\")), Term(Terminal(\"b\"))] }"
    );
}

#[test]
fn empty_terminal_and_empty_alternative() {
    // an empty alternative is never tried; an empty terminal always is
    let interp = grammar("a -> | 'x' ; b -> '' 'y' ;");
    assert_eq!(parse_debug(&interp, "a", ""), "Err(Could not parse the production a)");
    assert_eq!(parse_debug(&interp, "a", "x"), "LanguageProduction { name: \"a\", index: 1, productions: [Term(Terminal(\"x\"))] }");
    assert_eq!(
        parse_debug(&interp, "b", "y"),
        "LanguageProduction { name: \"b\", index: 0, productions: [Term(Terminal(\"\")), Term(Terminal(\"y\"))] }"
    );
}

#[test]
fn parse_reads_only_a_prefix() {
    let interp = grammar("digits -> '1' digits | '2' ;");
    assert_eq!(
        parse_debug(&interp, "digits", "12 and more"),
        "LanguageProduction { name: \"digits\", index: 0, productions: [Term(Terminal(\"1\")), Prod(LanguageProduction { name: \"digits\", index: 1, productions: [Term(Terminal(\"2\"))] })] }"
    );
}

#[test]
fn depth_bound_and_its_monotonicity() {
    let interp = grammar("digits -> '1' digits | '2' ;");
    let start = "digits".to_string();
    let input = "1112".to_string();
    assert!(interp.parse_with_depth(&start, &input, 2).is_none());
    let at3 = interp.parse_with_depth(&start, &input, 3).expect("deep enough");
    let at100 = interp.parse_with_depth(&start, &input, 100).expect("deep enough");
    assert_eq!(format!("{:?}", at3), format!("{:?}", at100));
    assert_eq!(format!("{:?}", at3), format!("{:?}", interp.parse(&start, &input)));
}

#[test]
fn left_recursion_never_completes() {
    let interp = grammar("a -> a 'x' ;");
    assert!(interp.parse_with_depth(&"a".to_string(), &"xx".to_string(), 50).is_none());
    let interp = grammar("a -> b a ; b -> '' ;");
    assert!(interp.parse_with_depth(&"a".to_string(), &"xx".to_string(), 50).is_none());
}

#[test]
fn rules_lists_each_name_once() {
    let interp = grammar("a -> 'x'; b -> 'y'; a -> 'z';");
    let mut names: Vec<String> = interp.rules().iter().map(|nt| nt.name.clone()).collect();
    names.sort();
    assert_eq!(names, vec!["a".to_string(), "b".to_string()]);
    let a = interp.rules().iter().find(|nt| nt.name == "a").unwrap();
    assert_eq!(
        a.productions,
        vec![Production { terms: vec![TerminalOrNonTerminal::Term(Terminal("z".to_string()))] }]
    );
}

#[test]
fn ranked_grammar_completes_within_computed_depth() {
    // ranks: greeting 0, name 0, program 1; bound 2
    let interp = grammar("program -> greeting name ;\ngreeting -> 'hello' | 'yo' ;\nname -> 'bob' | 'alice' ;");
    let bound: u64 = 2;
    for input in ["", "yo", "helloalice", "yobobby", "xyz"] {
        let depth = (input.chars().count() as u64) * (bound + 1) + bound + 1;
        assert!(interp.parse_with_depth(&"program".to_string(), &input.to_string(), depth).is_some());
    }
    // digits -> '1' digits | '2' : rank 0, bound 1
    let interp = grammar("digits -> '1' digits | '2' ;");
    let input = "1111111112";
    let depth = (input.len() as u64) * 2 + 2;
    assert!(interp.parse_with_depth(&"digits".to_string(), &input.to_string(), depth).is_some());
}

#[test]
fn stall_reports_rule_and_next_character() {
    let interp = grammar("program -> greeting name ;\ngreeting -> 'hello' | 'yo' ;\nname -> 'bob' | 'alice' ;");
    let run = |input: &str| {
        interp
            .parse_with_depth_reporting(&"program".to_string(), &input.to_string(), 100)
            .expect("deep enough")
    };
    let (r, stall) = run("hellox");
    assert!(r.is_err());
    assert_eq!(stall, Some(("name".to_string(), Some('x'))));
    let (r, stall) = run("");
    assert_eq!(r.unwrap_err(), "Could not parse the production program");
    assert_eq!(stall, Some(("program".to_string(), None)));
    // a terminal that does not match is no stall
    let (r, stall) = run("help");
    assert!(r.is_err());
    assert_eq!(stall, None);
    // success reports none
    let (r, stall) = run("yobob");
    assert!(r.is_ok());
    assert_eq!(stall, None);
    // unknown start rule reports none
    let (r, stall) = interp
        .parse_with_depth_reporting(&"missing".to_string(), &"x".to_string(), 100)
        .expect("deep enough");
    assert_eq!(r.unwrap_err(), "Could not find production given in language.");
    assert_eq!(stall, None);
}
