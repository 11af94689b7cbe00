use rust_crawler::index::fprocessing::{apply_filter, eval, load_initial, query, try_eval, Filter};
use rust_crawler::index::hash::HashBox;
use rust_crawler::unicode::is_whitespace;
use rust_crawler::index::lexem::{get_tokens, parse_to_lexem, try_parse_to_lexem, Lexem, ParseError};

fn tokens(text: &str) -> String {
    format!("{:?}", get_tokens(text))
}

#[test]
fn tokens_of_a_query() {
    assert_eq!(
        tokens("equals house & ~ (startswith ab)\n"),
        "[Text(\"equals\"), Text(\"house\"), And, Not, LParen, Text(\"startswith\"), Text(\"ab\"), RParen]"
    );
}

#[test]
fn word_at_the_end_of_the_text_is_not_emitted() {
    assert_eq!(tokens("equals house"), "[Text(\"equals\")]");
    assert_eq!(tokens(""), "[]");
}

#[test]
fn characters_of_no_class_are_skipped_inside_words() {
    assert_eq!(tokens("ab1cd "), "[Text(\"abcd\")]");
}

#[test]
fn operators_end_words() {
    assert_eq!(tokens("ab|cd "), "[Text(\"ab\"), Or, Text(\"cd\")]");
}

#[test]
fn operators_are_recognised_by_their_low_sixteen_bits() {
    let c = char::from_u32(0x1007C).unwrap();
    assert_eq!(tokens(&format!("ab{}cd ", c)), "[Text(\"ab\"), Or, Text(\"cd\")]");
}

#[test]
fn single_filter_query() {
    let lx = parse_to_lexem("equals house\n").unwrap();
    assert_eq!(format!("{:?}", lx), "WithFilter(Word(\"house\"))");
}

#[test]
fn binary_operator_takes_the_rest_as_right_operand() {
    let lx = parse_to_lexem("equals aaaa & equals bbbb | equals cccc\n").unwrap();
    assert_eq!(
        format!("{:?}", lx),
        "And(WithFilter(Word(\"aaaa\")), Or(WithFilter(Word(\"bbbb\")), WithFilter(Word(\"cccc\"))))"
    );
}

#[test]
fn parentheses_group_a_left_operand() {
    let lx = parse_to_lexem("(startswith aaaa | endswith bbbb) & ~ equals cccc\n").unwrap();
    assert_eq!(
        format!("{:?}", lx),
        "And(Or(WithFilter(StartsWith(\"aaaa\")), WithFilter(EndsWith(\"bbbb\"))), Not(WithFilter(Word(\"cccc\"))))"
    );
}

#[test]
fn empty_query_reads_as_none() {
    assert!(matches!(try_parse_to_lexem("\n"), Ok(None)));
    assert!(parse_to_lexem("").is_none());
}

#[test]
fn operator_without_left_operand_is_refused() {
    assert_eq!(try_parse_to_lexem("& equals aaaa\n").unwrap_err(), ParseError::MissingOperand);
    assert_eq!(try_parse_to_lexem("equals aaaa |\n").unwrap_err(), ParseError::MissingOperand);
    assert_eq!(try_parse_to_lexem("~\n").unwrap_err(), ParseError::MissingOperand);
}

#[test]
fn filter_name_at_the_end_is_refused() {
    assert_eq!(try_parse_to_lexem("equals\n").unwrap_err(), ParseError::MissingFilterWord);
}

#[test]
fn filter_name_before_an_operator_is_refused() {
    assert_eq!(try_parse_to_lexem("equals & aaaa\n").unwrap_err(), ParseError::FilterWordExpected);
}

#[test]
fn unknown_filter_name_is_refused() {
    assert_eq!(try_parse_to_lexem("contains aaaa\n").unwrap_err(), ParseError::UnknownFilter);
}

fn boxed(words: &[&str], ptr: u64) -> HashBox {
    let mut b = HashBox::new(ptr);
    for w in words {
        b.add_hash(w);
    }
    b
}

#[test]
fn signature_check_without_text() {
    let b = boxed(&["house"], 0);
    let yes = parse_to_lexem("equals house\n").unwrap();
    let no = parse_to_lexem("equals river\n").unwrap();
    let not_no = parse_to_lexem("~ equals river\n").unwrap();
    assert!(eval(&yes, &b, None));
    assert!(!eval(&no, &b, None));
    assert!(eval(&not_no, &b, None));
}

#[test]
fn text_check_reads_the_words_from_the_box_position() {
    let text = b"zero alpha bravo ";
    let b = boxed(&["alpha", "bravo"], 5);
    let word = parse_to_lexem("equals bravo\n").unwrap();
    let prefix = parse_to_lexem("startswith brav\n").unwrap();
    let both = parse_to_lexem("equals alpha & equals bravo\n").unwrap();
    assert!(eval(&word, &b, Some(&text[..])));
    assert!(eval(&prefix, &b, Some(&text[..])));
    assert!(eval(&both, &b, Some(&text[..])));
}

#[test]
fn suffix_filter_checks_leading_bytes_against_the_box() {
    let text = b"alpha bravo ";
    let b = boxed(&["alpha", "bravo"], 0);
    let suffix = parse_to_lexem("endswith ravo\n").unwrap();
    assert!(!eval(&suffix, &b, Some(&text[..])));
    assert!(!eval(&suffix, &b, None));
}

#[test]
fn word_missing_from_the_text_fails_the_text_check() {
    let text = b"alpha charlie ";
    let b = boxed(&["alpha", "bravo"], 0);
    let word = parse_to_lexem("equals bravo\n").unwrap();
    assert!(eval(&word, &b, None));
    assert!(!eval(&word, &b, Some(&text[..])));
}

#[test]
fn evaluation_needs_filter_words_of_four_bytes() {
    let b = boxed(&["house"], 0);
    let short = Lexem::WithFilter(Filter::Word(String::from("abc")));
    assert!(try_eval(&short, &b, None).is_none());
    let fine = parse_to_lexem("equals house\n").unwrap();
    assert_eq!(try_eval(&fine, &b, None), Some(true));
}

#[test]
fn evaluation_needs_valid_text_at_the_box_position() {
    let b = boxed(&["house"], 0);
    let q = parse_to_lexem("equals house\n").unwrap();
    let bad = [0xffu8, 0xfe, 0x20];
    assert!(try_eval(&q, &b, Some(&bad[..])).is_none());
    let far = boxed(&["house"], 100);
    assert!(try_eval(&q, &far, Some(&b"house "[..])).is_none());
}

#[test]
fn query_answers_nothing() {
    load_initial();
    let q = parse_to_lexem("equals house\n").unwrap();
    assert!(query(q).is_empty());
}

#[test]
fn filter_word_is_its_text() {
    let f = Filter::StartsWith(String::from("abcd"));
    assert_eq!(f.word(), "abcd");
}

#[test]
fn tokens_of_text_split_at_a_space() {
    let a = "equals ab|c";
    let b = "d (startswith ef ";
    let whole = tokens(&format!("{} {}", a, b));
    let left = tokens(&format!("{} ", a));
    let right = tokens(b);
    let joined = format!("{}, {}", left.trim_end_matches(']'), right.trim_start_matches('['));
    assert_eq!(whole, joined);
}

#[test]
fn white_space_characters() {
    use_white_space_set();
}

fn use_white_space_set() {
    for c in ['\t', '\n', '\u{b}', '\u{c}', '\r', ' ', '\u{85}', '\u{a0}', '\u{1680}', '\u{2000}', '\u{200a}', '\u{2028}', '\u{2029}', '\u{202f}', '\u{205f}', '\u{3000}'] {
        assert!(is_whitespace(c));
        assert_eq!(is_whitespace(c), c.is_whitespace());
    }
    for c in ['a', '\u{200b}', '\u{180e}', '\u{feff}', '_', '\u{8}'] {
        assert!(!is_whitespace(c));
        assert_eq!(is_whitespace(c), c.is_whitespace());
    }
}

#[test]
fn text_check_never_passes_a_box_the_signatures_turn_away() {
    let text = b"zero alpha bravo ";
    let b = boxed(&["alpha", "bravo"], 5);
    for q in ["equals bravo\n", "startswith alph | equals zero\n", "equals alpha & endswith ravo\n", "equals zero\n"] {
        let lx = parse_to_lexem(q).unwrap();
        if eval(&lx, &b, Some(&text[..])) {
            assert!(eval(&lx, &b, None));
        }
    }
}

#[test]
fn filter_check_with_text_passes_only_where_it_passes_without() {
    use_filter_narrowing();
}

fn use_filter_narrowing() {
    let text = b"zero alpha bravo ";
    let b = boxed(&["alpha", "bravo"], 5);
    for f in [
        Filter::Word("bravo".to_string()),
        Filter::Word("zero".to_string()),
        Filter::StartsWith("alph".to_string()),
        Filter::EndsWith("ravo".to_string()),
    ] {
        if apply_filter(&f, &b, Some(&text[..])) {
            assert!(apply_filter(&f, &b, None));
        }
    }
    assert!(apply_filter(&Filter::Word("bravo".to_string()), &b, Some(&text[..])));
    assert!(!apply_filter(&Filter::Word("zero".to_string()), &b, None));
}
