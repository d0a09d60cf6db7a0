use spreadsheet_engine::address::CellAddress;
use spreadsheet_engine::formula::{parse, Formula};
use spreadsheet_engine::text::{
    chars_of, is_float_literal, parse_cell_address, parse_u32, split_once_outside_parentheses,
    NormalizedRawFormula, StringWithoutWhitespace,
};

fn s(text: &str) -> Vec<char> {
    text.chars().collect()
}

#[test]
fn normalization_lowercases_and_drops_whitespace_outside_quotes() {
    let normalized = NormalizedRawFormula::from(" IF( TRUE , \"Some Text\" , 2 ) ");
    assert_eq!(normalized.as_string(), "if(true,\"Some Text\",2)");
}

#[test]
fn normalization_keeps_unclosed_quote_contents() {
    let normalized = NormalizedRawFormula::from("A \"B C");
    assert_eq!(normalized.as_string(), "a\"B C");
}

#[test]
fn string_without_whitespace_removes_all_whitespace() {
    let text = StringWithoutWhitespace::from(" a\tB \"c d\"\n");
    assert_eq!(text.as_string(), "aB\"cd\"");
}

#[test]
fn chars_of_keeps_every_character() {
    assert_eq!(chars_of("aé b"), vec!['a', 'é', ' ', 'b']);
}

#[test]
fn split_skips_delimiters_in_parentheses_and_quotes() {
    let text = s("if(a,b),\"x,y\",c");
    let (left, right) = split_once_outside_parentheses(&text, ',').unwrap();
    assert_eq!(left, &s("if(a,b)")[..]);
    assert_eq!(right, &s("\"x,y\",c")[..]);
    let quoted = s("\"x,y\",c");
    let (left, right) = split_once_outside_parentheses(&quoted, ',').unwrap();
    assert_eq!(left, &s("\"x,y\"")[..]);
    assert_eq!(right, &s("c")[..]);
    assert!(split_once_outside_parentheses(&s("(a,b)"), ',').is_none());
}

#[test]
fn split_depth_never_goes_below_zero() {
    let text = s("a)),b");
    let (left, right) = split_once_outside_parentheses(&text, ',').unwrap();
    assert_eq!(left, &s("a))")[..]);
    assert_eq!(right, &s("b")[..]);
}

#[test]
fn u32_parsing_follows_std() {
    for text in ["0", "+7", "4294967295", "4294967296", "", "+", "-1", "12a", "007", " 1"] {
        assert_eq!(parse_u32(&s(text)), text.parse::<u32>().ok(), "{text}");
    }
}

#[test]
fn cell_address_parsing() {
    assert_eq!(parse_cell_address(&s("3,4")), Some(CellAddress::new(3, 4)));
    assert_eq!(parse_cell_address(&s("3,4,5")), None);
    assert_eq!(parse_cell_address(&s("3")), None);
    assert_eq!(parse_cell_address(&s("notanaddress")), None);
}

#[test]
fn float_literal_recognition_agrees_with_std() {
    let cases = [
        "1", "1.1", "-2.5", "+3", ".5", "5.", ".", "", "+", "-", "1e5", "1E5", "1e+5", "1e-5", "1e",
        "e5", "inf", "-inf", "+Infinity", "NaN", "nan1", "infinit", "1_000", "1.2.3", "0x10",
        "1e5.0", "  1", "1 ", "--1", "1.e3", ".e3",
    ];
    for text in cases {
        assert_eq!(is_float_literal(&s(text)), text.parse::<f64>().is_ok(), "{text:?}");
    }
}

#[test]
fn parse_recognises_each_kind() {
    assert_eq!(parse("1.5"), Formula::NumberLiteral("1.5".to_string()));
    assert_eq!(parse(" TRUE "), Formula::BooleanLiteral(true));
    assert_eq!(parse("False"), Formula::BooleanLiteral(false));
    assert_eq!(parse("\"Test Text\""), Formula::TextLiteral("Test Text".to_string()));
    assert_eq!(parse("(0, 1)"), Formula::CellReference(CellAddress::new(0, 1)));
    match parse("SUM(0,0:1,1)") {
        Formula::AreaSum(area) => {
            assert_eq!(area.upper_left, CellAddress::new(0, 0));
            assert_eq!(area.lower_right, CellAddress::new(1, 1));
        }
        other => panic!("unexpected {other:?}"),
    }
    assert_eq!(
        parse("if(true, 1, 2)"),
        Formula::Conditional(
            Box::new(Formula::BooleanLiteral(true)),
            Box::new(Formula::NumberLiteral("1".to_string())),
            Box::new(Formula::NumberLiteral("2".to_string())),
        )
    );
    assert_eq!(
        parse("indirect(\"0,1\")"),
        Formula::Indirect(Box::new(Formula::TextLiteral("0,1".to_string())))
    );
    assert_eq!(
        parse("RANDBETWEEN(1,3)"),
        Formula::RandBetween(
            Box::new(Formula::NumberLiteral("1".to_string())),
            Box::new(Formula::NumberLiteral("3".to_string())),
        )
    );
    assert_eq!(
        parse("SEQUENCE(2,(0,1))"),
        Formula::Sequence(
            Box::new(Formula::NumberLiteral("2".to_string())),
            Box::new(Formula::CellReference(CellAddress::new(0, 1))),
        )
    );
}

#[test]
fn parse_keeps_the_raw_text_of_ill_formed_formulas() {
    assert_eq!(parse("invalid formula"), Formula::IllFormed("invalid formula".to_string()));
    assert_eq!(parse("\"Test Text"), Formula::IllFormed("\"Test Text".to_string()));
    assert_eq!(parse("if(   false  , 1 )"), Formula::IllFormed("if(   false  , 1 )".to_string()));
    assert_eq!(parse("SUM(1,1:0,0)"), Formula::IllFormed("SUM(1,1:0,0)".to_string()));
    assert_eq!(
        parse("if(   false  , 1,    invalid-formula  )"),
        Formula::Conditional(
            Box::new(Formula::BooleanLiteral(false)),
            Box::new(Formula::NumberLiteral("1".to_string())),
            Box::new(Formula::IllFormed("invalid-formula".to_string())),
        )
    );
    assert_eq!(
        parse("if(   false  , 1,    invalid-formula  ))"),
        Formula::Conditional(
            Box::new(Formula::BooleanLiteral(false)),
            Box::new(Formula::NumberLiteral("1".to_string())),
            Box::new(Formula::IllFormed("invalid-formula)".to_string())),
        )
    );
}

#[test]
fn sequence_with_random_argument_is_volatile() {
    assert!(spreadsheet_engine::formula::parse("SEQUENCE(RANDBETWEEN(1,3), 2)").is_volatile());
    assert!(spreadsheet_engine::formula::parse("SEQUENCE(2, RANDBETWEEN(1,3))").is_volatile());
    assert!(!spreadsheet_engine::formula::parse("SEQUENCE(2, 3)").is_volatile());
}
