use rustak::ptn;
use rustak::ptn::ErrorType::{EndOfFile, InvalidChar};

fn kind<T>(r: Result<T, ptn::ParseError>) -> Result<T, ptn::ErrorType> {
    r.map_err(|e| e.err_type())
}

#[test]
fn expect_char_takes_one_character() {
    assert_eq!(kind(ptn::expect_char("[x", '[')), Ok("x"));
    assert_eq!(kind(ptn::expect_char("]", ']')), Ok(""));
    assert_eq!(kind(ptn::expect_char("x[", '[')), Err(InvalidChar('x')));
    assert_eq!(kind(ptn::expect_char("", '[')), Err(EndOfFile));
    assert_eq!(kind(ptn::expect_char("éa", 'é')), Ok("a"));
}

#[test]
fn parse_key_reads_a_name_in_lower_case() {
    assert_eq!(kind(ptn::parse_key("Size \"5\"")), Ok((" \"5\"", "size".to_string())));
    assert_eq!(kind(ptn::parse_key("Player_One")), Ok(("", "player_one".to_string())));
    assert_eq!(kind(ptn::parse_key("AZaz_09")), Ok(("09", "azaz_".to_string())));
    assert_eq!(kind(ptn::parse_key("")), Err(EndOfFile));
    assert_eq!(kind(ptn::parse_key("5x")), Err(InvalidChar('5')));
    assert_eq!(kind(ptn::parse_key(" x")), Err(InvalidChar(' ')));
    assert_eq!(kind(ptn::parse_key("Éx")), Err(InvalidChar('É')));
}

#[test]
fn parse_value_reads_what_stands_between_quotation_marks() {
    assert_eq!(kind(ptn::parse_value("\"5\"]")), Ok(("]", "5".to_string())));
    assert_eq!(kind(ptn::parse_value("\"\"")), Ok(("", "".to_string())));
    assert_eq!(kind(ptn::parse_value("\"Blå Ø\" x")), Ok((" x", "Blå Ø".to_string())));
    assert_eq!(kind(ptn::parse_value("5\"")), Err(InvalidChar('5')));
    assert_eq!(kind(ptn::parse_value("")), Err(EndOfFile));
    assert_eq!(kind(ptn::parse_value("\"open")), Err(EndOfFile));
}

#[test]
fn parse_tag_reads_a_name_and_a_value() {
    let (rest, tag) = kind(ptn::parse_tag("[Size \"5\"]\n1. a1")).unwrap();
    assert_eq!(rest, "\n1. a1");
    assert_eq!(tag.name(), "size");
    assert_eq!(tag.value(), "5");
    let (rest, tag) = kind(ptn::parse_tag("[ \tPlayer\n\"A B\"  ]")).unwrap();
    assert_eq!(rest, "");
    assert_eq!(tag.name(), "player");
    assert_eq!(tag.value(), "A B");
    assert_eq!(kind(ptn::parse_tag("[Player1 \"A\"]")).err(), Some(InvalidChar('1')));
}

#[test]
fn parse_tag_reports_what_is_wrong() {
    assert_eq!(kind(ptn::parse_tag("")).err(), Some(EndOfFile));
    assert_eq!(kind(ptn::parse_tag("Size \"5\"]")).err(), Some(InvalidChar('S')));
    assert_eq!(kind(ptn::parse_tag("[")).err(), Some(EndOfFile));
    assert_eq!(kind(ptn::parse_tag("[ 5")).err(), Some(InvalidChar('5')));
    assert_eq!(kind(ptn::parse_tag("[Size")).err(), Some(EndOfFile));
    assert_eq!(kind(ptn::parse_tag("[Size 5]")).err(), Some(InvalidChar('5')));
    assert_eq!(kind(ptn::parse_tag("[Size \"5\"")).err(), Some(EndOfFile));
    assert_eq!(kind(ptn::parse_tag("[Size \"5\" x]")).err(), Some(InvalidChar('x')));
}
