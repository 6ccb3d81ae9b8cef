use simpleml::wsv::{parse_row, transition, Mode, Move};

fn some(s: &str) -> Option<String> {
    Some(s.to_string())
}

#[test]
fn wsv_test1() {
    let row = parse_row("x y z").unwrap();
    assert_eq!(
        row,
        vec![
            Some("x".to_string()),
            Some("y".to_string()),
            Some("z".to_string())
        ]
    )
}

#[test]
fn test_empty() {
    assert_eq!(parse_row("").unwrap(), vec![]);
    assert_eq!(parse_row("    ").unwrap(), vec![]);
}

#[test]
fn test_null() {
    assert_eq!(parse_row("-").unwrap(), vec![None]);
    assert_eq!(parse_row("  -  ").unwrap(), vec![None]);
    assert_eq!(parse_row("- -").unwrap(), vec![None, None]);
    assert_eq!(
        parse_row("- -1").unwrap(),
        vec![None, Some("-1".to_string())]
    );
    assert_eq!(
        parse_row("\"-\" -").unwrap(),
        vec![Some("-".to_string()), None]
    );
}

#[test]
fn parse_quotes() {
    assert_eq!(
        parse_row("\"one\"\"two\" \"\" \"\"/\"\"").unwrap(),
        vec![
            Some("one\"two".to_string()),
            Some("".to_string()),
            Some("\n".to_string())
        ]
    );
}

#[test]
fn quotes_end_by_comment() {
    assert_eq!(parse_row("\"one\"#").unwrap(), vec![Some("one".to_string()),]);
}

#[test]
fn blank_and_comment_lines_have_no_cells() {
    assert_eq!(parse_row("").unwrap(), vec![]);
    assert_eq!(parse_row(" \t \u{a0}\u{3000}").unwrap(), vec![]);
    assert_eq!(parse_row("# a comment \"with - anything").unwrap(), vec![]);
    assert_eq!(parse_row("   #x").unwrap(), vec![]);
}

#[test]
fn null_literal_and_empty_cells() {
    assert_eq!(parse_row("-").unwrap(), vec![None]);
    assert_eq!(parse_row("-x").unwrap(), vec![some("-x")]);
    assert_eq!(parse_row("--").unwrap(), vec![some("--")]);
    assert_eq!(parse_row("\"\"").unwrap(), vec![some("")]);
}

#[test]
fn escaped_quote_and_newline() {
    assert_eq!(parse_row("\"one\"\"two\"").unwrap(), vec![some("one\"two")]);
    assert_eq!(parse_row("\"\"/\"\"").unwrap(), vec![some("\n")]);
    assert_eq!(parse_row("\"a\"/\"b\"").unwrap(), vec![some("a\nb")]);
}

#[test]
fn comment_discards_the_rest() {
    assert_eq!(parse_row("\"one\"#rest").unwrap(), vec![some("one")]);
    assert_eq!(parse_row("\"one\"#\"open").unwrap(), vec![some("one")]);
    assert_eq!(parse_row("a b#c d").unwrap(), vec![some("a"), some("b")]);
    assert_eq!(parse_row("a -#c").unwrap(), vec![some("a"), None]);
    assert_eq!(parse_row("a # \" ").unwrap(), vec![some("a")]);
}

#[test]
fn comment_sign_inside_quotes_is_text() {
    assert_eq!(parse_row("\"a # b\" c").unwrap(), vec![some("a # b"), some("c")]);
}

#[test]
fn quoted_cells_keep_white_space() {
    assert_eq!(parse_row("Name \"Hero 123\"").unwrap(), vec![some("Name"), some("Hero 123")]);
    assert_eq!(parse_row("\" \t\"").unwrap(), vec![some(" \t")]);
}

#[test]
fn every_kind_of_white_space_separates() {
    assert_eq!(parse_row("a\tb\u{2003}c\u{85}d").unwrap(), vec![some("a"), some("b"), some("c"), some("d")]);
    assert_eq!(parse_row("a\u{200b}b").unwrap(), vec![some("a\u{200b}b")]);
}

#[test]
fn stray_quote_is_an_error_at_its_offset() {
    assert_eq!(parse_row("a\"b"), Err(1));
    assert_eq!(parse_row("-\""), Err(1));
    assert_eq!(parse_row("x ab\""), Err(4));
}

#[test]
fn text_behind_a_closing_quote_is_an_error() {
    assert_eq!(parse_row("\"a\"b"), Err(3));
    assert_eq!(parse_row("\"a\"-"), Err(3));
}

#[test]
fn slash_must_be_followed_by_a_quote() {
    assert_eq!(parse_row("\"a\"/b"), Err(4));
    assert_eq!(parse_row("\"a\"/ "), Err(4));
    assert_eq!(parse_row("\"a\"/#"), Err(4));
}

#[test]
fn open_quote_is_an_error_at_the_end() {
    assert_eq!(parse_row("\"abc"), Err(4));
    assert_eq!(parse_row("x \""), Err(3));
    assert_eq!(parse_row("\"a\"/"), Err(4));
}

#[test]
fn offsets_count_characters() {
    assert_eq!(parse_row("\u{e9}\""), Err(1));
    assert_eq!(parse_row("\"\u{e9}\u{4e2d}"), Err(3));
    assert_eq!(parse_row("\u{e9} \u{4e2d}").unwrap(), vec![some("\u{e9}"), some("\u{4e2d}")]);
}

#[test]
fn transitions_when_ready() {
    assert_eq!(transition(Mode::Ready, '"'), Move::Go(Mode::Quoted));
    assert_eq!(transition(Mode::Ready, '-'), Move::Go(Mode::Null));
    assert_eq!(transition(Mode::Ready, '#'), Move::Comment);
    assert_eq!(transition(Mode::Ready, ' '), Move::Go(Mode::Ready));
    assert_eq!(transition(Mode::Ready, '\t'), Move::Go(Mode::Ready));
    assert_eq!(transition(Mode::Ready, 'a'), Move::Keep(Mode::Unquoted, 'a'));
    assert_eq!(transition(Mode::Ready, '/'), Move::Keep(Mode::Unquoted, '/'));
}

#[test]
fn transitions_behind_a_dash() {
    assert_eq!(transition(Mode::Null, '"'), Move::Invalid);
    assert_eq!(transition(Mode::Null, '#'), Move::Comment);
    assert_eq!(transition(Mode::Null, ' '), Move::EmitNull);
    assert_eq!(transition(Mode::Null, '1'), Move::KeepDash('1'));
    assert_eq!(transition(Mode::Null, '-'), Move::KeepDash('-'));
}

#[test]
fn transitions_in_an_unquoted_cell() {
    assert_eq!(transition(Mode::Unquoted, '"'), Move::Invalid);
    assert_eq!(transition(Mode::Unquoted, '#'), Move::Comment);
    assert_eq!(transition(Mode::Unquoted, '\u{2028}'), Move::EmitCell);
    assert_eq!(transition(Mode::Unquoted, '-'), Move::Keep(Mode::Unquoted, '-'));
}

#[test]
fn transitions_in_a_quoted_cell() {
    assert_eq!(transition(Mode::Quoted, '"'), Move::Go(Mode::QuotedEnd));
    assert_eq!(transition(Mode::Quoted, ' '), Move::Keep(Mode::Quoted, ' '));
    assert_eq!(transition(Mode::Quoted, '#'), Move::Keep(Mode::Quoted, '#'));
    assert_eq!(transition(Mode::Quoted, '/'), Move::Keep(Mode::Quoted, '/'));
}

#[test]
fn transitions_behind_a_closing_quote() {
    assert_eq!(transition(Mode::QuotedEnd, '"'), Move::Keep(Mode::Quoted, '"'));
    assert_eq!(transition(Mode::QuotedEnd, '/'), Move::Go(Mode::QuotedNewline));
    assert_eq!(transition(Mode::QuotedEnd, '#'), Move::Comment);
    assert_eq!(transition(Mode::QuotedEnd, ' '), Move::EmitCell);
    assert_eq!(transition(Mode::QuotedEnd, 'x'), Move::Invalid);
    assert_eq!(transition(Mode::QuotedEnd, '-'), Move::Invalid);
}

#[test]
fn transitions_behind_the_slash() {
    assert_eq!(transition(Mode::QuotedNewline, '"'), Move::Keep(Mode::Quoted, '\n'));
    assert_eq!(transition(Mode::QuotedNewline, '/'), Move::Invalid);
    assert_eq!(transition(Mode::QuotedNewline, ' '), Move::Invalid);
    assert_eq!(transition(Mode::QuotedNewline, '#'), Move::Invalid);
}
