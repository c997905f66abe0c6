use csf_reader::score::{Command, DisplayCommand, MeasureCommand, ParseError, Score};

fn names(ns: &[&str]) -> Vec<String> {
    ns.iter().map(|n| n.to_string()).collect()
}

fn display(line: &str, ns: &[&str]) -> DisplayCommand {
    match Score::from_str(line, &names(ns)) {
        Ok(score) => match &score.measures[0].commands[0] {
            MeasureCommand::DisplayCommand(d) => d.clone(),
            other => panic!("expected a display command, got {:?}", other),
        },
        Err(e) => panic!("unexpected parse error {:?}", e),
    }
}

fn command(line: &str) -> Result<Command, ParseError> {
    match Score::from_str(line, &names(&[])) {
        Ok(score) => match &score.measures[0].commands[0] {
            MeasureCommand::Command(c) => Ok(*c),
            other => panic!("expected a command, got {:?}", other),
        },
        Err(e) => Err(e),
    }
}

#[test]
fn parse_is_deterministic() {
    let text = "#MOVETO 2 1\nhello\n---\n/comment\n\"quoted\"\n";
    let ns = names(&["hello"]);
    let a = Score::from_str(text, &ns).unwrap();
    let b = Score::from_str(text, &ns).unwrap();
    assert_eq!(a, b);
}

#[test]
fn parse_moveto() {
    assert_eq!(command("#MOVETO 2 1"), Ok(Command::MoveTo(2, 1)));
    assert_eq!(command("#MOVETO -3 -4"), Ok(Command::MoveTo(-3, -4)));
    assert_eq!(command("#MOVETO +5 0"), Ok(Command::MoveTo(5, 0)));
}

#[test]
fn parse_zindex_and_flip() {
    assert_eq!(command("#ZINDEX 7"), Ok(Command::ZIndex(7)));
    assert_eq!(command("#FLIP vertical on"), Ok(Command::FlipVertical(true)));
    assert_eq!(command("#FLIP vertical off"), Ok(Command::FlipVertical(false)));
}

#[test]
fn parse_command_extra_tokens_ignored() {
    assert_eq!(command("#ZINDEX 7 trailing junk"), Ok(Command::ZIndex(7)));
}

#[test]
fn parse_command_errors() {
    assert_eq!(command("#"), Err(ParseError::EmptyCommand));
    assert_eq!(command("#   "), Err(ParseError::EmptyCommand));
    assert_eq!(command("#MOVETO"), Err(ParseError::MissingMoveToX));
    assert_eq!(command("#MOVETO 1"), Err(ParseError::MissingMoveToY));
    assert_eq!(command("#MOVETO a 2"), Err(ParseError::InvalidInteger));
    assert_eq!(command("#MOVETO 1 b"), Err(ParseError::InvalidInteger));
    assert_eq!(command("#ZINDEX"), Err(ParseError::MissingZIndex));
    assert_eq!(command("#ZINDEX x"), Err(ParseError::InvalidInteger));
    assert_eq!(command("#FLIP"), Err(ParseError::MissingFlipDirection));
    assert_eq!(command("#FLIP horizontal on"), Err(ParseError::InvalidFlipCommand));
    assert_eq!(command("#FLIP vertical"), Err(ParseError::MissingFlipValue));
    assert_eq!(command("#FLIP vertical maybe"), Err(ParseError::InvalidFlipValue));
    assert_eq!(command("#SPIN 1"), Err(ParseError::UnknownCommand));
}

#[test]
fn parse_integer_overflow_is_rejected() {
    assert_eq!(command("#ZINDEX 2147483647"), Ok(Command::ZIndex(2147483647)));
    assert_eq!(command("#ZINDEX 2147483648"), Err(ParseError::InvalidInteger));
    assert_eq!(command("#ZINDEX -2147483648"), Ok(Command::ZIndex(-2147483648)));
    assert_eq!(command("#ZINDEX -2147483649"), Err(ParseError::InvalidInteger));
}

#[test]
fn display_line_resolution() {
    // A fully quoted line is always inline, quotes stripped.
    assert_eq!(
        display("\"hello\"", &["hello"]),
        DisplayCommand::InlineDisplayCommand("hello".to_string())
    );
    // A registered name is a data reference.
    assert_eq!(
        display("hello", &["hello"]),
        DisplayCommand::DataDisplayCommand("hello".to_string())
    );
    // An unregistered name falls back to inline text verbatim.
    assert_eq!(
        display("hello", &[]),
        DisplayCommand::InlineDisplayCommand("hello".to_string())
    );
}

#[test]
fn display_line_single_quote_is_not_wrapped() {
    // One lone quote character has no closing quote: taken verbatim.
    assert_eq!(display("\"", &[]), DisplayCommand::InlineDisplayCommand("\"".to_string()));
    // An empty pair of quotes is an empty inline literal.
    assert_eq!(display("\"\"", &[]), DisplayCommand::InlineDisplayCommand("".to_string()));
}

#[test]
fn comments_and_blank_lines_are_skipped() {
    let score = Score::from_str("/comment\n   \n\nx\n", &names(&[])).unwrap();
    assert_eq!(score.measures.len(), 1);
    assert_eq!(score.measures[0].commands.len(), 1);
    assert_eq!(
        score.measures[0].commands[0],
        MeasureCommand::DisplayCommand(DisplayCommand::InlineDisplayCommand("x".to_string()))
    );
}

#[test]
fn measure_separator_splits_anywhere() {
    // The separator is a literal token, not a line: it splits mid-line too.
    let score = Score::from_str("a---b", &names(&[])).unwrap();
    assert_eq!(score.measures.len(), 2);
    assert_eq!(
        score.measures[0].commands[0],
        MeasureCommand::DisplayCommand(DisplayCommand::InlineDisplayCommand("a".to_string()))
    );
    assert_eq!(
        score.measures[1].commands[0],
        MeasureCommand::DisplayCommand(DisplayCommand::InlineDisplayCommand("b".to_string()))
    );
}

#[test]
fn five_dashes_split_into_empty_and_remainder() {
    let score = Score::from_str("-----", &names(&[])).unwrap();
    assert_eq!(score.measures.len(), 2);
    assert_eq!(score.measures[0].commands.len(), 0);
    assert_eq!(
        score.measures[1].commands[0],
        MeasureCommand::DisplayCommand(DisplayCommand::InlineDisplayCommand("--".to_string()))
    );
}

#[test]
fn crlf_line_endings_parse() {
    let score = Score::from_str("#MOVETO 1 2\r\nx\r\n", &names(&[])).unwrap();
    assert_eq!(score.measures[0].commands.len(), 2);
    assert_eq!(score.measures[0].commands[0], MeasureCommand::Command(Command::MoveTo(1, 2)));
    assert_eq!(
        score.measures[0].commands[1],
        MeasureCommand::DisplayCommand(DisplayCommand::InlineDisplayCommand("x".to_string()))
    );
}

#[test]
fn one_bad_line_aborts_the_whole_score() {
    let r = Score::from_str("good\n---\n#BROKEN\n", &names(&[]));
    assert_eq!(r, Err(ParseError::UnknownCommand));
}
