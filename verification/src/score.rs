//! The score notation and its parser. A score is a sequence of measures
//! separated by a literal `---` token; within a measure each line is a
//! comment (`/` prefix), blank, a command (`#` prefix), or a display line.

use vstd::prelude::*;
use vstd::string::StrSliceExecFns;
use crate::text::{
    is_blank, lines_of, lines_str, parse_i32_str, parses_to_i32, int_value, split_on,
    split_on_str, str_eq, str_is_blank, tokens_of, tokens_str, views_of,
};

verus! {

#[derive(Debug, Clone, PartialEq)]
pub struct Score {
    pub measures: Vec<Measure>,
}

#[derive(Debug, Clone, PartialEq)]
pub struct Measure {
    pub commands: Vec<MeasureCommand>,
}

#[derive(Debug, Clone, PartialEq)]
pub enum MeasureCommand {
    DisplayCommand(DisplayCommand),
    Command(Command),
}

#[derive(Debug, Clone, PartialEq)]
pub enum DisplayCommand {
    DataDisplayCommand(String),
    InlineDisplayCommand(String),
}

#[derive(Debug, Copy, Clone, PartialEq, Eq, Structural)]
pub enum Command {
    MoveTo(i32, i32),
    ZIndex(i32),
    FlipVertical(bool),
}

/// The mathematical form of a display command: the referenced data name, or
/// the inline text itself.
pub enum DisplayCommandV {
    Data(Seq<char>),
    Inline(Seq<char>),
}

/// The mathematical form of one measure entry.
pub enum MeasureCommandV {
    Display(DisplayCommandV),
    Command(Command),
}

impl View for DisplayCommand {
    type V = DisplayCommandV;

    open spec fn view(&self) -> DisplayCommandV {
        match self {
            DisplayCommand::DataDisplayCommand(s) => DisplayCommandV::Data(s@),
            DisplayCommand::InlineDisplayCommand(s) => DisplayCommandV::Inline(s@),
        }
    }
}

impl View for MeasureCommand {
    type V = MeasureCommandV;

    open spec fn view(&self) -> MeasureCommandV {
        match self {
            MeasureCommand::DisplayCommand(d) => MeasureCommandV::Display(d@),
            MeasureCommand::Command(c) => MeasureCommandV::Command(*c),
        }
    }
}

impl View for Measure {
    type V = Seq<MeasureCommandV>;

    open spec fn view(&self) -> Seq<MeasureCommandV> {
        self.commands@.map_values(|c: MeasureCommand| c@)
    }
}

impl View for Score {
    type V = Seq<Seq<MeasureCommandV>>;

    open spec fn view(&self) -> Seq<Seq<MeasureCommandV>> {
        self.measures@.map_values(|m: Measure| m@)
    }
}

/// Why a score failed to parse. One bad line aborts the whole score; the
/// variant identifies the offending construct.
#[derive(Debug, Copy, Clone, PartialEq, Eq, Structural)]
pub enum ParseError {
    EmptyCommand,
    MissingMoveToX,
    MissingMoveToY,
    MissingZIndex,
    MissingFlipDirection,
    MissingFlipValue,
    InvalidInteger,
    InvalidFlipValue,
    InvalidFlipCommand,
    UnknownCommand,
}

/// What `parse_command` returns on a command line (`#` already present as the
/// first character, which is ignored): the first white-space token picks the
/// keyword, the following tokens its arguments, and anything after the last
/// used argument is ignored.
pub open spec fn parse_command_spec(line: Seq<char>) -> Result<Command, ParseError>
    recommends
        line.len() >= 1,
{
    let toks = tokens_of(line.skip(1));
    if toks.len() == 0 {
        Err(ParseError::EmptyCommand)
    } else if toks[0] == "MOVETO"@ {
        if toks.len() < 2 {
            Err(ParseError::MissingMoveToX)
        } else if !parses_to_i32(toks[1]) {
            Err(ParseError::InvalidInteger)
        } else if toks.len() < 3 {
            Err(ParseError::MissingMoveToY)
        } else if !parses_to_i32(toks[2]) {
            Err(ParseError::InvalidInteger)
        } else {
            Ok(Command::MoveTo(int_value(toks[1]) as i32, int_value(toks[2]) as i32))
        }
    } else if toks[0] == "ZINDEX"@ {
        if toks.len() < 2 {
            Err(ParseError::MissingZIndex)
        } else if !parses_to_i32(toks[1]) {
            Err(ParseError::InvalidInteger)
        } else {
            Ok(Command::ZIndex(int_value(toks[1]) as i32))
        }
    } else if toks[0] == "FLIP"@ {
        if toks.len() < 2 {
            Err(ParseError::MissingFlipDirection)
        } else if toks[1] != "vertical"@ {
            Err(ParseError::InvalidFlipCommand)
        } else if toks.len() < 3 {
            Err(ParseError::MissingFlipValue)
        } else if toks[2] == "on"@ {
            Ok(Command::FlipVertical(true))
        } else if toks[2] == "off"@ {
            Ok(Command::FlipVertical(false))
        } else {
            Err(ParseError::InvalidFlipValue)
        }
    } else {
        Err(ParseError::UnknownCommand)
    }
}

pub fn parse_command(line: &str) -> (r: Result<Command, ParseError>)
    requires
        line@.len() >= 1,
    ensures
        r == parse_command_spec(line@),
{
    let n = line.unicode_len();
    let rest = line.substring_char(1, n);
    proof {
        assert(rest@ =~= line@.skip(1));
    }
    let toks = tokens_str(rest);
    if toks.len() == 0 {
        return Err(ParseError::EmptyCommand);
    }
    proof {
        assert(views_of(toks@)[0] == toks@[0]@);
    }
    if str_eq(toks[0].as_str(), "MOVETO") {
        if toks.len() < 2 {
            return Err(ParseError::MissingMoveToX);
        }
        proof {
            assert(views_of(toks@)[1] == toks@[1]@);
        }
        let x = match parse_i32_str(toks[1].as_str()) {
            Some(v) => v,
            None => {
                return Err(ParseError::InvalidInteger);
            },
        };
        if toks.len() < 3 {
            return Err(ParseError::MissingMoveToY);
        }
        proof {
            assert(views_of(toks@)[2] == toks@[2]@);
        }
        let y = match parse_i32_str(toks[2].as_str()) {
            Some(v) => v,
            None => {
                return Err(ParseError::InvalidInteger);
            },
        };
        Ok(Command::MoveTo(x, y))
    } else if str_eq(toks[0].as_str(), "ZINDEX") {
        if toks.len() < 2 {
            return Err(ParseError::MissingZIndex);
        }
        proof {
            assert(views_of(toks@)[1] == toks@[1]@);
        }
        let z = match parse_i32_str(toks[1].as_str()) {
            Some(v) => v,
            None => {
                return Err(ParseError::InvalidInteger);
            },
        };
        Ok(Command::ZIndex(z))
    } else if str_eq(toks[0].as_str(), "FLIP") {
        if toks.len() < 2 {
            return Err(ParseError::MissingFlipDirection);
        }
        proof {
            assert(views_of(toks@)[1] == toks@[1]@);
        }
        if !str_eq(toks[1].as_str(), "vertical") {
            return Err(ParseError::InvalidFlipCommand);
        }
        if toks.len() < 3 {
            return Err(ParseError::MissingFlipValue);
        }
        proof {
            assert(views_of(toks@)[2] == toks@[2]@);
        }
        if str_eq(toks[2].as_str(), "on") {
            Ok(Command::FlipVertical(true))
        } else if str_eq(toks[2].as_str(), "off") {
            Ok(Command::FlipVertical(false))
        } else {
            Err(ParseError::InvalidFlipValue)
        }
    } else {
        Err(ParseError::UnknownCommand)
    }
}

/// How a display line resolves: a line fully wrapped in double quotes is an
/// inline literal with the quotes stripped; otherwise an exact match against
/// the known data names makes it a data reference; anything else is inline
/// text taken verbatim.
pub open spec fn parse_display_command_spec(line: Seq<char>, names: Seq<Seq<char>>) -> DisplayCommandV {
    if line.len() >= 2 && line[0] == '"' && line[line.len() - 1] == '"' {
        DisplayCommandV::Inline(line.subrange(1, line.len() - 1))
    } else if names.contains(line) {
        DisplayCommandV::Data(line)
    } else {
        DisplayCommandV::Inline(line)
    }
}

fn contains_str(names: &[String], s: &str) -> (b: bool)
    ensures
        b == views_of(names@).contains(s@),
{
    let mut i: usize = 0;
    while i < names.len()
        invariant
            0 <= i <= names@.len(),
            forall|j: int| 0 <= j < i ==> views_of(names@)[j] != s@,
        decreases names@.len() - i,
    {
        let name = vstd::slice::slice_index_get(names, i);
        if str_eq(name.as_str(), s) {
            proof {
                assert(views_of(names@)[i as int] == s@);
            }
            return true;
        }
        i += 1;
    }
    proof {
        assert(forall|j: int| 0 <= j < views_of(names@).len() ==> views_of(names@)[j] != s@);
    }
    false
}

pub fn parse_display_command(line: &str, data_names: &[String]) -> (r: Result<
    DisplayCommand,
    ParseError,
>)
    ensures
        r matches Ok(d) && d@ == parse_display_command_spec(line@, views_of(data_names@)),
{
    let n = line.unicode_len();
    if n >= 2 && line.get_char(0) == '"' && line.get_char(n - 1) == '"' {
        let inner = line.substring_char(1, n - 1).to_owned();
        Ok(DisplayCommand::InlineDisplayCommand(inner))
    } else if contains_str(data_names, line) {
        Ok(DisplayCommand::DataDisplayCommand(line.to_owned()))
    } else {
        Ok(DisplayCommand::InlineDisplayCommand(line.to_owned()))
    }
}

pub open spec fn line_starts_with(l: Seq<char>, c: char) -> bool {
    l.len() > 0 && l[0] == c
}

/// One measure, line by line: comments and blank lines are skipped, `#` lines
/// are commands, and every other line is a display command. The first bad
/// line aborts the measure.
pub open spec fn parse_measure_lines(ls: Seq<Seq<char>>, names: Seq<Seq<char>>) -> Result<
    Seq<MeasureCommandV>,
    ParseError,
>
    decreases ls.len(),
{
    if ls.len() == 0 {
        Ok(Seq::empty())
    } else {
        match parse_measure_lines(ls.drop_last(), names) {
            Err(e) => Err(e),
            Ok(cs) => {
                let l = ls.last();
                if line_starts_with(l, '/') || is_blank(l) {
                    Ok(cs)
                } else if line_starts_with(l, '#') {
                    match parse_command_spec(l) {
                        Ok(c) => Ok(cs.push(MeasureCommandV::Command(c))),
                        Err(e) => Err(e),
                    }
                } else {
                    Ok(cs.push(MeasureCommandV::Display(parse_display_command_spec(l, names))))
                }
            },
        }
    }
}

pub open spec fn parse_measure_spec(text: Seq<char>, names: Seq<Seq<char>>) -> Result<
    Seq<MeasureCommandV>,
    ParseError,
> {
    parse_measure_lines(lines_of(text), names)
}

proof fn lemma_measure_lines_err(ls: Seq<Seq<char>>, names: Seq<Seq<char>>, i: int)
    requires
        0 <= i <= ls.len(),
        parse_measure_lines(ls.take(i), names) is Err,
    ensures
        parse_measure_lines(ls, names) == parse_measure_lines(ls.take(i), names),
    decreases ls.len() - i,
{
    if i == ls.len() {
        assert(ls.take(i) =~= ls);
    } else {
        assert(ls.take(i + 1).drop_last() =~= ls.take(i));
        lemma_measure_lines_err(ls, names, i + 1);
    }
}

pub fn parse_measure(lines: &str, data_names: &[String]) -> (r: Result<Measure, ParseError>)
    ensures
        r matches Ok(m) ==> parse_measure_spec(lines@, views_of(data_names@)) == Ok::<
            Seq<MeasureCommandV>,
            ParseError,
        >(m@),
        r matches Err(e) ==> parse_measure_spec(lines@, views_of(data_names@)) == Err::<
            Seq<MeasureCommandV>,
            ParseError,
        >(e),
{
    let ghost names = views_of(data_names@);
    let ls = lines_str(lines);
    let ghost lsv = lines_of(lines@);
    let mut commands: Vec<MeasureCommand> = Vec::new();
    proof {
        assert(lsv.take(0) =~= Seq::<Seq<char>>::empty());
        assert(commands@.map_values(|c: MeasureCommand| c@) =~= Seq::<MeasureCommandV>::empty());
    }
    let mut i: usize = 0;
    while i < ls.len()
        invariant
            views_of(ls@) == lsv,
            lsv == lines_of(lines@),
            names == views_of(data_names@),
            0 <= i <= ls@.len(),
            parse_measure_lines(lsv.take(i as int), names) == Ok::<
                Seq<MeasureCommandV>,
                ParseError,
            >(commands@.map_values(|c: MeasureCommand| c@)),
        decreases ls@.len() - i,
    {
        let line = &ls[i];
        proof {
            assert(lsv[i as int] == ls@[i as int]@);
            assert(lsv.take(i + 1).drop_last() =~= lsv.take(i as int));
            assert(lsv.take(i + 1).last() == lsv[i as int]);
        }
        let ln = line.unicode_len();
        let is_comment = ln > 0 && line.get_char(0) == '/';
        if is_comment || str_is_blank(line.as_str()) {
            // skipped: comment or blank
        } else if ln > 0 && line.get_char(0) == '#' {
            match parse_command(line.as_str()) {
                Ok(c) => {
                    let mc = MeasureCommand::Command(c);
                    proof {
                        let ghost prev = commands@.map_values(|c: MeasureCommand| c@);
                        assert(commands@.push(mc).map_values(|c: MeasureCommand| c@) =~~= prev.push(
                            mc@,
                        ));
                    }
                    commands.push(mc);
                },
                Err(e) => {
                    proof {
                        assert(parse_measure_lines(lsv.take(i + 1), names) == Err::<
                            Seq<MeasureCommandV>,
                            ParseError,
                        >(e));
                        lemma_measure_lines_err(lsv, names, i + 1);
                    }
                    return Err(e);
                },
            }
        } else {
            match parse_display_command(line.as_str(), data_names) {
                Ok(d) => {
                    let mc = MeasureCommand::DisplayCommand(d);
                    proof {
                        let ghost prev = commands@.map_values(|c: MeasureCommand| c@);
                        assert(commands@.push(mc).map_values(|c: MeasureCommand| c@) =~~= prev.push(
                            mc@,
                        ));
                    }
                    commands.push(mc);
                },
                Err(e) => {
                    proof {
                        lemma_measure_lines_err(lsv, names, i + 1);
                    }
                    return Err(e);
                },
            }
        }
        i += 1;
    }
    proof {
        assert(lsv.take(lsv.len() as int) =~= lsv);
    }
    Ok(Measure { commands })
}

/// The measure separator token.
pub open spec fn measure_sep() -> Seq<char> {
    seq!['-', '-', '-']
}

/// The whole score: the text split on each `---` occurrence, each piece
/// parsed as one measure, the first error aborting the parse.
pub open spec fn parse_score_pieces(ps: Seq<Seq<char>>, names: Seq<Seq<char>>) -> Result<
    Seq<Seq<MeasureCommandV>>,
    ParseError,
>
    decreases ps.len(),
{
    if ps.len() == 0 {
        Ok(Seq::empty())
    } else {
        match parse_score_pieces(ps.drop_last(), names) {
            Err(e) => Err(e),
            Ok(ms) => match parse_measure_lines(lines_of(ps.last()), names) {
                Ok(m) => Ok(ms.push(m)),
                Err(e) => Err(e),
            },
        }
    }
}

pub open spec fn parse_score_spec(text: Seq<char>, names: Seq<Seq<char>>) -> Result<
    Seq<Seq<MeasureCommandV>>,
    ParseError,
> {
    parse_score_pieces(split_on(text, measure_sep()), names)
}

proof fn lemma_score_pieces_err(ps: Seq<Seq<char>>, names: Seq<Seq<char>>, i: int)
    requires
        0 <= i <= ps.len(),
        parse_score_pieces(ps.take(i), names) is Err,
    ensures
        parse_score_pieces(ps, names) == parse_score_pieces(ps.take(i), names),
    decreases ps.len() - i,
{
    if i == ps.len() {
        assert(ps.take(i) =~= ps);
    } else {
        assert(ps.take(i + 1).drop_last() =~= ps.take(i));
        lemma_score_pieces_err(ps, names, i + 1);
    }
}

pub fn parse_score(lines: &str, data_names: &[String]) -> (r: Result<Score, ParseError>)
    ensures
        r matches Ok(s) ==> parse_score_spec(lines@, views_of(data_names@)) == Ok::<
            Seq<Seq<MeasureCommandV>>,
            ParseError,
        >(s@),
        r matches Err(e) ==> parse_score_spec(lines@, views_of(data_names@)) == Err::<
            Seq<Seq<MeasureCommandV>>,
            ParseError,
        >(e),
{
    proof {
        reveal_strlit("---");
        assert("---"@ =~= measure_sep());
    }
    let ghost names = views_of(data_names@);
    let ps = split_on_str(lines, "---");
    let ghost psv = split_on(lines@, measure_sep());
    let mut measures: Vec<Measure> = Vec::new();
    proof {
        assert(psv.take(0) =~= Seq::<Seq<char>>::empty());
        assert(measures@.map_values(|m: Measure| m@) =~= Seq::<Seq<MeasureCommandV>>::empty());
    }
    let mut i: usize = 0;
    while i < ps.len()
        invariant
            views_of(ps@) == psv,
            psv == split_on(lines@, measure_sep()),
            names == views_of(data_names@),
            0 <= i <= ps@.len(),
            parse_score_pieces(psv.take(i as int), names) == Ok::<
                Seq<Seq<MeasureCommandV>>,
                ParseError,
            >(measures@.map_values(|m: Measure| m@)),
        decreases ps@.len() - i,
    {
        proof {
            assert(psv[i as int] == ps@[i as int]@);
            assert(psv.take(i + 1).drop_last() =~= psv.take(i as int));
            assert(psv.take(i + 1).last() == psv[i as int]);
        }
        match parse_measure(ps[i].as_str(), data_names) {
            Ok(m) => {
                proof {
                    let ghost prev = measures@.map_values(|m: Measure| m@);
                    assert(measures@.push(m).map_values(|m: Measure| m@) =~~= prev.push(m@));
                }
                measures.push(m);
            },
            Err(e) => {
                proof {
                    assert(parse_score_pieces(psv.take(i + 1), names) == Err::<
                        Seq<Seq<MeasureCommandV>>,
                        ParseError,
                    >(e));
                    lemma_score_pieces_err(psv, names, i + 1);
                }
                return Err(e);
            },
        }
        i += 1;
    }
    proof {
        assert(psv.take(psv.len() as int) =~= psv);
    }
    Ok(Score { measures })
}

impl Score {
    /// Parsing is deterministic: the result is a function of the text and the
    /// data names alone, so parsing the same text twice yields structurally
    /// identical scores.
    pub fn from_str(s: &str, data_names: &[String]) -> (r: Result<Score, ParseError>)
        ensures
            r matches Ok(sc) ==> parse_score_spec(s@, views_of(data_names@)) == Ok::<
                Seq<Seq<MeasureCommandV>>,
                ParseError,
            >(sc@),
            r matches Err(e) ==> parse_score_spec(s@, views_of(data_names@)) == Err::<
                Seq<Seq<MeasureCommandV>>,
                ParseError,
            >(e),
    {
        parse_score(s, data_names)
    }
}

} // verus!
