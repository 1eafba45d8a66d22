//! Reading a text by the grammar: the tree of statements that a text
//! holds, and whether a text is one construct of the grammar.

use vstd::prelude::*;
use crate::error::{ParseError, ParseErrorView};
use crate::grammar::{
    add_from,
    binary_from,
    blanks_end,
    char_at,
    file_statements,
    first_malformed,
    is_grammatical,
    lemma_number_bounds,
    lemma_row_from,
    lemma_statements_are_grammatical,
    line_of,
    lines_from,
    lines_of,
    mat_def_from,
    matrix_from,
    matrix_rows,
    mult_from,
    name_from,
    name_pair,
    number_from,
    opening,
    operation_from,
    row_from,
    row_items,
    scale_from,
    statements_in,
    subtract_from,
    word_add,
    word_at,
    word_mat,
    word_mul,
    word_scale,
    word_sub,
    LineView,
    StatementView,
};
use crate::lexicon::{
    chars_of,
    lemma_name_end,
    lemma_run_end,
    run_end,
    scan_name,
    scan_number,
    scan_run,
    text_of,
    texts,
    CharClass,
};

verus! {

/// One statement as it stands in the text: names and numerals as written,
/// the rows of a matrix as they come, whatever their lengths.
#[derive(Debug, PartialEq, Eq)]
pub enum Statement {
    MatDef { name: String, rows: Vec<Vec<String>> },
    Add { left: String, right: String },
    Subtract { left: String, right: String },
    Mult { left: String, right: String },
    Scale { name: String, factor: String },
}

/// The numerals of a list of rows, each as its sequence of characters.
pub open spec fn rows_view(rows: Seq<Vec<String>>) -> Seq<Seq<Seq<char>>> {
    Seq::new(rows.len(), |i: int| texts(rows[i]@))
}

impl View for Statement {
    type V = StatementView;

    open spec fn view(&self) -> StatementView {
        match self {
            Statement::MatDef { name, rows } => StatementView::MatDef {
                name: name@,
                rows: rows_view(rows@),
            },
            Statement::Add { left, right } => StatementView::Add { left: left@, right: right@ },
            Statement::Subtract { left, right } => StatementView::Subtract {
                left: left@,
                right: right@,
            },
            Statement::Mult { left, right } => StatementView::Mult { left: left@, right: right@ },
            Statement::Scale { name, factor } => StatementView::Scale {
                name: name@,
                factor: factor@,
            },
        }
    }
}

/// The views of a list of statements, in order.
pub open spec fn statements_view(statements: Seq<Statement>) -> Seq<StatementView> {
    Seq::new(statements.len(), |i: int| statements[i]@)
}

/// Tells whether the character at `i` is `c`.
fn is_at(s: &Vec<char>, i: usize, c: char) -> (r: bool)
    ensures
        r == char_at(s@, i as int, c),
        r ==> i < usize::MAX,
{
    i < s.len() && s[i] == c
}

/// Skips the white space that starts at `i`.
fn skip_blanks(s: &Vec<char>, i: usize) -> (r: usize)
    ensures
        r == blanks_end(s@, i as int),
        i <= s.len() ==> i <= r <= s.len(),
{
    proof {
        if i <= s.len() {
            lemma_run_end(s@, i as int, CharClass::Blank);
        }
    }
    scan_run(s, i, CharClass::Blank)
}

/// Reads the numbers of a row from the position of its first number.
fn read_row_items(s: &Vec<char>, start: usize) -> (r: Option<(Vec<String>, usize)>)
    ensures
        match r {
            Some((row, behind)) => row_items(s@, start as int) == Some(
                (texts(row@), behind as int),
            ),
            None => row_items(s@, start as int) is None,
        },
{
    let mut row: Vec<String> = Vec::new();
    let mut at: usize = start;
    assert(Seq::<Seq<char>>::empty() + texts(row@) =~= texts(row@));
    loop
        invariant
            row_items(s@, start as int) == match row_items(s@, at as int) {
                Some((rest, behind)) => Some((texts(row@) + rest, behind)),
                None => None,
            },
        decreases s.len() - at,
    {
        let end = match scan_number(s, at) {
            Some(end) => end,
            None => {
                return None;
            },
        };
        proof {
            lemma_number_bounds(s@, at as int);
        }
        let ghost before = texts(row@);
        row.push(text_of(s, at, end));
        let ghost token = s@.subrange(at as int, end as int);
        assert(texts(row@) =~= before.push(token));
        let next = skip_blanks(s, end);
        if is_at(s, next, ']') {
            assert(before + seq![token] =~= texts(row@));
            return Some((row, next + 1));
        } else if is_at(s, next, ',') {
            let ghost old_at = at;
            at = skip_blanks(s, next + 1);
            proof {
                match row_items(s@, at as int) {
                    Some((rest, behind)) => {
                        assert(before + (seq![token] + rest) =~= texts(row@) + rest);
                    },
                    None => {},
                }
            }
        } else {
            return None;
        }
    }
}

/// Reads the row that starts at `i`.
fn read_row(s: &Vec<char>, i: usize) -> (r: Option<(Vec<String>, usize)>)
    ensures
        match r {
            Some((row, behind)) => row_from(s@, i as int) == Some((texts(row@), behind as int)),
            None => row_from(s@, i as int) is None,
        },
{
    if is_at(s, i, '[') {
        let first = skip_blanks(s, i + 1);
        read_row_items(s, first)
    } else {
        None
    }
}

/// Reads the rows of a matrix from the position of its first row.
fn read_matrix_rows(s: &Vec<char>, start: usize) -> (r: Option<(Vec<Vec<String>>, usize)>)
    ensures
        match r {
            Some((rows, behind)) => matrix_rows(s@, start as int) == Some(
                (rows_view(rows@), behind as int),
            ),
            None => matrix_rows(s@, start as int) is None,
        },
{
    let mut rows: Vec<Vec<String>> = Vec::new();
    let mut at: usize = start;
    assert(Seq::<Seq<Seq<char>>>::empty() + rows_view(rows@) =~= rows_view(rows@));
    loop
        invariant
            matrix_rows(s@, start as int) == match matrix_rows(s@, at as int) {
                Some((rest, behind)) => Some((rows_view(rows@) + rest, behind)),
                None => None,
            },
        decreases s.len() - at,
    {
        let (row, end) = match read_row(s, at) {
            Some(found) => found,
            None => {
                return None;
            },
        };
        proof {
            lemma_row_from(s@, at as int);
        }
        let ghost before = rows_view(rows@);
        let ghost tokens = texts(row@);
        rows.push(row);
        assert(rows_view(rows@) =~= before.push(tokens));
        let next = skip_blanks(s, end);
        if is_at(s, next, ']') {
            assert(before + seq![tokens] =~= rows_view(rows@));
            return Some((rows, next + 1));
        } else if is_at(s, next, ',') {
            at = skip_blanks(s, next + 1);
            proof {
                match matrix_rows(s@, at as int) {
                    Some((rest, behind)) => {
                        assert(before + (seq![tokens] + rest) =~= rows_view(rows@) + rest);
                    },
                    None => {},
                }
            }
        } else {
            return None;
        }
    }
}

/// Reads the matrix that starts at `i`.
fn read_matrix(s: &Vec<char>, i: usize) -> (r: Option<(Vec<Vec<String>>, usize)>)
    ensures
        match r {
            Some((rows, behind)) => matrix_from(s@, i as int) == Some(
                (rows_view(rows@), behind as int),
            ),
            None => matrix_from(s@, i as int) is None,
        },
{
    if is_at(s, i, '[') {
        let first = skip_blanks(s, i + 1);
        read_matrix_rows(s, first)
    } else {
        None
    }
}

/// Reads the name that starts at `i`.
fn read_name(s: &Vec<char>, i: usize) -> (r: Option<(String, usize)>)
    ensures
        match r {
            Some((name, behind)) => name_from(s@, i as int) == Some((name@, behind as int))
                && i < behind <= s.len(),
            None => name_from(s@, i as int) is None,
        },
{
    match scan_name(s, i) {
        Some(end) => {
            proof {
                lemma_name_end(s@, i as int);
            }
            Some((text_of(s, i, end), end))
        },
        None => None,
    }
}

/// Reads the number that starts at `i`.
fn read_number(s: &Vec<char>, i: usize) -> (r: Option<(String, usize)>)
    ensures
        match r {
            Some((token, behind)) => number_from(s@, i as int) == Some((token@, behind as int))
                && i < behind <= s.len(),
            None => number_from(s@, i as int) is None,
        },
{
    match scan_number(s, i) {
        Some(end) => {
            proof {
                lemma_number_bounds(s@, i as int);
            }
            Some((text_of(s, i, end), end))
        },
        None => None,
    }
}

/// Tells whether the characters of `word` stand at `i`.
fn at_word(s: &Vec<char>, i: usize, word: &Vec<char>) -> (r: bool)
    ensures
        r == word_at(s@, i as int, word@),
        r ==> i + word.len() <= s.len(),
{
    if word.len() > s.len() || i > s.len() - word.len() {
        return false;
    }
    let mut k: usize = 0;
    while k < word.len()
        invariant
            k <= word.len(),
            i + word.len() <= s.len(),
            forall|j: int| 0 <= j < k ==> s[i + j] == word[j],
        decreases word.len() - k,
    {
        if s[i + k] != word[k] {
            assert(s@.subrange(i as int, i + word.len())[k as int] == s[i + k]);
            return false;
        }
        k += 1;
    }
    assert(s@.subrange(i as int, i + word.len()) =~= word@);
    true
}

/// Reads `word` at `i` and the white space behind it, of which there must
/// be some.
fn read_opening(s: &Vec<char>, i: usize, word: &Vec<char>) -> (r: Option<usize>)
    ensures
        match r {
            Some(behind) => opening(s@, i as int, word@) == Some(behind as int) && behind
                <= s.len(),
            None => opening(s@, i as int, word@) is None,
        },
{
    if at_word(s, i, word) {
        let behind = skip_blanks(s, i + word.len());
        if behind > i + word.len() {
            Some(behind)
        } else {
            None
        }
    } else {
        None
    }
}

/// Reads two names with a comma between them.
fn read_name_pair(s: &Vec<char>, i: usize) -> (r: Option<(String, String, usize)>)
    ensures
        match r {
            Some((left, right, behind)) => name_pair(s@, i as int) == Some(
                ((left@, right@), behind as int),
            ) && behind <= s.len(),
            None => name_pair(s@, i as int) is None,
        },
{
    let (left, end) = match read_name(s, i) {
        Some(found) => found,
        None => {
            return None;
        },
    };
    let comma = skip_blanks(s, end);
    if !is_at(s, comma, ',') {
        return None;
    }
    match read_name(s, skip_blanks(s, comma + 1)) {
        Some((right, behind)) => Some((left, right, behind)),
        None => None,
    }
}

/// Reads `word`, white space and two names with a comma between them.
fn read_binary(s: &Vec<char>, i: usize, word: &Vec<char>) -> (r: Option<(String, String, usize)>)
    ensures
        match r {
            Some((left, right, behind)) => binary_from(s@, i as int, word@) == Some(
                ((left@, right@), behind as int),
            ) && behind <= s.len(),
            None => binary_from(s@, i as int, word@) is None,
        },
{
    match read_opening(s, i, word) {
        Some(start) => read_name_pair(s, start),
        None => None,
    }
}

/// Reads a definition: `mat`, a name, an equals sign and a matrix.
fn read_mat_def(s: &Vec<char>, i: usize) -> (r: Option<(Statement, usize)>)
    ensures
        match r {
            Some((statement, behind)) => mat_def_from(s@, i as int) == Some(
                (statement@, behind as int),
            ),
            None => mat_def_from(s@, i as int) is None,
        },
{
    let word: Vec<char> = vec!['m', 'a', 't'];
    assert(word@ =~= word_mat());
    let start = match read_opening(s, i, &word) {
        Some(start) => start,
        None => {
            return None;
        },
    };
    let (name, end) = match read_name(s, start) {
        Some(found) => found,
        None => {
            return None;
        },
    };
    let sign = skip_blanks(s, end);
    if !is_at(s, sign, '=') {
        return None;
    }
    match read_matrix(s, skip_blanks(s, sign + 1)) {
        Some((rows, behind)) => Some((Statement::MatDef { name, rows }, behind)),
        None => None,
    }
}

/// Reads a scaling: `scale`, a name, a comma and a number.
fn read_scale(s: &Vec<char>, i: usize) -> (r: Option<(Statement, usize)>)
    ensures
        match r {
            Some((statement, behind)) => scale_from(s@, i as int) == Some(
                (statement@, behind as int),
            ),
            None => scale_from(s@, i as int) is None,
        },
{
    let word: Vec<char> = vec!['s', 'c', 'a', 'l', 'e'];
    assert(word@ =~= word_scale());
    let start = match read_opening(s, i, &word) {
        Some(start) => start,
        None => {
            return None;
        },
    };
    let (name, end) = match read_name(s, start) {
        Some(found) => found,
        None => {
            return None;
        },
    };
    let comma = skip_blanks(s, end);
    if !is_at(s, comma, ',') {
        return None;
    }
    match read_number(s, skip_blanks(s, comma + 1)) {
        Some((factor, behind)) => Some((Statement::Scale { name, factor }, behind)),
        None => None,
    }
}

/// Reads an addition: `add` and two names.
fn read_add(s: &Vec<char>, i: usize) -> (r: Option<(Statement, usize)>)
    ensures
        match r {
            Some((statement, behind)) => add_from(s@, i as int) == Some(
                (statement@, behind as int),
            ),
            None => add_from(s@, i as int) is None,
        },
{
    let word: Vec<char> = vec!['a', 'd', 'd'];
    assert(word@ =~= word_add());
    match read_binary(s, i, &word) {
        Some((left, right, behind)) => Some((Statement::Add { left, right }, behind)),
        None => None,
    }
}

/// Reads a subtraction: `sub` and two names.
fn read_subtract(s: &Vec<char>, i: usize) -> (r: Option<(Statement, usize)>)
    ensures
        match r {
            Some((statement, behind)) => subtract_from(s@, i as int) == Some(
                (statement@, behind as int),
            ),
            None => subtract_from(s@, i as int) is None,
        },
{
    let word: Vec<char> = vec!['s', 'u', 'b'];
    assert(word@ =~= word_sub());
    match read_binary(s, i, &word) {
        Some((left, right, behind)) => Some((Statement::Subtract { left, right }, behind)),
        None => None,
    }
}

/// Reads a multiplication: `mul` and two names.
fn read_mult(s: &Vec<char>, i: usize) -> (r: Option<(Statement, usize)>)
    ensures
        match r {
            Some((statement, behind)) => mult_from(s@, i as int) == Some(
                (statement@, behind as int),
            ),
            None => mult_from(s@, i as int) is None,
        },
{
    let word: Vec<char> = vec!['m', 'u', 'l'];
    assert(word@ =~= word_mul());
    match read_binary(s, i, &word) {
        Some((left, right, behind)) => Some((Statement::Mult { left, right }, behind)),
        None => None,
    }
}

/// Reads the statement that starts at `i`, whichever of the five it is.
fn read_operation(s: &Vec<char>, i: usize) -> (r: Option<(Statement, usize)>)
    ensures
        match r {
            Some((statement, behind)) => operation_from(s@, i as int) == Some(
                (statement@, behind as int),
            ),
            None => operation_from(s@, i as int) is None,
        },
{
    if let Some(found) = read_mat_def(s, i) {
        return Some(found);
    }
    if let Some(found) = read_add(s, i) {
        return Some(found);
    }
    if let Some(found) = read_subtract(s, i) {
        return Some(found);
    }
    if let Some(found) = read_mult(s, i) {
        return Some(found);
    }
    read_scale(s, i)
}

/// What a line is, with the statement where it holds one.
enum Line {
    Blank,
    Comment,
    Statement(Statement),
    Malformed,
}

impl View for Line {
    type V = LineView;

    closed spec fn view(&self) -> LineView {
        match self {
            Line::Blank => LineView::Blank,
            Line::Comment => LineView::Comment,
            Line::Statement(statement) => LineView::Statement(statement@),
            Line::Malformed => LineView::Malformed,
        }
    }
}

/// Reads one line.
fn read_line(s: &Vec<char>) -> (r: Line)
    ensures
        r@ == line_of(s@),
{
    let start = skip_blanks(s, 0);
    if start >= s.len() {
        Line::Blank
    } else if s[start] == '#' {
        Line::Comment
    } else {
        match read_operation(s, start) {
            Some((statement, behind)) => {
                if scan_run(s, behind, CharClass::Blank) >= s.len() {
                    Line::Statement(statement)
                } else {
                    Line::Malformed
                }
            },
            None => Line::Malformed,
        }
    }
}

/// The lines of a list, each as its sequence of characters.
pub open spec fn lines_view(lines: Seq<Vec<char>>) -> Seq<Seq<char>> {
    Seq::new(lines.len(), |i: int| lines[i]@)
}

/// Copies the characters of `s` from `from` up to `to`.
fn copy_of(s: &Vec<char>, from: usize, to: usize) -> (r: Vec<char>)
    requires
        from <= to <= s.len(),
    ensures
        r@ == s@.subrange(from as int, to as int),
{
    let mut out: Vec<char> = Vec::new();
    let mut i: usize = from;
    while i < to
        invariant
            from <= i <= to <= s.len(),
            out@ == s@.subrange(from as int, i as int),
        decreases to - i,
    {
        out.push(s[i]);
        assert(s@.subrange(from as int, i + 1) =~= s@.subrange(from as int, i as int).push(
            s@[i as int],
        ));
        i += 1;
    }
    out
}

/// Cuts a text into its lines.
fn split_lines(s: &Vec<char>) -> (r: Vec<Vec<char>>)
    ensures
        lines_view(r@) == lines_of(s@),
{
    let mut lines: Vec<Vec<char>> = Vec::new();
    let mut at: usize = 0;
    assert(lines_view(lines@) + lines_from(s@, 0) =~= lines_from(s@, 0));
    loop
        invariant
            at <= s.len(),
            lines_of(s@) == lines_view(lines@) + lines_from(s@, at as int),
        decreases s.len() - at,
    {
        proof {
            lemma_run_end(s@, at as int, CharClass::InLine);
        }
        let end = scan_run(s, at, CharClass::InLine);
        let ghost before = lines_view(lines@);
        if end < s.len() {
            lines.push(copy_of(s, at, end));
            proof {
                let line = s@.subrange(at as int, end as int);
                assert(lines_view(lines@) =~= before.push(line));
                assert(before + (seq![line] + lines_from(s@, end + 1)) =~= lines_view(lines@)
                    + lines_from(s@, end + 1));
            }
            at = end + 1;
        } else {
            lines.push(copy_of(s, at, s.len()));
            proof {
                let line = s@.subrange(at as int, s.len() as int);
                assert(lines_view(lines@) =~= before.push(line));
                assert(before + seq![line] =~= lines_view(lines@));
            }
            return lines;
        }
    }
}

/// The constructs of the grammar.
#[derive(Clone, Copy, Debug, PartialEq, Eq, Structural)]
pub enum Rule {
    Number,
    NameOfMatrix,
    Row,
    Matrix,
    MatDef,
    Add,
    Subtract,
    Mult,
    Scale,
    Operation,
    Comment,
    File,
}

/// A construct reads from the start of the text to its end.
pub open spec fn whole<T>(read: Option<(T, int)>, s: Seq<char>) -> bool {
    read is Some && read.unwrap().1 == s.len()
}

/// The whole of the text `s` is one `rule`, with no white space before or
/// behind it. A file is any text whose lines are all blank, comments or
/// statements.
pub open spec fn matches(rule: Rule, s: Seq<char>) -> bool {
    match rule {
        Rule::Number => whole(number_from(s, 0), s),
        Rule::NameOfMatrix => whole(name_from(s, 0), s),
        Rule::Row => whole(row_from(s, 0), s),
        Rule::Matrix => whole(matrix_from(s, 0), s),
        Rule::MatDef => whole(mat_def_from(s, 0), s),
        Rule::Add => whole(add_from(s, 0), s),
        Rule::Subtract => whole(subtract_from(s, 0), s),
        Rule::Mult => whole(mult_from(s, 0), s),
        Rule::Scale => whole(scale_from(s, 0), s),
        Rule::Operation => whole(operation_from(s, 0), s),
        Rule::Comment => char_at(s, 0, '#') && run_end(s, 0, CharClass::InLine) == s.len(),
        Rule::File => file_statements(s) is Ok,
    }
}

/// The line to blame where `s` is no `rule`: for a file its first
/// malformed line, else the first line.
pub open spec fn blamed_line(rule: Rule, s: Seq<char>) -> nat {
    match (rule, file_statements(s)) {
        (Rule::File, Err(line)) => line,
        _ => 1,
    }
}

/// Tells whether something was read, and read up to the end of the text.
fn reaches_end<T>(read: Option<(T, usize)>, s: &Vec<char>) -> (r: bool)
    ensures
        r == (read is Some && read.unwrap().1 == s.len()),
{
    match read {
        Some((_, behind)) => behind == s.len(),
        None => false,
    }
}

/// A text that was recognised as a construct of the grammar.
#[derive(Debug, PartialEq, Eq)]
pub struct Pair {
    pub rule: Rule,
    pub text: String,
}

impl Pair {
    /// The construct that the text is.
    pub fn as_rule(&self) -> (r: Rule)
        ensures
            r == self.rule,
    {
        self.rule
    }

    /// The text.
    pub fn as_str(&self) -> (r: &str)
        ensures
            r@ == self.text@,
    {
        self.text.as_str()
    }
}

/// The parser of the language.
pub struct MatrixParser;

impl MatrixParser {
    /// Reads the statements of a text, in order. Fails with `Syntax` where
    /// a line is neither blank, a comment nor a statement, naming the first
    /// such line.
    pub fn statements(input: &str) -> (r: Result<Vec<Statement>, ParseError>)
        ensures
            match r {
                Ok(found) => file_statements(input@) == Ok::<Seq<StatementView>, nat>(
                    statements_view(found@),
                ),
                Err(e) => file_statements(input@) is Err && e@ == (ParseErrorView::Syntax {
                    line: file_statements(input@)->Err_0,
                }),
            },
            r is Ok ==> forall|i: int|
                0 <= i < r->Ok_0.len() ==> is_grammatical(#[trigger] r->Ok_0[i]@),
    {
        let chars = chars_of(input);
        let lines = split_lines(&chars);
        let ghost all = lines_of(input@);
        let mut found: Vec<Statement> = Vec::new();
        let mut i: usize = 0;
        assert(all.take(0) =~= Seq::<Seq<char>>::empty());
        assert(statements_view(found@) =~= statements_in(all.take(0)));
        while i < lines.len()
            invariant
                i <= lines.len(),
                all == lines_view(lines@),
                all == lines_of(input@),
                first_malformed(all, 0) == first_malformed(all, i as int),
                statements_view(found@) == statements_in(all.take(i as int)),
            decreases lines.len() - i,
        {
            let ghost before = statements_view(found@);
            proof {
                assert(all.take(i + 1).drop_last() =~= all.take(i as int));
                assert(all.take(i + 1).last() == all[i as int]);
            }
            match read_line(&lines[i]) {
                Line::Statement(statement) => {
                    found.push(statement);
                    assert(statements_view(found@) =~= before.push(statement@));
                },
                Line::Malformed => {
                    return Err(ParseError::Syntax { line: i + 1 });
                },
                _ => {},
            }
            i += 1;
        }
        assert(all.take(i as int) =~= all);
        proof {
            lemma_statements_are_grammatical(all);
            assert forall|k: int| 0 <= k < found.len() implies is_grammatical(
                #[trigger] found[k]@,
            ) by {
                assert(statements_in(all)[k] == found[k]@);
            }
        }
        Ok(found)
    }

    /// Tells whether the whole of `input` is one `rule`, and hands the text
    /// back where it is. Fails with `Syntax` where it is not.
    pub fn parse(rule: Rule, input: &str) -> (r: Result<Pair, ParseError>)
        ensures
            match r {
                Ok(pair) => matches(rule, input@) && pair.rule == rule && pair.text@ == input@,
                Err(e) => !matches(rule, input@) && e@ == (ParseErrorView::Syntax {
                    line: blamed_line(rule, input@),
                }),
            },
    {
        let s = chars_of(input);
        let accepted = match rule {
            Rule::File => match MatrixParser::statements(input) {
                Ok(_) => true,
                Err(e) => {
                    return Err(e);
                },
            },
            Rule::Number => reaches_end(read_number(&s, 0), &s),
            Rule::NameOfMatrix => reaches_end(read_name(&s, 0), &s),
            Rule::Row => reaches_end(read_row(&s, 0), &s),
            Rule::Matrix => reaches_end(read_matrix(&s, 0), &s),
            Rule::MatDef => reaches_end(read_mat_def(&s, 0), &s),
            Rule::Add => reaches_end(read_add(&s, 0), &s),
            Rule::Subtract => reaches_end(read_subtract(&s, 0), &s),
            Rule::Mult => reaches_end(read_mult(&s, 0), &s),
            Rule::Scale => reaches_end(read_scale(&s, 0), &s),
            Rule::Operation => reaches_end(read_operation(&s, 0), &s),
            Rule::Comment => is_at(&s, 0, '#') && scan_run(&s, 0, CharClass::InLine) == s.len(),
        };
        if accepted {
            Ok(Pair { rule, text: input.to_owned() })
        } else {
            Err(ParseError::Syntax { line: 1 })
        }
    }
}

} // verus!
