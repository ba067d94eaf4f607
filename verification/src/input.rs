//! Reading what is available and the processes from text.
//!
//! The text holds rows of numbers, one row to a line, the numbers of a row
//! set apart by single white-space characters. The first row says what is
//! available. The rows after it fall in two halves: first what each process
//! holds, then, in the same order, what each may claim at most.

use vstd::prelude::*;
use vstd::slice::slice_subrange;
use vstd::string::StringExecFns;
use crate::process::{construction_error, models, ConstructionError, Process, ProcessView};
use crate::vector::quantities;

verus! {

/// Why a text gave no state to search.
#[derive(Debug, Clone, Copy, PartialEq, Eq, Structural)]
pub enum InputError {
    /// Some field is not a number that a `u32` can hold.
    NotANumber,
    /// There is no first row to say what is available.
    NoAvailability,
    /// The rows after the first do not fall in two halves of one length.
    UnevenRows,
    /// There are more processes than identifiers.
    TooManyProcesses,
    /// A process could not be built from its two rows.
    BadProcess(ConstructionError),
}

impl InputError {
    /// The text that reports this error.
    pub open spec fn text(self) -> Seq<char> {
        match self {
            InputError::NotANumber => "Not a number"@,
            InputError::NoAvailability => "No row of available resources"@,
            InputError::UnevenRows => "Rows do not pair up"@,
            InputError::TooManyProcesses => "Too many processes"@,
            InputError::BadProcess(cause) => "Failed to create Process: "@ + cause.text(),
        }
    }

    /// The text that reports this error.
    pub fn message(&self) -> (s: String)
        ensures
            s@ == self.text(),
    {
        match self {
            InputError::NotANumber => String::from_str("Not a number"),
            InputError::NoAvailability => String::from_str("No row of available resources"),
            InputError::UnevenRows => String::from_str("Rows do not pair up"),
            InputError::TooManyProcesses => String::from_str("Too many processes"),
            InputError::BadProcess(cause) => {
                let mut s = String::from_str("Failed to create Process: ");
                s.append(cause.message().as_str());
                s
            },
        }
    }
}

/// White space, as Unicode has it.
pub open spec fn is_blank(c: char) -> bool {
    ||| '\u{9}' <= c <= '\u{d}'
    ||| c == ' '
    ||| c == '\u{85}'
    ||| c == '\u{a0}'
    ||| c == '\u{1680}'
    ||| '\u{2000}' <= c <= '\u{200a}'
    ||| c == '\u{2028}'
    ||| c == '\u{2029}'
    ||| c == '\u{202f}'
    ||| c == '\u{205f}'
    ||| c == '\u{3000}'
}

/// One of the ten digits.
pub open spec fn is_digit(c: char) -> bool {
    '0' <= c <= '9'
}

/// The test for white space.
pub open spec fn blank() -> spec_fn(char) -> bool {
    |c: char| is_blank(c)
}

/// The test for the end of a line.
pub open spec fn newline() -> spec_fn(char) -> bool {
    |c: char| c == '\n'
}

/// How many characters stand before the first one that `ends` the run: all
/// of them, if none does.
pub open spec fn run_length(text: Seq<char>, ends: spec_fn(char) -> bool) -> nat
    decreases text.len(),
{
    if text.len() == 0 || ends(text[0]) {
        0
    } else {
        1 + run_length(text.drop_first(), ends)
    }
}

/// The fields of a line: what stands between its white-space characters,
/// before the first and after the last. A line without any is one field.
pub open spec fn fields_of(line: Seq<char>) -> Seq<Seq<char>>
    decreases line.len(),
{
    let n = run_length(line, blank()) as int;
    if n >= line.len() {
        seq![line]
    } else {
        seq![line.take(n)] + fields_of(line.skip(n + 1))
    }
}

/// The line without the carriage return at its end, if it has one.
pub open spec fn without_return(line: Seq<char>) -> Seq<char> {
    if line.len() > 0 && line.last() == '\r' {
        line.drop_last()
    } else {
        line
    }
}

/// The lines of a text. A line ends with a line feed, or with a carriage
/// return and a line feed; the last line need not end at all, and is then
/// taken as it stands.
pub open spec fn lines_of(text: Seq<char>) -> Seq<Seq<char>>
    decreases text.len(),
{
    if text.len() == 0 {
        Seq::empty()
    } else {
        let n = run_length(text, newline()) as int;
        if n >= text.len() {
            seq![text]
        } else {
            seq![without_return(text.take(n))] + lines_of(text.skip(n + 1))
        }
    }
}

/// The number that a run of digits writes in base ten.
pub open spec fn digits_value(digits: Seq<char>) -> nat
    decreases digits.len(),
{
    if digits.len() == 0 {
        0
    } else {
        10 * digits_value(digits.drop_last()) + (digits.last() as nat - '0' as nat) as nat
    }
}

/// The digits of a field: the field without the plus sign that may stand
/// before them.
pub open spec fn digits_of(field: Seq<char>) -> Seq<char> {
    if field.len() > 0 && field[0] == '+' {
        field.drop_first()
    } else {
        field
    }
}

/// The number that a field writes: one digit or more, with or without a
/// plus sign before them, that give no more than a `u32` can hold.
pub open spec fn number_of(field: Seq<char>) -> Option<nat> {
    let digits = digits_of(field);
    if digits.len() > 0 && (forall|i: int| 0 <= i < digits.len() ==> is_digit(#[trigger] digits[i]))
        && digits_value(digits) <= u32::MAX {
        Some(digits_value(digits))
    } else {
        None
    }
}

/// The numbers that the fields write, if each of them writes one.
pub open spec fn numbers_of(fields: Seq<Seq<char>>) -> Option<Seq<nat>> {
    if forall|i: int| 0 <= i < fields.len() ==> number_of(#[trigger] fields[i]) is Some {
        Some(Seq::new(fields.len(), |i: int| number_of(fields[i])->0))
    } else {
        None
    }
}

/// The row of numbers that a line writes, if every field of it is a number.
pub open spec fn row_of(line: Seq<char>) -> Option<Seq<nat>> {
    numbers_of(fields_of(line))
}

/// The rows of numbers that a text writes, if every line of it is a row.
pub open spec fn rows_of(text: Seq<char>) -> Option<Seq<Seq<nat>>> {
    let lines = lines_of(text);
    if forall|i: int| 0 <= i < lines.len() ==> row_of(#[trigger] lines[i]) is Some {
        Some(Seq::new(lines.len(), |i: int| row_of(lines[i])->0))
    } else {
        None
    }
}

/// What a table of rows stands for.
pub open spec fn tables(rows: Seq<Vec<u32>>) -> Seq<Seq<nat>> {
    Seq::new(rows.len(), |i: int| quantities(rows[i]@))
}

/// The process at place `i` of `n`, from the rows after the first: its
/// allocation is row `i`, its maximum claim row `n + i`.
pub open spec fn process_at(body: Seq<Seq<nat>>, n: int, i: int) -> ProcessView {
    ProcessView { id: i as nat, allocated: body[i], max_claim: body[n + i] }
}

/// The error of the first among the processes before place `upto` that
/// cannot be built, if there is one.
pub open spec fn first_failure(body: Seq<Seq<nat>>, n: int, upto: int) -> Option<ConstructionError>
    decreases upto,
{
    if upto <= 0 {
        None
    } else {
        match first_failure(body, n, upto - 1) {
            Some(e) => Some(e),
            None => construction_error(body[upto - 1], body[n + upto - 1]),
        }
    }
}

/// What is available and the processes, as a table of rows gives them: the
/// first row is what is available, the first half of the others what each
/// process holds, the second half what each may claim at most.
pub open spec fn state_of_rows(rows: Seq<Seq<nat>>) -> Result<
    (Seq<nat>, Seq<ProcessView>),
    InputError,
> {
    if rows.len() == 0 {
        Err(InputError::NoAvailability)
    } else {
        let body = rows.drop_first();
        let n = body.len() as int / 2;
        if body.len() % 2 != 0 {
            Err(InputError::UnevenRows)
        } else if n > u32::MAX + 1 {
            Err(InputError::TooManyProcesses)
        } else {
            match first_failure(body, n, n) {
                Some(e) => Err(InputError::BadProcess(e)),
                None => Ok((rows[0], Seq::new(n as nat, |i: int| process_at(body, n, i)))),
            }
        }
    }
}

/// What is available and the processes, as a text gives them.
pub open spec fn state_of_text(text: Seq<char>) -> Result<
    (Seq<nat>, Seq<ProcessView>),
    InputError,
> {
    match rows_of(text) {
        None => Err(InputError::NotANumber),
        Some(rows) => state_of_rows(rows),
    }
}

/// Once a process has failed, looking further gives the same error.
pub proof fn lemma_first_failure_stays(body: Seq<Seq<nat>>, n: int, upto: int, further: int)
    requires
        0 <= upto <= further,
        first_failure(body, n, upto) is Some,
    ensures
        first_failure(body, n, further) == first_failure(body, n, upto),
    decreases further - upto,
{
    if upto < further {
        lemma_first_failure_stays(body, n, upto, further - 1);
    }
}

/// A run of digits gives at least what any beginning of it gives.
pub proof fn lemma_digits_value_grows(digits: Seq<char>, k: int)
    requires
        0 <= k <= digits.len(),
    ensures
        digits_value(digits.take(k)) <= digits_value(digits),
    decreases digits.len(),
{
    if k == digits.len() {
        assert(digits.take(k) =~= digits);
    } else {
        lemma_digits_value_grows(digits.drop_last(), k);
        assert(digits.drop_last().take(k) =~= digits.take(k));
    }
}

/// Reads the number that a field writes.
pub fn parse_number(field: &[char]) -> (number: Option<u32>)
    ensures
        match number {
            Some(n) => number_of(field@) == Some(n as nat),
            None => number_of(field@) is None,
        },
{
    let n = field.len();
    let start: usize = if n > 0 && field[0] == '+' {
        1
    } else {
        0
    };
    let ghost digits = digits_of(field@);
    assert(digits =~= field@.subrange(start as int, n as int));
    if start == n {
        return None;
    }
    let mut value: u64 = 0;
    let mut i: usize = start;
    assert(digits.take(0) =~= Seq::empty());
    while i < n
        invariant
            start <= i <= n,
            n == field@.len(),
            digits == digits_of(field@),
            digits == field@.subrange(start as int, n as int),
            forall|k: int| 0 <= k < i - start ==> is_digit(#[trigger] digits[k]),
            value == digits_value(digits.take(i - start)),
            value <= u32::MAX,
        decreases n - i,
    {
        let c = field[i];
        if !('0' <= c && c <= '9') {
            assert(!is_digit(digits[i - start]));
            return None;
        }
        let ghost longer = digits.take(i - start + 1);
        assert(longer.drop_last() =~= digits.take(i - start));
        assert(longer.last() == c);
        value = value * 10 + (c as u32 - '0' as u32) as u64;
        if value > u32::MAX as u64 {
            proof {
                lemma_digits_value_grows(digits, i - start + 1);
            }
            return None;
        }
        i += 1;
    }
    assert(digits.take(n - start) =~= digits);
    Some(value as u32)
}

fn is_white_space(c: char) -> (blank: bool)
    ensures
        blank == is_blank(c),
{
    ('\u{9}' <= c && c <= '\u{d}') || c == ' ' || c == '\u{85}' || c == '\u{a0}' || c
        == '\u{1680}' || ('\u{2000}' <= c && c <= '\u{200a}') || c == '\u{2028}' || c
        == '\u{2029}' || c == '\u{202f}' || c == '\u{205f}' || c == '\u{3000}'
}

/// Where the field that begins at `from` ends: at the next white-space
/// character, or at the end of the line.
fn field_end(line: &[char], from: usize) -> (end: usize)
    requires
        from <= line@.len(),
    ensures
        end == from + run_length(line@.skip(from as int), blank()),
        from <= end <= line@.len(),
{
    let ghost rest = line@.skip(from as int);
    let mut end: usize = from;
    assert(rest.skip(0) =~= rest);
    while end < line.len() && !is_white_space(line[end])
        invariant
            from <= end <= line@.len(),
            rest == line@.skip(from as int),
            run_length(rest, blank()) == (end - from) + run_length(
                rest.skip(end - from),
                blank(),
            ),
        decreases line@.len() - end,
    {
        let ghost here = rest.skip(end - from);
        assert(here[0] == line@[end as int]);
        assert(here.drop_first() =~= rest.skip(end - from + 1));
        end += 1;
    }
    proof {
        if end < line@.len() {
            assert(rest.skip(end - from)[0] == line@[end as int]);
        }
    }
    end
}

/// Where the line that begins at `from` ends: at the next line feed, or at
/// the end of the text.
fn line_end(text: &[char], from: usize) -> (end: usize)
    requires
        from <= text@.len(),
    ensures
        end == from + run_length(text@.skip(from as int), newline()),
        from <= end <= text@.len(),
{
    let ghost rest = text@.skip(from as int);
    let mut end: usize = from;
    assert(rest.skip(0) =~= rest);
    while end < text.len() && text[end] != '\n'
        invariant
            from <= end <= text@.len(),
            rest == text@.skip(from as int),
            run_length(rest, newline()) == (end - from) + run_length(
                rest.skip(end - from),
                newline(),
            ),
        decreases text@.len() - end,
    {
        let ghost here = rest.skip(end - from);
        assert(here[0] == text@[end as int]);
        assert(here.drop_first() =~= rest.skip(end - from + 1));
        end += 1;
    }
    proof {
        if end < text@.len() {
            assert(rest.skip(end - from)[0] == text@[end as int]);
        }
    }
    end
}

/// Reads the row of numbers that a line writes.
pub fn parse_row(line: &[char]) -> (row: Option<Vec<u32>>)
    ensures
        match row {
            Some(numbers) => row_of(line@) == Some(quantities(numbers@)),
            None => row_of(line@) is None,
        },
{
    let n = line.len();
    let mut row: Vec<u32> = Vec::new();
    let mut pos: usize = 0;
    let ghost mut done: Seq<Seq<char>> = Seq::empty();
    assert(line@.skip(0) =~= line@);
    assert(done + fields_of(line@) =~= fields_of(line@));
    loop
        invariant
            pos <= n,
            n == line@.len(),
            fields_of(line@) == done + fields_of(line@.skip(pos as int)),
            row.len() == done.len(),
            forall|i: int|
                0 <= i < done.len() ==> number_of(#[trigger] done[i]) == Some(row[i] as nat),
        decreases n - pos,
    {
        let end = field_end(line, pos);
        let field = slice_subrange(line, pos, end);
        let ghost rest = line@.skip(pos as int);
        let ghost fields = fields_of(line@);
        proof {
            assert(field@ =~= rest.take(end - pos));
            if end >= n {
                assert(field@ =~= rest);
            }
            assert(fields_of(rest)[0] == field@);
            assert(fields[done.len() as int] == field@);
        }
        match parse_number(field) {
            None => {
                return None;
            },
            Some(number) => {
                row.push(number);
            },
        }
        if end >= n {
            proof {
                assert(fields =~= done.push(field@));
                assert forall|i: int| 0 <= i < fields.len() implies number_of(
                    #[trigger] fields[i],
                ) is Some by {
                    if i < done.len() {
                        assert(fields[i] == done[i]);
                    }
                }
                assert(Seq::new(fields.len(), |i: int| number_of(fields[i])->0) =~= quantities(
                    row@,
                )) by {
                    assert forall|i: int| 0 <= i < fields.len() implies number_of(fields[i])->0
                        == quantities(row@)[i] by {
                        if i < done.len() {
                            assert(fields[i] == done[i]);
                        }
                    }
                }
            }
            return Some(row);
        }
        proof {
            assert(rest.skip(end - pos + 1) =~= line@.skip(end + 1));
            assert(done + (seq![field@] + fields_of(line@.skip(end + 1))) =~= done.push(field@)
                + fields_of(line@.skip(end + 1)));
            done = done.push(field@);
        }
        pos = end + 1;
    }
}

fn chars_of(text: &str) -> (chars: Vec<char>)
    ensures
        chars@ == text@,
{
    let mut chars: Vec<char> = Vec::new();
    for c in it: text.chars()
        invariant
            chars@ == it.seq().take(it.index() as int),
            it.seq() == text@,
    {
        chars.push(c);
    }
    chars
}

/// Reads the rows of numbers that a text writes, one row to a line. Gives
/// nothing if any field of any line is not a number.
pub fn parse_rows(text: &str) -> (rows: Option<Vec<Vec<u32>>>)
    ensures
        match rows {
            Some(table) => rows_of(text@) == Some(tables(table@)),
            None => rows_of(text@) is None,
        },
{
    let chars = chars_of(text);
    let n = chars.len();
    let mut rows: Vec<Vec<u32>> = Vec::new();
    let mut pos: usize = 0;
    let ghost mut done: Seq<Seq<char>> = Seq::empty();
    assert(chars@.skip(0) =~= chars@);
    assert(done + lines_of(chars@) =~= lines_of(chars@));
    while pos < n
        invariant
            pos <= n,
            n == chars@.len(),
            chars@ == text@,
            lines_of(chars@) == done + lines_of(chars@.skip(pos as int)),
            rows.len() == done.len(),
            forall|i: int|
                0 <= i < done.len() ==> row_of(#[trigger] done[i]) == Some(quantities(rows[i]@)),
        decreases n - pos,
    {
        let end = line_end(chars.as_slice(), pos);
        let stop = if end < n && end > pos && chars[end - 1] == '\r' {
            end - 1
        } else {
            end
        };
        let line = slice_subrange(chars.as_slice(), pos, stop);
        let ghost rest = chars@.skip(pos as int);
        let ghost lines = lines_of(chars@);
        proof {
            let whole = rest.take(end - pos);
            assert(whole =~= chars@.subrange(pos as int, end as int));
            if end >= n {
                assert(line@ =~= rest);
            } else {
                assert(line@ =~= without_return(whole));
            }
            assert(lines_of(rest)[0] == line@);
            assert(lines[done.len() as int] == line@);
        }
        match parse_row(line) {
            None => {
                return None;
            },
            Some(row) => {
                rows.push(row);
            },
        }
        proof {
            if end >= n {
                assert(chars@.skip(n as int) =~= Seq::empty());
                assert(done + seq![line@] =~= done.push(line@) + lines_of(chars@.skip(n as int)));
            } else {
                assert(rest.skip(end - pos + 1) =~= chars@.skip(end + 1));
                assert(done + (seq![line@] + lines_of(chars@.skip(end + 1))) =~= done.push(line@)
                    + lines_of(chars@.skip(end + 1)));
            }
            done = done.push(line@);
        }
        pos = if end >= n {
            n
        } else {
            end + 1
        };
    }
    proof {
        let lines = lines_of(chars@);
        assert(chars@.skip(n as int) =~= Seq::empty());
        assert(lines =~= done);
        assert(Seq::new(lines.len(), |i: int| row_of(lines[i])->0) =~= tables(rows@));
    }
    Some(rows)
}

/// Builds what is available and the processes from a table of rows. The
/// processes are numbered from zero in the order of their rows.
pub fn build_state(rows: &Vec<Vec<u32>>) -> (state: Result<(Vec<u32>, Vec<Process>), InputError>)
    ensures
        match state {
            Ok(found) => state_of_rows(tables(rows@)) == Ok::<_, InputError>(
                (quantities(found.0@), models(found.1@)),
            ),
            Err(e) => state_of_rows(tables(rows@)) == Err::<(Seq<nat>, Seq<ProcessView>), _>(e),
        },
{
    if rows.len() == 0 {
        return Err(InputError::NoAvailability);
    }
    let ghost body = tables(rows@).drop_first();
    let count = rows.len() - 1;
    if count % 2 != 0 {
        return Err(InputError::UnevenRows);
    }
    let n = count / 2;
    if n > 0 && n - 1 > u32::MAX as usize {
        return Err(InputError::TooManyProcesses);
    }
    let mut processes: Vec<Process> = Vec::new();
    let mut i: usize = 0;
    while i < n
        invariant
            i <= n,
            rows.len() == 1 + 2 * n,
            n <= u32::MAX + 1,
            body == tables(rows@).drop_first(),
            first_failure(body, n as int, i as int) is None,
            processes.len() == i,
            forall|k: int|
                0 <= k < i ==> (#[trigger] processes[k])@ == process_at(body, n as int, k),
        decreases n - i,
    {
        let allocated = rows[1 + i].clone();
        let max = rows[1 + n + i].clone();
        proof {
            assert(allocated@ =~= rows[1 + i]@);
            assert(max@ =~= rows[1 + n + i]@);
            assert(body[i as int] == quantities(rows[1 + i]@));
            assert(body[n + i] == quantities(rows[1 + n + i]@));
        }
        match Process::new(i as u32, allocated, max) {
            Err(e) => {
                proof {
                    lemma_first_failure_stays(body, n as int, i + 1, n as int);
                }
                return Err(InputError::BadProcess(e));
            },
            Ok(process) => {
                processes.push(process);
            },
        }
        i += 1;
    }
    let available = rows[0].clone();
    proof {
        assert(available@ =~= rows[0]@);
        assert(tables(rows@)[0] == quantities(rows[0]@));
        assert(models(processes@) =~= Seq::new(n as nat, |i: int| process_at(body, n as int, i)));
    }
    Ok((available, processes))
}

/// Reads what is available and the processes from a text.
pub fn read_state(text: &str) -> (state: Result<(Vec<u32>, Vec<Process>), InputError>)
    ensures
        match state {
            Ok(found) => state_of_text(text@) == Ok::<_, InputError>(
                (quantities(found.0@), models(found.1@)),
            ),
            Err(e) => state_of_text(text@) == Err::<(Seq<nat>, Seq<ProcessView>), _>(e),
        },
{
    match parse_rows(text) {
        None => Err(InputError::NotANumber),
        Some(rows) => build_state(&rows),
    }
}

} // verus!
