//! The results table as text: one competitor per line, the name first and
//! then one score per event, separated by commas.

use vstd::prelude::*;
use crate::player::{views_of, Player, PlayerView};

verus! {

/// The character between two cells of a line.
pub const SEPARATOR: char = ',';

/// The largest magnitude a score can have: that of the lowest `i32`.
pub const MAGNITUDE_LIMIT: u64 = 2147483648;

pub open spec fn is_digit(c: char) -> bool {
    '0' <= c <= '9'
}

/// The value of a decimal digit; zero for any other character.
pub open spec fn digit_value(c: char) -> nat {
    if is_digit(c) {
        (c as int - '0' as int) as nat
    } else {
        0
    }
}

pub open spec fn all_digits(text: Seq<char>) -> bool {
    forall|position: int| 0 <= position < text.len() ==> is_digit(#[trigger] text[position])
}

/// The number that a run of decimal digits writes.
pub open spec fn decimal_value(text: Seq<char>) -> nat
    decreases text.len(),
{
    if text.len() == 0 {
        0
    } else {
        decimal_value(text.drop_last()) * 10 + digit_value(text.last())
    }
}

/// The score that a cell writes: an optional sign, `+` or `-`, and then at
/// least one decimal digit and nothing else, with a value that an `i32`
/// holds. Any other text writes no score.
pub open spec fn score_of(text: Seq<char>) -> Option<i32> {
    let signed = text.len() > 0 && (text[0] == '-' || text[0] == '+');
    let digits = if signed {
        text.drop_first()
    } else {
        text
    };
    let value = if signed && text[0] == '-' {
        -decimal_value(digits)
    } else {
        decimal_value(digits) as int
    };
    if digits.len() > 0 && all_digits(digits) && i32::MIN <= value <= i32::MAX {
        Some(value as i32)
    } else {
        None
    }
}

/// Digits that follow can only make a number larger.
proof fn lemma_decimal_value_grows(text: Seq<char>, shorter: int)
    requires
        0 <= shorter <= text.len(),
    ensures
        decimal_value(text.subrange(0, shorter)) <= decimal_value(text),
    decreases text.len(),
{
    if shorter == text.len() {
        assert(text.subrange(0, shorter) =~= text);
    } else {
        assert(text.drop_last().subrange(0, shorter) =~= text.subrange(0, shorter));
        lemma_decimal_value_grows(text.drop_last(), shorter);
    }
}

/// Reads the score that a cell writes.
#[verifier::loop_isolation(false)]
pub fn parse_score(text: &[char]) -> (score: Option<i32>)
    ensures
        score == score_of(text@),
{
    let len = text.len();
    if len == 0 {
        return None;
    }
    let negative = text[0] == '-';
    let signed = negative || text[0] == '+';
    let start: usize = if signed {
        1
    } else {
        0
    };
    let ghost digits = text@.subrange(start as int, len as int);
    assert(digits =~= if signed {
        text@.drop_first()
    } else {
        text@
    });
    if start == len {
        return None;
    }
    let mut magnitude: u64 = 0;
    let mut position: usize = start;
    while position < len
        invariant
            start <= position <= len,
            all_digits(digits.subrange(0, position - start)),
            magnitude == decimal_value(digits.subrange(0, position - start)),
            magnitude <= MAGNITUDE_LIMIT,
        decreases len - position,
    {
        let c = text[position];
        if !('0' <= c && c <= '9') {
            assert(!is_digit(digits[position - start]));
            return None;
        }
        let digit: u64 = (c as u32 - '0' as u32) as u64;
        proof {
            let longer = digits.subrange(0, position - start + 1);
            assert(longer.drop_last() =~= digits.subrange(0, position - start));
            assert(longer.last() == c);
            assert(all_digits(longer));
            assert(decimal_value(longer) == magnitude * 10 + digit);
        }
        magnitude = magnitude * 10 + digit;
        if magnitude > MAGNITUDE_LIMIT {
            proof {
                lemma_decimal_value_grows(digits, position - start + 1);
            }
            return None;
        }
        position += 1;
    }
    assert(digits.subrange(0, position - start) =~= digits);
    if negative {
        if magnitude == MAGNITUDE_LIMIT {
            Some(i32::MIN)
        } else {
            Some(-(magnitude as i32))
        }
    } else if magnitude == MAGNITUDE_LIMIT {
        None
    } else {
        Some(magnitude as i32)
    }
}

/// The characters of a line, one by one.
pub fn chars_of(line: &str) -> (chars: Vec<char>)
    ensures
        chars@ == line@,
{
    let mut chars: Vec<char> = Vec::new();
    for c in walk: line.chars()
        invariant
            chars@ == walk.seq().subrange(0, walk.index() as int),
    {
        chars.push(c);
    }
    chars
}

/// Where the first cell of `text` ends: at the first separator, or at the
/// end of the text where there is none.
pub open spec fn cell_end(text: Seq<char>) -> nat
    decreases text.len(),
{
    if text.len() == 0 || text[0] == SEPARATOR {
        0
    } else {
        1 + cell_end(text.drop_first())
    }
}

/// The cells of a line: the pieces between its separators. A line without
/// a separator is one cell, and an empty piece is a cell too.
pub open spec fn split_cells(text: Seq<char>) -> Seq<Seq<char>>
    decreases text.len(),
{
    let end = cell_end(text);
    if end >= text.len() {
        seq![text]
    } else {
        seq![text.subrange(0, end as int)] + split_cells(
            text.subrange(end as int + 1, text.len() as int),
        )
    }
}

/// The text that a sequence of cells makes up: the cells in their order,
/// with a separator between one and the next.
pub open spec fn join_cells(cells: Seq<Seq<char>>) -> Seq<char>
    decreases cells.len(),
{
    if cells.len() == 0 {
        Seq::empty()
    } else if cells.len() == 1 {
        cells[0]
    } else {
        cells[0] + seq![SEPARATOR] + join_cells(cells.drop_first())
    }
}

/// No separator stands within the text.
pub open spec fn separator_free(text: Seq<char>) -> bool {
    forall|position: int| 0 <= position < text.len() ==> text[position] != SEPARATOR
}

/// What is wrong with a line.
#[derive(Clone, Copy, Debug, PartialEq, Eq, Structural)]
pub enum RowError {
    /// The line ends before the score of this event.
    MissingScore { event: usize },
    /// The cell for this event writes no score.
    BadScore { event: usize },
}

/// What is wrong with a table: the first line at fault, counted from zero,
/// and what is wrong with it.
#[derive(Clone, Copy, Debug, PartialEq, Eq, Structural)]
pub struct TableError {
    pub line: usize,
    pub fault: RowError,
}

/// What is wrong with the cell for one event, if anything. The name is
/// cell zero, so the score of an event stands one cell later.
pub open spec fn fault_at(cells: Seq<Seq<char>>, event: int) -> Option<RowError> {
    if event + 1 >= cells.len() {
        Some(RowError::MissingScore { event: event as usize })
    } else if score_of(cells[event + 1]) is None {
        Some(RowError::BadScore { event: event as usize })
    } else {
        None
    }
}

/// The fault of the earliest event, among the first `events`, that has one.
pub open spec fn first_fault(cells: Seq<Seq<char>>, events: nat) -> Option<RowError>
    decreases events,
{
    if events == 0 {
        None
    } else {
        match first_fault(cells, (events - 1) as nat) {
            Some(fault) => Some(fault),
            None => fault_at(cells, events - 1),
        }
    }
}

/// The competitor that a line describes when the table has `events`
/// events: named by the first cell, with the scores that the next
/// `events` cells write. Cells after those are not looked at.
pub open spec fn row_of(line: Seq<char>, events: nat) -> Result<PlayerView, RowError> {
    let cells = split_cells(line);
    match first_fault(cells, events) {
        Some(fault) => Err(fault),
        None => Ok(
            PlayerView {
                username: cells[0],
                history: Seq::new(events, |event: int| score_of(cells[event + 1]).unwrap()),
            },
        ),
    }
}

/// The first of the first `upto` lines that describes no competitor.
pub open spec fn first_bad_line(lines: Seq<String>, events: nat, upto: int) -> Option<TableError>
    decreases upto,
{
    if upto <= 0 {
        None
    } else {
        match first_bad_line(lines, events, upto - 1) {
            Some(error) => Some(error),
            None => match row_of(lines[upto - 1]@, events) {
                Err(fault) => Some(TableError { line: (upto - 1) as usize, fault }),
                Ok(_) => None,
            },
        }
    }
}

/// The competitors that the first `upto` lines describe, without those who
/// never scored, in the order of their lines.
pub open spec fn roster_of(lines: Seq<String>, events: nat, upto: int) -> Seq<PlayerView>
    decreases upto,
{
    if upto <= 0 {
        Seq::empty()
    } else {
        let earlier = roster_of(lines, events, upto - 1);
        match row_of(lines[upto - 1]@, events) {
            Ok(player) => if player.played() {
                earlier.push(player)
            } else {
                earlier
            },
            Err(_) => earlier,
        }
    }
}

/// A cell ends where the first separator stands.
proof fn lemma_cell_end(text: Seq<char>, end: int)
    requires
        0 <= end <= text.len(),
        forall|position: int| 0 <= position < end ==> text[position] != SEPARATOR,
        end < text.len() ==> text[end] == SEPARATOR,
    ensures
        cell_end(text) == end,
    decreases end,
{
    if end > 0 {
        lemma_cell_end(text.drop_first(), end - 1);
    }
}

/// The first cell of a text ends within it, and the cells after the
/// first are the cells of what follows the first separator.
proof fn lemma_split_step(text: Seq<char>)
    ensures
        cell_end(text) <= text.len(),
        split_cells(text).len() >= 1,
        split_cells(text)[0] == text.subrange(0, cell_end(text) as int),
        cell_end(text) == text.len() ==> split_cells(text).len() == 1,
        cell_end(text) < text.len() ==> split_cells(text).subrange(
            1,
            split_cells(text).len() as int,
        ) == split_cells(text.subrange(cell_end(text) as int + 1, text.len() as int)),
    decreases text.len(),
{
    if !(text.len() == 0 || text[0] == SEPARATOR) {
        lemma_split_step(text.drop_first());
    }
    let end = cell_end(text);
    if end >= text.len() {
        assert(text.subrange(0, end as int) =~= text);
    } else {
        let after = split_cells(text.subrange(end as int + 1, text.len() as int));
        assert(split_cells(text).subrange(1, split_cells(text).len() as int) =~= after);
    }
}

/// A text splits into at least one cell, no cell holds a separator, and
/// the cells joined again are the text.
pub proof fn lemma_split_then_join(text: Seq<char>)
    ensures
        split_cells(text).len() >= 1,
        forall|cell: int|
            0 <= cell < split_cells(text).len() ==> separator_free(#[trigger] split_cells(text)[cell]),
        join_cells(split_cells(text)) == text,
    decreases text.len(),
{
    lemma_split_step(text);
    lemma_cell_is_separator_free(text);
    let end = cell_end(text);
    let cells = split_cells(text);
    if end < text.len() {
        let after = text.subrange(end as int + 1, text.len() as int);
        lemma_split_then_join(after);
        assert(cells.drop_first() =~= split_cells(after));
        assert(text =~= text.subrange(0, end as int) + seq![SEPARATOR] + after);
        assert forall|cell: int| 0 <= cell < cells.len() implies separator_free(
            #[trigger] cells[cell],
        ) by {
            if cell > 0 {
                assert(cells[cell] == split_cells(after)[cell - 1]);
            }
        }
    }
}

/// Cells without a separator, joined, split into the same cells.
pub proof fn lemma_join_then_split(cells: Seq<Seq<char>>)
    requires
        cells.len() >= 1,
        forall|cell: int| 0 <= cell < cells.len() ==> separator_free(#[trigger] cells[cell]),
    ensures
        split_cells(join_cells(cells)) == cells,
    decreases cells.len(),
{
    let text = join_cells(cells);
    if cells.len() == 1 {
        lemma_cell_end(text, text.len() as int);
        assert(split_cells(text) =~= cells);
    } else {
        let rest = cells.drop_first();
        assert forall|cell: int| 0 <= cell < rest.len() implies separator_free(
            #[trigger] rest[cell],
        ) by {
            assert(rest[cell] == cells[cell + 1]);
        }
        lemma_join_then_split(rest);
        let end = cells[0].len() as int;
        lemma_cell_end(text, end);
        assert(text.subrange(0, end) =~= cells[0]);
        assert(text.subrange(end + 1, text.len() as int) =~= join_cells(rest));
        assert(split_cells(text) =~= cells);
    }
}

/// The first cell of a text holds no separator.
proof fn lemma_cell_is_separator_free(text: Seq<char>)
    ensures
        cell_end(text) <= text.len(),
        separator_free(text.subrange(0, cell_end(text) as int)),
        cell_end(text) < text.len() ==> text[cell_end(text) as int] == SEPARATOR,
    decreases text.len(),
{
    if !(text.len() == 0 || text[0] == SEPARATOR) {
        let shorter = text.drop_first();
        lemma_cell_is_separator_free(shorter);
        let cell = text.subrange(0, cell_end(text) as int);
        let inner = shorter.subrange(0, cell_end(shorter) as int);
        assert forall|position: int| 0 <= position < cell.len() implies cell[position]
            != SEPARATOR by {
            if position > 0 {
                assert(cell[position] == inner[position - 1]);
            }
        }
    }
}

/// With no fault before it, a fault is the first.
proof fn lemma_first_fault_found(cells: Seq<Seq<char>>, events: nat, event: int)
    requires
        0 <= event < events,
        forall|earlier: int| 0 <= earlier < event ==> fault_at(cells, earlier) is None,
        fault_at(cells, event) is Some,
    ensures
        first_fault(cells, events) == fault_at(cells, event),
    decreases events,
{
    if event < events - 1 {
        lemma_first_fault_found(cells, (events - 1) as nat, event);
    } else {
        lemma_no_fault(cells, (events - 1) as nat);
    }
}

/// With no fault anywhere, there is no first.
proof fn lemma_no_fault(cells: Seq<Seq<char>>, events: nat)
    requires
        forall|event: int| 0 <= event < events ==> fault_at(cells, event) is None,
    ensures
        first_fault(cells, events) is None,
    decreases events,
{
    if events > 0 {
        lemma_no_fault(cells, (events - 1) as nat);
    }
}

/// Finds the end of the cell that starts at `start`.
fn find_cell_end(chars: &Vec<char>, start: usize) -> (end: usize)
    requires
        start <= chars.len(),
    ensures
        start <= end <= chars.len(),
        end == start + cell_end(chars@.subrange(start as int, chars.len() as int)),
{
    let mut end: usize = start;
    while end < chars.len() && chars[end] != SEPARATOR
        invariant
            start <= end <= chars.len(),
            forall|position: int| start <= position < end ==> chars@[position] != SEPARATOR,
        decreases chars.len() - end,
    {
        end += 1;
    }
    proof {
        lemma_cell_end(chars@.subrange(start as int, chars.len() as int), end - start);
    }
    end
}

/// Reads the competitor that a line describes.
#[verifier::loop_isolation(false)]
pub fn parse_row(line: &str, events: usize) -> (row: Result<Player, RowError>)
    ensures
        match row {
            Ok(player) => row_of(line@, events as nat) == Ok::<PlayerView, RowError>(player@),
            Err(fault) => row_of(line@, events as nat) == Err::<PlayerView, RowError>(fault),
        },
        row is Ok ==> row->Ok_0@.history.len() == events,
{
    let chars = chars_of(line);
    let len = chars.len();
    let ghost cells = split_cells(line@);
    assert(chars@.subrange(0, len as int) =~= line@);
    let name_end = find_cell_end(&chars, 0);
    let username = line.substring_char(0, name_end).to_owned();
    proof {
        lemma_split_step(line@);
    }
    let mut history: Vec<i32> = Vec::new();
    let mut boundary: usize = name_end;
    let mut event: usize = 0;
    while event < events
        invariant
            event <= events,
            boundary <= len,
            boundary == len ==> cells.len() == event + 1,
            boundary < len ==> cells.len() > event + 1 && split_cells(
                chars@.subrange(boundary + 1, len as int),
            ) =~= cells.subrange(event + 1, cells.len() as int),
            history.len() == event,
            username@ == cells[0],
            forall|earlier: int|
                0 <= earlier < event ==> #[trigger] fault_at(cells, earlier) is None,
            forall|earlier: int|
                0 <= earlier < event ==> #[trigger] history@[earlier] == score_of(
                    cells[earlier + 1],
                ).unwrap(),
        decreases events - event,
    {
        if boundary >= len {
            proof {
                lemma_first_fault_found(cells, events as nat, event as int);
            }
            return Err(RowError::MissingScore { event });
        }
        let start: usize = boundary + 1;
        let end = find_cell_end(&chars, start);
        let ghost rest = chars@.subrange(start as int, len as int);
        proof {
            lemma_split_step(rest);
            assert(cells[event + 1] == cells.subrange(event + 1, cells.len() as int)[0]);
            assert(rest.subrange(0, end - start) =~= chars@.subrange(start as int, end as int));
        }
        match parse_score(&chars[start..end]) {
            None => {
                proof {
                    lemma_first_fault_found(cells, events as nat, event as int);
                }
                return Err(RowError::BadScore { event });
            },
            Some(score) => {
                history.push(score);
            },
        }
        proof {
            let later = cells.subrange(event + 1, cells.len() as int);
            if end < len {
                assert(rest.subrange(end - start + 1, rest.len() as int) =~= chars@.subrange(
                    end + 1,
                    len as int,
                ));
                assert(later.subrange(1, later.len() as int) =~= cells.subrange(
                    event + 2,
                    cells.len() as int,
                ));
            }
        }
        boundary = end;
        event += 1;
    }
    proof {
        lemma_no_fault(cells, events as nat);
    }
    let player = Player::new(username, history);
    assert(player@.history =~= Seq::new(
        events as nat,
        |event: int| score_of(cells[event + 1]).unwrap(),
    ));
    Ok(player)
}

/// Reads a table of `events` events, one competitor per line, and leaves
/// out the competitors who never scored. A line that describes no
/// competitor is an error, and the first such line is the one reported.
pub fn get_players(lines: &Vec<String>, events: usize) -> (table: Result<Vec<Player>, TableError>)
    ensures
        match table {
            Ok(players) => first_bad_line(lines@, events as nat, lines.len() as int) is None
                && views_of(players@) == roster_of(lines@, events as nat, lines.len() as int),
            Err(error) => first_bad_line(lines@, events as nat, lines.len() as int) == Some(error),
        },
        table is Ok ==> forall|position: int|
            0 <= position < table->Ok_0@.len() ==> {
                &&& (#[trigger] table->Ok_0@[position])@.history.len() == events
                &&& table->Ok_0@[position]@.played()
            },
{
    let mut players: Vec<Player> = Vec::new();
    let mut index: usize = 0;
    while index < lines.len()
        invariant
            index <= lines.len(),
            first_bad_line(lines@, events as nat, index as int) is None,
            views_of(players@) == roster_of(lines@, events as nat, index as int),
            forall|position: int|
                0 <= position < players@.len() ==> {
                    &&& (#[trigger] players@[position])@.history.len() == events
                    &&& players@[position]@.played()
                },
        decreases lines.len() - index,
    {
        match parse_row(lines[index].as_str(), events) {
            Err(fault) => {
                proof {
                    lemma_bad_line_found(lines@, events as nat, index as int, lines.len() as int);
                }
                return Err(TableError { line: index, fault });
            },
            Ok(player) => {
                if player.has_played() {
                    let ghost before = players@;
                    players.push(player);
                    assert(views_of(players@) =~= views_of(before).push(player@));
                }
            },
        }
        index += 1;
    }
    Ok(players)
}

/// With no bad line before it, a bad line is the first.
proof fn lemma_bad_line_found(lines: Seq<String>, events: nat, bad: int, upto: int)
    requires
        0 <= bad < upto,
        first_bad_line(lines, events, bad) is None,
        row_of(lines[bad]@, events) is Err,
    ensures
        first_bad_line(lines, events, upto) == Some(
            TableError { line: bad as usize, fault: row_of(lines[bad]@, events)->Err_0 },
        ),
    decreases upto,
{
    if bad < upto - 1 {
        lemma_bad_line_found(lines, events, bad, upto - 1);
    }
}

} // verus!
