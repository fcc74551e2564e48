//! Reading the round cells of a published cross-table, and planning the replay
//! of one round from every row's cell.
//!
//! Each round cell is a bye (`0+`), an absence (`0-` / `0#`), a half-point
//! bye/absence (`0=`), or a game `<opp><+/-/=>` with an optional `(<±><code>)`
//! handicap. Opponents are referenced by the `Nr` (final rank) column. A
//! handicap's sign says whether *this* player conceded the odds (`-`) or
//! received them (`+`), so the two rows of a game must mirror each other.

use vstd::prelude::*;

use crate::player::{first_non_digit, Grade};
use crate::round::{handicap_code, Board, Handicap, PairingSource, SitoutValue, Winner};
use crate::text::{ascii_lower_seq, digits_value, is_digit};
use crate::units::TournamentId;

verus! {

/// Why a cross-table could not be imported.
#[derive(Debug, Clone, PartialEq, Eq)]
pub enum ResultImportError {
    /// The text contained no parseable player rows.
    NoPlayers,
    /// A data row could not be parsed (missing number, no ELO column, …).
    BadRow { line: usize, reason: String },
    /// A round cell did not match any known shape.
    BadCell { line: usize, cell: String },
    /// Two rows share the same `Nr`.
    DuplicateNumber(u32),
    /// Rows disagree on how many round columns there are.
    InconsistentRounds { expected: usize, found: usize },
    /// A cell references a player number that has no row.
    UnknownOpponent { round: u32, by: u32, opponent: u32 },
    /// A game recorded by one player is not mirrored by the opponent.
    Asymmetric { round: u32, a: u32, b: u32 },
    /// Both sides of a game recorded the same win/loss (or disagreed on a draw).
    InconsistentResult { round: u32, a: u32, b: u32 },
    /// The two sides of a game disagree about the handicap: different odds, the
    /// same conceding sign on both, or only one side annotated at all.
    InconsistentHandicap { round: u32, a: u32, b: u32 },
}

/// The result of a game from one player's point of view.
#[derive(Debug, Clone, Copy, PartialEq, Eq, Structural)]
pub enum Outcome {
    Win,
    Loss,
    Draw,
}

/// The handicap read off one cell: the odds, and whether *this* player conceded
/// them (`-` in the cell) rather than received them (`+`).
#[derive(Debug, Clone, Copy, PartialEq, Eq, Structural)]
pub struct CellHandicap {
    pub handicap: Handicap,
    pub gave: bool,
}

/// A parsed round cell.
#[derive(Debug, Clone, Copy, PartialEq, Eq, Structural)]
pub enum Cell {
    Bye,
    Absent,
    /// A half-point bye/absence (`0=`): the player scored ½ without playing.
    HalfBye,
    Game { opponent: u32, outcome: Outcome, handicap: Option<CellHandicap> },
}

/// Whether outcome `b` is the complement of `a`: the same game seen from the
/// other side.
pub open spec fn outcomes_agree(a: Outcome, b: Outcome) -> bool {
    ||| a == Outcome::Win && b == Outcome::Loss
    ||| a == Outcome::Loss && b == Outcome::Win
    ||| a == Outcome::Draw && b == Outcome::Draw
}

/// The side recorded as winner, given whether the perspective player is
/// player 1: the perspective player on a win, the opponent on a loss, and on
/// a draw (which encodes no winner) player 1.
pub open spec fn recorded_winner(o: Outcome, is_player1: bool) -> Winner {
    match o {
        Outcome::Win => side_of(true, is_player1),
        Outcome::Loss => side_of(false, is_player1),
        Outcome::Draw => Winner::Player1,
    }
}

/// The side of a board that `won` belongs to, given whether the perspective
/// player is player 1.
pub open spec fn side_of(won: bool, is_player1: bool) -> Winner {
    if won == is_player1 {
        Winner::Player1
    } else {
        Winner::Player2
    }
}

impl Outcome {
    /// Whether the opponent's recorded outcome is the complement of this one.
    pub fn is_consistent_with(self, other: &Outcome) -> (r: bool)
        ensures
            r == outcomes_agree(self, *other),
    {
        match (self, other) {
            (Outcome::Win, Outcome::Loss) | (Outcome::Loss, Outcome::Win) | (
                Outcome::Draw,
                Outcome::Draw,
            ) => true,
            _ => false,
        }
    }

    /// Which side won, given whether the perspective player is player 1. A draw
    /// has no encoded winner, so it is arbitrarily assigned to player 1 (the
    /// draw flag is set separately).
    pub fn winner(self, is_player1: bool) -> (r: Winner)
        ensures
            r == recorded_winner(self, is_player1),
    {
        let won = match self {
            Outcome::Win => true,
            Outcome::Loss => false,
            Outcome::Draw => {
                return Winner::Player1;
            },
        };
        if won == is_player1 {
            Winner::Player1
        } else {
            Winner::Player2
        }
    }
}

/// A floater mark a cross-table may leave after a cell.
pub open spec fn is_floater_mark(c: char) -> bool {
    c == '^' || c == 'v'
}

/// `s` without its trailing floater marks.
pub open spec fn strip_floaters(s: Seq<char>) -> Seq<char>
    decreases s.len(),
{
    if s.len() > 0 && is_floater_mark(s.last()) {
        strip_floaters(s.drop_last())
    } else {
        s
    }
}

/// The handicap whose code is exactly `code`.
pub open spec fn code_handicap(code: Seq<char>) -> Option<Handicap> {
    if code == handicap_code(Handicap::Sente) {
        Some(Handicap::Sente)
    } else if code == handicap_code(Handicap::Lance) {
        Some(Handicap::Lance)
    } else if code == handicap_code(Handicap::Bishop) {
        Some(Handicap::Bishop)
    } else if code == handicap_code(Handicap::Rook) {
        Some(Handicap::Rook)
    } else if code == handicap_code(Handicap::RookLance) {
        Some(Handicap::RookLance)
    } else if code == handicap_code(Handicap::TwoPiece) {
        Some(Handicap::TwoPiece)
    } else if code == handicap_code(Handicap::FourPiece) {
        Some(Handicap::FourPiece)
    } else if code == handicap_code(Handicap::FivePiece) {
        Some(Handicap::FivePiece)
    } else if code == handicap_code(Handicap::SixPiece) {
        Some(Handicap::SixPiece)
    } else {
        None
    }
}

/// What a `(<±><code>)` suffix records: the code matched case-insensitively,
/// `m` read as the sente code; `None` when the suffix is malformed.
pub open spec fn suffix_handicap(t: Seq<char>) -> Option<CellHandicap> {
    if t.len() < 2 || t[0] != '(' || t.last() != ')' {
        None
    } else {
        let inner = t.subrange(1, t.len() - 1);
        if inner.len() == 0 || (inner[0] != '-' && inner[0] != '+') {
            None
        } else {
            let lowered = ascii_lower_seq(inner.drop_first());
            let code = if lowered == seq!['m'] {
                seq!['s']
            } else {
                lowered
            };
            match code_handicap(code) {
                Some(h) => Some(CellHandicap { handicap: h, gave: inner[0] == '-' }),
                None => None,
            }
        }
    }
}

/// The outcome a game cell's sign records.
pub open spec fn sign_outcome(c: char) -> Option<Outcome> {
    if c == '+' {
        Some(Outcome::Win)
    } else if c == '-' {
        Some(Outcome::Loss)
    } else if c == '=' {
        Some(Outcome::Draw)
    } else {
        None
    }
}

/// What a non-playing (`0`) cell's sign records.
pub open spec fn sign_sitout(c: char) -> Option<Cell> {
    if c == '+' {
        Some(Cell::Bye)
    } else if c == '-' || c == '#' {
        Some(Cell::Absent)
    } else if c == '=' {
        Some(Cell::HalfBye)
    } else {
        None
    }
}

/// Whether the cell (floater marks stripped) starts with a number that fits a
/// `u32` followed by at least one more character.
pub open spec fn has_number_head(c: Seq<char>) -> bool {
    let d = first_non_digit(c);
    0 < d < c.len() && digits_value(c.subrange(0, d)) <= u32::MAX
}

/// Whether the handicap suffix after the sign is present and malformed.
pub open spec fn bad_suffix(c: Seq<char>) -> bool {
    let tail = c.subrange(first_non_digit(c) + 1, c.len() as int);
    tail.len() > 0 && suffix_handicap(tail) is None
}

/// What a round cell means, or `None` when it is malformed. A non-playing cell
/// may carry a (well-formed) handicap suffix, which is dropped.
pub open spec fn cell_of(s: Seq<char>) -> Option<Cell> {
    let c = strip_floaters(s);
    if !has_number_head(c) || bad_suffix(c) {
        None
    } else {
        let d = first_non_digit(c);
        let opponent = digits_value(c.subrange(0, d));
        let tail = c.subrange(d + 1, c.len() as int);
        if opponent == 0 {
            sign_sitout(c[d])
        } else {
            match sign_outcome(c[d]) {
                Some(o) => Some(
                    Cell::Game {
                        opponent: opponent as u32,
                        outcome: o,
                        handicap: if tail.len() == 0 {
                            None
                        } else {
                            suffix_handicap(tail)
                        },
                    },
                ),
                None => None,
            }
        }
    }
}

/// The text a malformed cell is reported with: the cell as written, except
/// that a failing handicap suffix reports it with its floater marks stripped.
pub open spec fn bad_cell_text(s: Seq<char>) -> Seq<char> {
    let c = strip_floaters(s);
    if !has_number_head(c) {
        s
    } else {
        let d = first_non_digit(c);
        let suffix_checked = digits_value(c.subrange(0, d)) == 0 || sign_outcome(c[d]) is Some;
        if suffix_checked && bad_suffix(c) {
            c
        } else {
            s
        }
    }
}

proof fn lemma_first_non_digit(s: Seq<char>)
    ensures
        0 <= first_non_digit(s) <= s.len(),
        forall|i: int| 0 <= i < first_non_digit(s) ==> is_digit(#[trigger] s[i]),
        first_non_digit(s) < s.len() ==> !is_digit(s[first_non_digit(s)]),
    decreases s.len(),
{
    if s.len() > 0 && is_digit(s[0]) {
        lemma_first_non_digit(s.drop_first());
        assert forall|i: int| 0 <= i < first_non_digit(s) implies is_digit(#[trigger] s[i]) by {
            if i > 0 {
                assert(s[i] == s.drop_first()[i - 1]);
            }
        }
    }
}

/// The handicap whose code is `code`.
fn handicap_of_code(code: &[char]) -> (r: Option<Handicap>)
    ensures
        r == code_handicap(code@),
{
    let found = Handicap::from_code_chars(code);
    proof {
        match found {
            Some(h) => {
                assert(handicap_code(h) == code@);
                match h {
                    Handicap::Sente => {},
                    Handicap::Lance => assert(code@.len() == 1 && code@[0] == 'l'),
                    Handicap::Bishop => assert(code@.len() == 1 && code@[0] == 'b'),
                    Handicap::Rook => assert(code@.len() == 1 && code@[0] == 'r'),
                    Handicap::RookLance => assert(code@.len() == 2 && code@[0] == 'r'),
                    Handicap::TwoPiece => assert(code@.len() == 2 && code@[0] == '2'),
                    Handicap::FourPiece => assert(code@.len() == 2 && code@[0] == '4'),
                    Handicap::FivePiece => assert(code@.len() == 2 && code@[0] == '5'),
                    Handicap::SixPiece => assert(code@.len() == 2 && code@[0] == '6'),
                }
            },
            None => {
                assert(handicap_code(Handicap::Sente) != code@);
                assert(handicap_code(Handicap::Lance) != code@);
                assert(handicap_code(Handicap::Bishop) != code@);
                assert(handicap_code(Handicap::Rook) != code@);
                assert(handicap_code(Handicap::RookLance) != code@);
                assert(handicap_code(Handicap::TwoPiece) != code@);
                assert(handicap_code(Handicap::FourPiece) != code@);
                assert(handicap_code(Handicap::FivePiece) != code@);
                assert(handicap_code(Handicap::SixPiece) != code@);
            },
        }
    }
    found
}

/// Parse a `(<±><code>)` handicap suffix: the sign says whether this player
/// conceded the odds (`-`) or received them (`+`). Codes are matched
/// case-insensitively, and `m` is accepted as an older spelling of sente.
pub fn parse_handicap(suffix: &[char]) -> (r: Option<CellHandicap>)
    ensures
        r == suffix_handicap(suffix@),
{
    let n = suffix.len();
    if n < 2 || suffix[0] != '(' || suffix[n - 1] != ')' {
        return None;
    }
    let inner = crate::player::slice_range(suffix, 1, n - 1);
    assert(inner@ == suffix@.subrange(1, suffix@.len() - 1));
    if inner.len() == 0 || (inner[0] != '-' && inner[0] != '+') {
        return None;
    }
    let gave = inner[0] == '-';
    let rest = crate::player::slice_range(inner.as_slice(), 1, inner.len());
    assert(rest@ =~= inner@.drop_first());
    let lowered = crate::text::lower_ascii_chars(rest.as_slice());
    let m: [char; 1] = ['m'];
    assert(m@ =~= seq!['m']);
    let code: Vec<char> = if crate::text::chars_equal(lowered.as_slice(), &m) {
        let s: Vec<char> = vec!['s'];
        assert(s@ =~= seq!['s']);
        s
    } else {
        lowered
    };
    match handicap_of_code(code.as_slice()) {
        Some(h) => Some(CellHandicap { handicap: h, gave }),
        None => None,
    }
}

/// `s` without its trailing floater marks.
fn strip_floater_chars(s: &[char]) -> (r: Vec<char>)
    ensures
        r@ == strip_floaters(s@),
{
    let mut end: usize = s.len();
    assert(s@.subrange(0, end as int) =~= s@);
    while end > 0 && (s[end - 1] == '^' || s[end - 1] == 'v')
        invariant
            end <= s@.len(),
            strip_floaters(s@.subrange(0, end as int)) == strip_floaters(s@),
        decreases end,
    {
        assert(s@.subrange(0, end as int).drop_last() =~= s@.subrange(0, end - 1));
        end -= 1;
    }
    let r = crate::player::slice_range(s, 0, end);
    assert(!(r@.len() > 0 && is_floater_mark(r@.last())));
    r
}

/// Parse a single round cell: `0+` bye, `0-`/`0#` absence, `0=` half-point
/// bye/absence, or `<opp><+/-/=>` with an optional `(<±><code>)` handicap. A
/// trailing floater mark is tolerated; anything else after the sign is
/// rejected, with the cell and its line number in the error.
pub fn parse_cell(cell: &str, line_no: usize) -> (r: Result<Cell, ResultImportError>)
    ensures
        match r {
            Ok(c) => cell_of(cell@) == Some(c),
            Err(e) => cell_of(cell@) is None && (e matches ResultImportError::BadCell {
                line,
                cell: text,
            } && line == line_no && text@ == bad_cell_text(cell@)),
        },
{
    let original = crate::text::chars_of(cell);
    let c = strip_floater_chars(original.as_slice());
    proof {
        lemma_first_non_digit(c@);
    }
    let mut d: usize = 0;
    while d < c.len() && '0' <= c[d] && c[d] <= '9'
        invariant
            d <= first_non_digit(c@),
            0 <= first_non_digit(c@) <= c@.len(),
            forall|i: int| 0 <= i < first_non_digit(c@) ==> is_digit(#[trigger] c@[i]),
            first_non_digit(c@) < c@.len() ==> !is_digit(c@[first_non_digit(c@)]),
        decreases c@.len() - d,
    {
        d += 1;
    }
    assert(d as int == first_non_digit(c@));
    if d >= c.len() || d == 0 {
        return Err(ResultImportError::BadCell { line: line_no, cell: crate::text::owned(cell) });
    }
    let digits = crate::player::slice_range(c.as_slice(), 0, d);
    let opponent = match crate::text::parse_u32_digits(digits.as_slice()) {
        Some(v) => v,
        None => {
            assert(crate::text::all_digits(c@.subrange(0, d as int)));
            return Err(ResultImportError::BadCell { line: line_no, cell: crate::text::owned(cell) });
        },
    };
    let sign = c[d];
    let tail = crate::player::slice_range(c.as_slice(), d + 1, c.len());
    let suffix = if tail.len() == 0 {
        None
    } else {
        match parse_handicap(tail.as_slice()) {
            Some(h) => Some(h),
            None => {
                if opponent == 0 || sign == '+' || sign == '-' || sign == '=' {
                    return Err(
                        ResultImportError::BadCell {
                            line: line_no,
                            cell: crate::text::string_of(c.as_slice()),
                        },
                    );
                }
                return Err(ResultImportError::BadCell { line: line_no, cell: crate::text::owned(cell) });
            },
        }
    };
    if opponent == 0 {
        return if sign == '+' {
            Ok(Cell::Bye)
        } else if sign == '-' || sign == '#' {
            Ok(Cell::Absent)
        } else if sign == '=' {
            Ok(Cell::HalfBye)
        } else {
            Err(ResultImportError::BadCell { line: line_no, cell: crate::text::owned(cell) })
        };
    }
    let outcome = if sign == '+' {
        Outcome::Win
    } else if sign == '-' {
        Outcome::Loss
    } else if sign == '=' {
        Outcome::Draw
    } else {
        return Err(ResultImportError::BadCell { line: line_no, cell: crate::text::owned(cell) });
    };
    Ok(Cell::Game { opponent, outcome, handicap: suffix })
}

/// A parsed player row: its number and fields, plus one cell per round.
#[derive(Debug, Clone)]
pub struct RawRow {
    pub number: u32,
    pub last_name: String,
    pub first_name: String,
    pub nationality: Option<String>,
    pub rating: Option<u32>,
    /// The player's dan/kyu grade, if the source carries one.
    pub grade: Option<Grade>,
    pub cells: Vec<Cell>,
}

/// Whether no two rows share a number.
pub open spec fn numbers_distinct(rows: Seq<RawRow>) -> bool {
    forall|i: int, j: int| 0 <= i < j < rows.len() ==> #[trigger] rows[i].number != #[trigger] rows[j].number
}

/// The first row whose cell count differs from the first row's, if any.
pub open spec fn first_round_mismatch(rows: Seq<RawRow>, upto: int) -> Option<int>
    decreases upto,
{
    if upto <= 0 {
        None
    } else {
        match first_round_mismatch(rows, upto - 1) {
            Some(i) => Some(i),
            None => if rows[upto - 1].cells@.len() != rows[0].cells@.len() {
                Some(upto - 1)
            } else {
                None
            },
        }
    }
}

/// Whether `n` is the number of two different rows.
pub open spec fn repeated_number(rows: Seq<RawRow>, n: u32) -> bool {
    exists|i: int, j: int| 0 <= i < j < rows.len() && rows[i].number == n && rows[j].number == n
}

/// Whether `order` lists every row exactly once, by increasing number.
pub open spec fn registration_order(rows: Seq<RawRow>, order: Seq<usize>) -> bool {
    &&& order.len() == rows.len()
    &&& forall|k: int| 0 <= k < order.len() ==> (#[trigger] order[k]) < rows.len()
    &&& forall|k: int, l: int| 0 <= k < l < order.len() ==> rows[#[trigger] order[k] as int].number
        < rows[#[trigger] order[l] as int].number
}

/// Whether row index `i` appears in `order`.
pub open spec fn listed(order: Seq<usize>, i: int) -> bool {
    exists|k: int| 0 <= k < order.len() && order[k] == i
}

/// The row indices sorted by number (stable), by insertion.
fn rows_by_number(rows: &Vec<RawRow>) -> (r: Vec<usize>)
    ensures
        r@.len() == rows@.len(),
        forall|k: int| 0 <= k < r@.len() ==> (#[trigger] r@[k]) < rows@.len(),
        forall|k: int, l: int| 0 <= k < l < r@.len() ==> rows@[#[trigger] r@[k] as int].number
            <= rows@[#[trigger] r@[l] as int].number,
        forall|i: int| 0 <= i < rows@.len() ==> #[trigger] listed(r@, i),
        forall|k: int, l: int| 0 <= k < l < r@.len() ==> #[trigger] r@[k] != #[trigger] r@[l],
{
    let mut order: Vec<usize> = Vec::new();
    let mut i: usize = 0;
    while i < rows.len()
        invariant
            i <= rows@.len(),
            order@.len() == i,
            forall|k: int| 0 <= k < order@.len() ==> (#[trigger] order@[k]) < i,
            forall|k: int, l: int| 0 <= k < l < order@.len() ==> rows@[#[trigger] order@[k] as int].number
                <= rows@[#[trigger] order@[l] as int].number,
            forall|m: int| 0 <= m < i ==> #[trigger] listed(order@, m),
            forall|k: int, l: int| 0 <= k < l < order@.len() ==> #[trigger] order@[k] != #[trigger] order@[l],
        decreases rows@.len() - i,
    {
        let n = rows[i].number;
        let mut p: usize = order.len();
        while p > 0 && rows[order[p - 1]].number > n
            invariant
                p <= order@.len(),
                forall|k: int| 0 <= k < order@.len() ==> (#[trigger] order@[k]) < i,
                i < rows@.len(),
                n == rows@[i as int].number,
                forall|j: int| p <= j < order@.len() ==> rows@[#[trigger] order@[j] as int].number > n,
            decreases p,
        {
            p -= 1;
        }
        let ghost before = order@;
        order.insert(p, i);
        proof {
            assert forall|k: int, l: int| 0 <= k < l < order@.len() implies rows@[#[trigger] order@[k] as int].number
                <= rows@[#[trigger] order@[l] as int].number by {
                if k == p as int {
                    assert(order@[l] == before[l - 1]);
                } else if l == p as int {
                    assert(order@[k] == before[k]);
                    if k < p - 1 {
                        assert(rows@[before[k] as int].number <= rows@[before[p - 1] as int].number);
                    }
                } else if l < p {
                    assert(order@[k] == before[k] && order@[l] == before[l]);
                } else if k < p {
                    assert(order@[k] == before[k] && order@[l] == before[l - 1]);
                } else {
                    assert(order@[k] == before[k - 1] && order@[l] == before[l - 1]);
                }
            }
            assert forall|k: int| 0 <= k < order@.len() implies (#[trigger] order@[k]) < i + 1 by {
                if k < p {
                    assert(order@[k] == before[k]);
                } else if k > p {
                    assert(order@[k] == before[k - 1]);
                }
            }
            assert forall|k: int, l: int| 0 <= k < l < order@.len() implies #[trigger] order@[k] != #[trigger] order@[l] by {
                if k == p as int {
                    assert(order@[l] == before[l - 1]);
                } else if l == p as int {
                    assert(order@[k] == before[k]);
                } else if l < p {
                    assert(order@[k] == before[k] && order@[l] == before[l]);
                } else if k < p {
                    assert(order@[k] == before[k] && order@[l] == before[l - 1]);
                } else {
                    assert(order@[k] == before[k - 1] && order@[l] == before[l - 1]);
                }
            }
            assert forall|m: int| 0 <= m < i + 1 implies #[trigger] listed(order@, m) by {
                if m == i {
                    assert(order@[p as int] == i);
                } else {
                    assert(listed(before, m));
                    let k = choose|k: int| 0 <= k < before.len() && before[k] == m;
                    if k < p {
                        assert(order@[k] == m);
                    } else {
                        assert(order@[k + 1] == m);
                    }
                }
            }
        }
        i += 1;
    }
    order
}

/// Once a mismatch is found, later rows don't change which one it is.
proof fn lemma_mismatch_stays(rows: Seq<RawRow>, a: int, b: int)
    requires
        0 <= a <= b,
    ensures
        first_round_mismatch(rows, a) is Some ==> first_round_mismatch(rows, b) == first_round_mismatch(
            rows,
            a,
        ),
    decreases b - a,
{
    if a < b {
        lemma_mismatch_stays(rows, a, b - 1);
    }
}

/// Check the rows before any is registered: there must be some, all with the
/// same number of round cells, and no number repeated. On success, the order
/// the players are registered in: every row once, by increasing number.
pub fn check_rows(rows: &Vec<RawRow>) -> (r: Result<Vec<usize>, ResultImportError>)
    ensures
        rows@.len() == 0 ==> r == Err::<Vec<usize>, ResultImportError>(ResultImportError::NoPlayers),
        rows@.len() > 0 ==> (first_round_mismatch(rows@, rows@.len() as int) matches Some(i) ==> r
            == Err::<Vec<usize>, ResultImportError>(
            ResultImportError::InconsistentRounds {
                expected: rows@[0].cells@.len() as usize,
                found: rows@[i].cells@.len() as usize,
            },
        )),
        rows@.len() > 0 && first_round_mismatch(rows@, rows@.len() as int) is None ==> match r {
            Ok(order) => numbers_distinct(rows@) && registration_order(rows@, order@),
            Err(e) => e matches ResultImportError::DuplicateNumber(n) && repeated_number(rows@, n)
                && forall|m: u32| #[trigger] repeated_number(rows@, m) ==> n <= m,
        },
{
    if rows.len() == 0 {
        return Err(ResultImportError::NoPlayers);
    }
    let expected = rows[0].cells.len();
    let mut i: usize = 0;
    while i < rows.len()
        invariant
            i <= rows@.len(),
            rows@.len() > 0,
            expected == rows@[0].cells@.len(),
            first_round_mismatch(rows@, i as int) is None,
        decreases rows@.len() - i,
    {
        if rows[i].cells.len() != expected {
            proof {
                lemma_mismatch_stays(rows@, i as int + 1, rows@.len() as int);
            }
            return Err(ResultImportError::InconsistentRounds { expected, found: rows[i].cells.len() });
        }
        i += 1;
    }
    let order = rows_by_number(rows);
    assert(first_round_mismatch(rows@, rows@.len() as int) is None);
    let mut k: usize = 1;
    while k < order.len()
        invariant
            order@.len() == rows@.len(),
            1 <= k <= order@.len() || order@.len() == 0,
            forall|a: int| 0 <= a < order@.len() ==> (#[trigger] order@[a]) < rows@.len(),
            forall|a: int, b: int| 0 <= a < b < order@.len() ==> rows@[#[trigger] order@[a] as int].number
                <= rows@[#[trigger] order@[b] as int].number,
            forall|m: int| 0 <= m < rows@.len() ==> #[trigger] listed(order@, m),
            forall|a: int, b: int| 0 <= a < b < order@.len() ==> #[trigger] order@[a] != #[trigger] order@[b],
            first_round_mismatch(rows@, rows@.len() as int) is None,
            forall|a: int, b: int| 0 <= a < b < k ==> rows@[#[trigger] order@[a] as int].number
                < rows@[#[trigger] order@[b] as int].number,
        decreases order@.len() - k,
    {
        let n = rows[order[k]].number;
        if rows[order[k - 1]].number == n {
            proof {
                let (x, y) = (order@[k - 1] as int, order@[k as int] as int);
                if x < y {
                    assert(repeated_number(rows@, n));
                } else {
                    assert(repeated_number(rows@, n));
                }
                assert forall|m: u32| #[trigger] repeated_number(rows@, m) implies n <= m by {
                    let (a, b) = choose|a: int, b: int| 0 <= a < b < rows@.len() && rows@[a].number == m && rows@[b].number == m;
                    assert(listed(order@, a) && listed(order@, b));
                    let ka = choose|q: int| 0 <= q < order@.len() && #[trigger] order@[q] == a;
                    let kb = choose|q: int| 0 <= q < order@.len() && #[trigger] order@[q] == b;
                    if m < n {
                        // both sit before position k - 1, where numbers strictly increase
                        assert(ka < k - 1 || rows@[order@[ka] as int].number >= n) by {
                            if ka >= k - 1 {
                                assert(rows@[order@[k - 1] as int].number <= rows@[order@[ka] as int].number) by {
                                    if ka > k - 1 {
                                    }
                                }
                            }
                        }
                        assert(kb < k - 1 || rows@[order@[kb] as int].number >= n) by {
                            if kb >= k - 1 {
                                if kb > k - 1 {
                                    assert(rows@[order@[k - 1] as int].number <= rows@[order@[kb] as int].number);
                                }
                            }
                        }
                        assert(ka != kb);
                        if ka < kb {
                            assert(rows@[order@[ka] as int].number < rows@[order@[kb] as int].number);
                        } else {
                            assert(rows@[order@[kb] as int].number < rows@[order@[ka] as int].number);
                        }
                    }
                }
            }
            return Err(ResultImportError::DuplicateNumber(n));
        }
        proof {
            assert forall|a: int, b: int| 0 <= a < b < k + 1 implies rows@[#[trigger] order@[a] as int].number
                < rows@[#[trigger] order@[b] as int].number by {
                if b == k {
                    if a < k - 1 {
                        assert(rows@[order@[a] as int].number < rows@[order@[k - 1] as int].number);
                    }
                }
            }
        }
        k += 1;
    }
    proof {
        assert forall|i: int, j: int| 0 <= i < j < rows@.len() implies #[trigger] rows@[i].number != #[trigger] rows@[j].number by {
            assert(listed(order@, i) && listed(order@, j));
            let ki = choose|q: int| 0 <= q < order@.len() && #[trigger] order@[q] == i;
            let kj = choose|q: int| 0 <= q < order@.len() && #[trigger] order@[q] == j;
            if ki < kj {
                assert(rows@[order@[ki] as int].number < rows@[order@[kj] as int].number);
            } else {
                assert(rows@[order@[kj] as int].number < rows@[order@[ki] as int].number);
            }
        }
    }
    Ok(order)
}

/// Whether some row carries number `n`.
pub open spec fn has_row(rows: Seq<RawRow>, n: u32) -> bool {
    exists|i: int| 0 <= i < rows.len() && rows[i].number == n
}

/// The row carrying number `n`.
pub open spec fn row_numbered(rows: Seq<RawRow>, n: u32) -> int {
    choose|i: int| 0 <= i < rows.len() && rows[i].number == n
}

/// Whether the two rows of a game annotate the handicap alike: neither does,
/// or both give the same odds with opposite conceding signs.
pub open spec fn handicaps_mirror(a: Option<CellHandicap>, b: Option<CellHandicap>) -> bool {
    match (a, b) {
        (None, None) => true,
        (Some(x), Some(y)) => x.handicap == y.handicap && x.gave != y.gave,
        _ => false,
    }
}

/// What is wrong with row `i`'s cell in round `r` (0-based), if anything: an
/// opponent with no row, or — checked from the lower-numbered side — an
/// opponent cell that does not mirror it.
pub open spec fn cell_problem(rows: Seq<RawRow>, r: int, i: int) -> Option<ResultImportError> {
    let row = rows[i];
    let round = (r + 1) as u32;
    match row.cells@[r] {
        Cell::Game { opponent, outcome, handicap } => {
            if !has_row(rows, opponent) {
                Some(ResultImportError::UnknownOpponent { round, by: row.number, opponent })
            } else if row.number < opponent {
                match rows[row_numbered(rows, opponent)].cells@[r] {
                    Cell::Game { opponent: back, outcome: theirs, handicap: their_handicap } => {
                        if back != row.number {
                            Some(ResultImportError::Asymmetric { round, a: row.number, b: opponent })
                        } else if !outcomes_agree(outcome, theirs) {
                            Some(
                                ResultImportError::InconsistentResult {
                                    round,
                                    a: row.number,
                                    b: opponent,
                                },
                            )
                        } else if !handicaps_mirror(handicap, their_handicap) {
                            Some(
                                ResultImportError::InconsistentHandicap {
                                    round,
                                    a: row.number,
                                    b: opponent,
                                },
                            )
                        } else {
                            None
                        }
                    },
                    _ => Some(ResultImportError::Asymmetric { round, a: row.number, b: opponent }),
                }
            } else {
                None
            }
        },
        _ => None,
    }
}

/// The first problem among the first `n` rows' cells in round `r`.
pub open spec fn first_problem(rows: Seq<RawRow>, r: int, n: int) -> Option<ResultImportError>
    decreases n,
{
    if n <= 0 {
        None
    } else {
        match first_problem(rows, r, n - 1) {
            Some(e) => Some(e),
            None => cell_problem(rows, r, n - 1),
        }
    }
}

/// What a non-playing cell scores, if the cell is one.
pub open spec fn cell_sitout(c: Cell) -> Option<SitoutValue> {
    match c {
        Cell::Bye => Some(SitoutValue::Full),
        Cell::HalfBye => Some(SitoutValue::Half),
        Cell::Absent => Some(SitoutValue::Zero),
        Cell::Game { .. } => None,
    }
}

/// One round's replay plan over the first `n` rows: the forced byes (`0+`),
/// the absentees (`0=`, `0-`), what each non-playing cell scores, and each game
/// once, from its lower-numbered side (as numbers, and as a forced board
/// between tournament numbers).
pub open spec fn planned_byes(rows: Seq<RawRow>, ids: Seq<TournamentId>, r: int, n: int) -> Seq<TournamentId>
    decreases n,
{
    if n <= 0 {
        Seq::empty()
    } else {
        let prev = planned_byes(rows, ids, r, n - 1);
        if rows[n - 1].cells@[r] is Bye {
            prev.push(ids[n - 1])
        } else {
            prev
        }
    }
}

/// See [`planned_byes`]: the absentees.
pub open spec fn planned_absent(rows: Seq<RawRow>, ids: Seq<TournamentId>, r: int, n: int) -> Seq<TournamentId>
    decreases n,
{
    if n <= 0 {
        Seq::empty()
    } else {
        let prev = planned_absent(rows, ids, r, n - 1);
        if rows[n - 1].cells@[r] is HalfBye || rows[n - 1].cells@[r] is Absent {
            prev.push(ids[n - 1])
        } else {
            prev
        }
    }
}

/// See [`planned_byes`]: each non-playing cell's score.
pub open spec fn planned_sitouts(rows: Seq<RawRow>, ids: Seq<TournamentId>, r: int, n: int) -> Seq<
    (TournamentId, SitoutValue),
>
    decreases n,
{
    if n <= 0 {
        Seq::empty()
    } else {
        let prev = planned_sitouts(rows, ids, r, n - 1);
        match cell_sitout(rows[n - 1].cells@[r]) {
            Some(v) => prev.push((ids[n - 1], v)),
            None => prev,
        }
    }
}

/// See [`planned_byes`]: each game once, as (number, opponent number, outcome
/// and handicap from the first player's side).
pub open spec fn planned_games(rows: Seq<RawRow>, r: int, n: int) -> Seq<
    (u32, u32, Outcome, Option<CellHandicap>),
>
    decreases n,
{
    if n <= 0 {
        Seq::empty()
    } else {
        let prev = planned_games(rows, r, n - 1);
        match rows[n - 1].cells@[r] {
            Cell::Game { opponent, outcome, handicap } => if rows[n - 1].number < opponent {
                prev.push((rows[n - 1].number, opponent, outcome, handicap))
            } else {
                prev
            },
            _ => prev,
        }
    }
}

/// See [`planned_byes`]: each game's forced, pending board.
pub open spec fn planned_boards(rows: Seq<RawRow>, ids: Seq<TournamentId>, r: int, n: int) -> Seq<Board>
    decreases n,
{
    if n <= 0 {
        Seq::empty()
    } else {
        let prev = planned_boards(rows, ids, r, n - 1);
        match rows[n - 1].cells@[r] {
            Cell::Game { opponent, .. } => if rows[n - 1].number < opponent {
                prev.push(
                    Board {
                        player1: ids[n - 1],
                        player2: ids[row_numbered(rows, opponent)],
                        outcome: crate::round::Outcome::Pending { drawn: false },
                        handicap: None,
                        points_diff: 0,
                        source: PairingSource::Forced,
                        long: false,
                    },
                )
            } else {
                prev
            },
            _ => prev,
        }
    }
}

/// How one round of a cross-table is replayed: every pairing forced, every
/// non-playing cell scored as written, every game's result to record.
#[derive(Debug, Clone)]
pub struct RoundPlan {
    pub absent: Vec<TournamentId>,
    pub forced_byes: Vec<TournamentId>,
    pub forced_boards: Vec<Board>,
    pub sitout_values: Vec<(TournamentId, SitoutValue)>,
    pub results: Vec<(u32, u32, Outcome, Option<CellHandicap>)>,
}

/// The index of the row numbered `n`, if any.
fn find_row(rows: &Vec<RawRow>, n: u32) -> (r: Option<usize>)
    ensures
        r matches Some(i) ==> i < rows@.len() && rows@[i as int].number == n,
        r is None ==> !has_row(rows@, n),
{
    let mut i: usize = 0;
    while i < rows.len()
        invariant
            i <= rows@.len(),
            forall|j: int| 0 <= j < i ==> (#[trigger] rows@[j]).number != n,
        decreases rows@.len() - i,
    {
        if rows[i].number == n {
            return Some(i);
        }
        i += 1;
    }
    None
}

/// Plan the replay of round `r` (0-based) from every row's cell: each `0+` a
/// forced bye, each `0=` / `0-` an absence, each scored as the cell states,
/// and each game forced as a pending board, taken once from its
/// lower-numbered side after checking that the opponent's cell mirrors it.
/// `ids[i]` is the tournament number row `i` was registered under. The first
/// row (in order) whose cell is inconsistent gives the error.
pub fn plan_round(rows: &Vec<RawRow>, r: usize, ids: &Vec<TournamentId>) -> (res: Result<
    RoundPlan,
    ResultImportError,
>)
    requires
        rows@.len() == ids@.len(),
        r < u32::MAX,
        forall|i: int| 0 <= i < rows@.len() ==> r < (#[trigger] rows@[i]).cells@.len(),
        numbers_distinct(rows@),
    ensures
        match res {
            Err(e) => first_problem(rows@, r as int, rows@.len() as int) == Some(e),
            Ok(plan) => {
                let n = rows@.len() as int;
                &&& first_problem(rows@, r as int, n) is None
                &&& plan.forced_byes@ == planned_byes(rows@, ids@, r as int, n)
                &&& plan.absent@ == planned_absent(rows@, ids@, r as int, n)
                &&& plan.sitout_values@ == planned_sitouts(rows@, ids@, r as int, n)
                &&& plan.results@ == planned_games(rows@, r as int, n)
                &&& plan.forced_boards@ == planned_boards(rows@, ids@, r as int, n)
            },
        },
{
    let round_number = r as u32 + 1;
    let mut absent: Vec<TournamentId> = Vec::new();
    let mut forced_byes: Vec<TournamentId> = Vec::new();
    let mut forced_boards: Vec<Board> = Vec::new();
    let mut sitout_values: Vec<(TournamentId, SitoutValue)> = Vec::new();
    let mut results: Vec<(u32, u32, Outcome, Option<CellHandicap>)> = Vec::new();
    let mut i: usize = 0;
    while i < rows.len()
        invariant
            i <= rows@.len(),
            rows@.len() == ids@.len(),
            r < u32::MAX,
            round_number == r + 1,
            forall|j: int| 0 <= j < rows@.len() ==> r < (#[trigger] rows@[j]).cells@.len(),
            numbers_distinct(rows@),
            first_problem(rows@, r as int, i as int) is None,
            forced_byes@ == planned_byes(rows@, ids@, r as int, i as int),
            absent@ == planned_absent(rows@, ids@, r as int, i as int),
            sitout_values@ == planned_sitouts(rows@, ids@, r as int, i as int),
            results@ == planned_games(rows@, r as int, i as int),
            forced_boards@ == planned_boards(rows@, ids@, r as int, i as int),
        decreases rows@.len() - i,
    {
        let row = &rows[i];
        let id = ids[i];
        let cell = row.cells[r];
        match cell {
            Cell::Bye => {
                forced_byes.push(id);
                sitout_values.push((id, SitoutValue::Full));
            },
            Cell::HalfBye => {
                absent.push(id);
                sitout_values.push((id, SitoutValue::Half));
            },
            Cell::Absent => {
                absent.push(id);
                sitout_values.push((id, SitoutValue::Zero));
            },
            Cell::Game { opponent, outcome, handicap } => {
                let o = match find_row(rows, opponent) {
                    Some(o) => o,
                    None => {
                        proof {
                            lemma_first_problem_stays(rows@, r as int, i as int + 1, rows@.len() as int);
                        }
                        return Err(
                            ResultImportError::UnknownOpponent {
                                round: round_number,
                                by: row.number,
                                opponent,
                            },
                        );
                    },
                };
                proof {
                    assert(has_row(rows@, opponent));
                    let q = row_numbered(rows@, opponent);
                    if q != o as int {
                        if q < o {
                            assert(rows@[q].number != rows@[o as int].number);
                        } else {
                            assert(rows@[o as int].number != rows@[q].number);
                        }
                    }
                }
                if row.number < opponent {
                    let their = rows[o].cells[r];
                    let problem = match their {
                        Cell::Game { opponent: back, outcome: theirs, handicap: their_handicap } => {
                            if back != row.number {
                                Some(
                                    ResultImportError::Asymmetric {
                                        round: round_number,
                                        a: row.number,
                                        b: opponent,
                                    },
                                )
                            } else if !outcome.is_consistent_with(&theirs) {
                                Some(
                                    ResultImportError::InconsistentResult {
                                        round: round_number,
                                        a: row.number,
                                        b: opponent,
                                    },
                                )
                            } else {
                                let mirrored = match (handicap, their_handicap) {
                                    (None, None) => true,
                                    (Some(mine), Some(theirs)) => mine.handicap == theirs.handicap
                                        && mine.gave != theirs.gave,
                                    _ => false,
                                };
                                if !mirrored {
                                    Some(
                                        ResultImportError::InconsistentHandicap {
                                            round: round_number,
                                            a: row.number,
                                            b: opponent,
                                        },
                                    )
                                } else {
                                    None
                                }
                            }
                        },
                        _ => Some(
                            ResultImportError::Asymmetric {
                                round: round_number,
                                a: row.number,
                                b: opponent,
                            },
                        ),
                    };
                    if let Some(e) = problem {
                        proof {
                            lemma_first_problem_stays(rows@, r as int, i as int + 1, rows@.len() as int);
                        }
                        return Err(e);
                    }
                    forced_boards.push(Board::pending(id, ids[o], 0, PairingSource::Forced));
                    results.push((row.number, opponent, outcome, handicap));
                }
            },
        }
        i += 1;
    }
    Ok(RoundPlan { absent, forced_byes, forced_boards, sitout_values, results })
}

/// Once a problem is found, later rows don't change which one it is.
proof fn lemma_first_problem_stays(rows: Seq<RawRow>, r: int, a: int, b: int)
    requires
        0 <= a <= b,
    ensures
        first_problem(rows, r, a) is Some ==> first_problem(rows, r, b) == first_problem(rows, r, a),
    decreases b - a,
{
    if a < b {
        lemma_first_problem_stays(rows, r, a, b - 1);
    }
}

/// What to record on a replayed game's board, once found with `a` (the
/// game's first player) on side 1 or 2.
#[derive(Debug, Clone, Copy, PartialEq, Eq)]
pub struct BoardRecord {
    /// The side recorded as winner (for a draw, player 1).
    pub winner: Winner,
    /// The odds and the side that conceded them, from the cell.
    pub handicap: Option<(Handicap, Winner)>,
    /// Whether the game was a draw.
    pub drawn: bool,
}

/// What to record for a planned game, given whether its first player sits
/// on side 1 of the board: the conceding side is taken from the cell rather
/// than the ratings, and a draw records player 1 as winner plus the draw
/// flag.
pub fn board_record(outcome: Outcome, handicap: Option<CellHandicap>, a_is_player1: bool) -> (r:
    BoardRecord)
    ensures
        r.winner == recorded_winner(outcome, a_is_player1),
        r.drawn == (outcome == Outcome::Draw),
        r.handicap == (match handicap {
            Some(h) => Some((h.handicap, side_of(h.gave, a_is_player1))),
            None => None,
        }),
{
    let handicap = match handicap {
        Some(h) => {
            let giver = if h.gave == a_is_player1 {
                Winner::Player1
            } else {
                Winner::Player2
            };
            Some((h.handicap, giver))
        },
        None => None,
    };
    BoardRecord { winner: outcome.winner(a_is_player1), handicap, drawn: outcome == Outcome::Draw }
}

/// The recorded winner of an imported game: on a win the perspective
/// player's side, on a loss the other side, on a draw (which encodes no
/// winner) player 1. So a win and a loss from the same seat name opposite
/// sides, and a loss seen from one seat names the side a win seen from the
/// other seat does.
pub proof fn lemma_recorded_winner_follows_the_result(is_player1: bool)
    ensures
        recorded_winner(Outcome::Win, is_player1) == (if is_player1 { Winner::Player1 } else { Winner::Player2 }),
        recorded_winner(Outcome::Loss, is_player1) == (if is_player1 { Winner::Player2 } else { Winner::Player1 }),
        recorded_winner(Outcome::Draw, is_player1) == Winner::Player1,
        recorded_winner(Outcome::Win, is_player1) != recorded_winner(Outcome::Loss, is_player1),
        recorded_winner(Outcome::Loss, is_player1) == recorded_winner(Outcome::Win, !is_player1),
{
}

/// Two cells of one game agree exactly when each is the other's mirror: a
/// win against a loss, or a draw against a draw. Agreement is symmetric,
/// no result agrees with itself but a draw, and two agreeing cells record
/// the same winner from opposite seats.
pub proof fn lemma_cells_agree_as_mirrors(a: Outcome, b: Outcome, is_player1: bool)
    ensures
        outcomes_agree(a, b) == outcomes_agree(b, a),
        outcomes_agree(Outcome::Win, Outcome::Loss) && outcomes_agree(Outcome::Draw, Outcome::Draw),
        !outcomes_agree(Outcome::Win, Outcome::Win) && !outcomes_agree(Outcome::Loss, Outcome::Loss),
        !outcomes_agree(Outcome::Win, Outcome::Draw) && !outcomes_agree(Outcome::Loss, Outcome::Draw),
        (outcomes_agree(a, b) && a != Outcome::Draw) ==> recorded_winner(a, is_player1) == recorded_winner(
            b,
            !is_player1,
        ),
{
}

/// A game cell's sign: `+` a win, `-` a loss, `=` a draw, nothing else. A
/// non-playing cell's: `0+` a bye, `0-` and `0#` an absence, `0=` a half-point
/// sit-out, nothing else.
pub proof fn lemma_cell_signs(c: char)
    ensures
        sign_outcome('+') == Some(Outcome::Win),
        sign_outcome('-') == Some(Outcome::Loss),
        sign_outcome('=') == Some(Outcome::Draw),
        (c != '+' && c != '-' && c != '=') ==> sign_outcome(c) is None && (c != '#' ==> sign_sitout(c) is None),
        sign_sitout('+') == Some(Cell::Bye),
        sign_sitout('-') == Some(Cell::Absent),
        sign_sitout('#') == Some(Cell::Absent),
        sign_sitout('=') == Some(Cell::HalfBye),
{
}

/// Reading a handicap code back gives the handicap that wrote it, for every
/// handicap, and no two handicaps share a code.
pub proof fn lemma_handicap_codes_read_back(h: Handicap)
    ensures
        code_handicap(handicap_code(h)) == Some(h),
{
    match h {
        Handicap::Sente => {},
        _ => {
            crate::round::lemma_handicap_codes_distinct(h, Handicap::Sente);
            crate::round::lemma_handicap_codes_distinct(h, Handicap::Lance);
            crate::round::lemma_handicap_codes_distinct(h, Handicap::Bishop);
            crate::round::lemma_handicap_codes_distinct(h, Handicap::Rook);
            crate::round::lemma_handicap_codes_distinct(h, Handicap::RookLance);
            crate::round::lemma_handicap_codes_distinct(h, Handicap::TwoPiece);
            crate::round::lemma_handicap_codes_distinct(h, Handicap::FourPiece);
            crate::round::lemma_handicap_codes_distinct(h, Handicap::FivePiece);
        },
    }
}

} // verus!
