//! Shared per-player scoring, replayed from the completed rounds.
//!
//! Both the pairing engine and the standings need the same underlying
//! figures — each player's points, who they faced and beat, whether they had
//! a bye, and their float history — so that computation lives here once.

use vstd::prelude::*;

use typed_index_collections::TiVec;
use uuid::Uuid;

use crate::ids::nil_id;
use crate::player::{Player, PointAdjustment};
use crate::round::{
    effective_winner_of, no_show_opponent_of, other_player, outcome_forfeit, side_player,
    sitout_halves, AbsenceKind, Board, Forfeit, Outcome, Round, Sitout, Winner,
};
use crate::settings::{macmahon_points_spec, mm_from_estimate, wiel_of, TournamentSettings};
use crate::tables::{id_at, id_rows, id_table, score_at, score_count, score_rows, score_table};
use crate::units::{HalfPoints, TournamentId, Wins};

verus! {

/// One player's accumulated state going into the next round.
pub struct PlayerScore {
    /// Games won (effective winner, plus what each sit-out was worth), in
    /// half-wins.
    pub victories: Wins,
    /// The starting score: MacMahon points with manual adjustments folded in,
    /// floored at zero.
    pub macmahon: HalfPoints,
    /// Opponents faced, one entry per game (a long board counts twice).
    pub opponents: Vec<TournamentId>,
    /// Opponents defeated (effective winner), one entry per game.
    pub defeated: Vec<TournamentId>,
    /// Cumulative sum of the running points total after each completed round.
    pub cuss_m: HalfPoints,
    /// Cumulative sum of the running win total after each completed round.
    pub cuss_w: Wins,
    /// Running points total after each completed round.
    pub running_points: Vec<HalfPoints>,
    /// Running win total after each completed round.
    pub running_wins: Vec<Wins>,
    /// Whether the player has had a bye or an opponent's no-show point.
    pub had_bye: bool,
    /// Round of the most recent up / down float, `None` if never.
    pub last_ascended: Option<u32>,
    pub last_descended: Option<u32>,
}

impl PlayerScore {
    /// The player's total score: the start plus the wins, derived rather than
    /// kept, so the two can never drift apart.
    pub fn points(&self) -> (r: HalfPoints)
        requires
            self.macmahon.0 + self.victories.0 <= u32::MAX,
        ensures
            r.0 == self.macmahon.0 + self.victories.0,
    {
        HalfPoints(self.macmahon.0 + self.victories.0)
    }

    /// A score with nothing recorded, for a number no player holds.
    pub fn blank() -> (r: PlayerScore)
        ensures
            r.victories.0 == 0 && r.macmahon.0 == 0 && r.opponents@.len() == 0 && r.defeated@.len() == 0
                && r.cuss_m.0 == 0 && r.cuss_w.0 == 0 && r.running_points@.len() == 0 && r.running_wins@.len() == 0
                && !r.had_bye && r.last_ascended is None && r.last_descended is None,
    {
        PlayerScore {
            victories: Wins(0),
            macmahon: HalfPoints(0),
            opponents: Vec::new(),
            defeated: Vec::new(),
            cuss_m: HalfPoints(0),
            cuss_w: Wins(0),
            running_points: Vec::new(),
            running_wins: Vec::new(),
            had_bye: false,
            last_ascended: None,
            last_descended: None,
        }
    }
}

/// `s` is the score the completed rounds replay for a player numbered `t`
/// whose start is `start` half-points.
pub open spec fn replayed(s: PlayerScore, rs: Seq<Round>, wiel: bool, t: TournamentId, start: int) -> bool {
    let n = rs.len() as int;
    let rw = running_wins_after(rs, wiel, t, n);
    &&& s.macmahon.0 == start
    &&& s.victories.0 == wins_after(rs, wiel, t, n)
    &&& s.opponents@ == opponents_after(rs, t, n)
    &&& s.defeated@ == defeated_after(rs, wiel, t, n)
    &&& s.had_bye == bye_after(rs, t, n)
    &&& s.last_ascended == last_up(rs, t, n)
    &&& s.last_descended == last_down(rs, t, n)
    &&& s.running_wins@.map_values(|w: Wins| w.0 as int) == rw
    &&& s.running_points@.map_values(|p: HalfPoints| p.0 as int) == rw.map_values(|w: int| start + w)
    &&& s.cuss_w.0 == total(rw, rw.len() as int)
    &&& s.cuss_m.0 == total(rw, rw.len() as int) + start * rw.len()
}

/// Partial sums of non-negative gains only grow.
proof fn lemma_board_gain_mono(bs: Seq<Board>, wiel: bool, t: TournamentId, i: int, j: int)
    requires
        0 <= i <= j,
    ensures
        0 <= board_gain(bs, wiel, t, i) <= board_gain(bs, wiel, t, j),
    decreases j,
{
    if j > i {
        lemma_board_gain_mono(bs, wiel, t, i, j - 1);
    } else if i > 0 {
        lemma_board_gain_mono(bs, wiel, t, 0, i - 1);
        lemma_board_gain_mono(bs, wiel, t, i - 1, i - 1);
    }
}

/// Partial sums of non-negative gains only grow.
proof fn lemma_sitout_gain_mono(ss: Seq<Sitout>, t: TournamentId, i: int, j: int)
    requires
        0 <= i <= j,
    ensures
        0 <= sitout_gain(ss, t, i) <= sitout_gain(ss, t, j),
    decreases j,
{
    if j > i {
        lemma_sitout_gain_mono(ss, t, i, j - 1);
    } else if i > 0 {
        lemma_sitout_gain_mono(ss, t, 0, i - 1);
        lemma_sitout_gain_mono(ss, t, i - 1, i - 1);
    }
}

/// Win totals only grow round by round.
proof fn lemma_wins_mono(rs: Seq<Round>, wiel: bool, t: TournamentId, i: int, j: int)
    requires
        0 <= i <= j,
    ensures
        0 <= wins_after(rs, wiel, t, i) <= wins_after(rs, wiel, t, j),
    decreases j,
{
    if j > i {
        lemma_wins_mono(rs, wiel, t, i, j - 1);
        let r = rs[j - 1];
        lemma_board_gain_mono(r.boards@, wiel, t, 0, r.boards@.len() as int);
        lemma_sitout_gain_mono(r.sitouts@, t, 0, r.sitouts@.len() as int);
    } else if i > 0 {
        lemma_wins_mono(rs, wiel, t, 0, i - 1);
        let r = rs[i - 1];
        lemma_board_gain_mono(r.boards@, wiel, t, 0, r.boards@.len() as int);
        lemma_sitout_gain_mono(r.sitouts@, t, 0, r.sitouts@.len() as int);
    }
}

/// Sums of non-negative entries only grow.
proof fn lemma_total_mono(s: Seq<int>, i: int, j: int)
    requires
        0 <= i <= j <= s.len(),
        forall|k: int| 0 <= k < s.len() ==> s[k] >= 0,
    ensures
        0 <= total(s, i) <= total(s, j),
    decreases j,
{
    if j > i {
        lemma_total_mono(s, i, j - 1);
    } else if i > 0 {
        lemma_total_mono(s, 0, i - 1);
        lemma_total_mono(s, i - 1, i - 1);
    }
}

/// Sums over agreeing prefixes agree.
proof fn lemma_total_prefix(s: Seq<int>, t: Seq<int>, n: int)
    requires
        0 <= n <= s.len(),
        n <= t.len(),
        forall|k: int| 0 <= k < n ==> s[k] == t[k],
    ensures
        total(s, n) == total(t, n),
    decreases n,
{
    if n > 0 {
        lemma_total_prefix(s, t, n - 1);
    }
}

/// The half-wins a round is worth to `t`, given it fits.
fn round_gain_of(r: &Round, wiel: bool, t: TournamentId, Ghost(cap): Ghost<int>) -> (g: u32)
    requires
        round_gain(*r, wiel, t) <= cap <= u32::MAX,
    ensures
        g == round_gain(*r, wiel, t),
{
    proof {
        lemma_board_gain_mono(r.boards@, wiel, t, 0, r.boards@.len() as int);
        lemma_sitout_gain_mono(r.sitouts@, t, 0, r.sitouts@.len() as int);
    }
    let mut g: u32 = 0;
    let mut i: usize = 0;
    while i < r.boards.len()
        invariant
            i <= r.boards@.len(),
            g == board_gain(r.boards@, wiel, t, i as int),
            round_gain(*r, wiel, t) <= cap <= u32::MAX,
            board_gain(r.boards@, wiel, t, r.boards@.len() as int) + sitout_gain(r.sitouts@, t, r.sitouts@.len() as int) <= u32::MAX,
            0 <= sitout_gain(r.sitouts@, t, r.sitouts@.len() as int),
        decreases r.boards@.len() - i,
    {
        proof {
            lemma_board_gain_mono(r.boards@, wiel, t, i + 1, r.boards@.len() as int);
        }
        let b = &r.boards[i];
        let w: u32 = if b.long {
            4
        } else {
            2
        };
        if b.winner_id(wiel) == Some(t) {
            g = g + w;
        }
        if b.no_show_opponent() == Some(t) {
            g = g + w;
        }
        i += 1;
    }
    let mut j: usize = 0;
    while j < r.sitouts.len()
        invariant
            j <= r.sitouts@.len(),
            g == board_gain(r.boards@, wiel, t, r.boards@.len() as int) + sitout_gain(r.sitouts@, t, j as int),
            board_gain(r.boards@, wiel, t, r.boards@.len() as int) + sitout_gain(r.sitouts@, t, r.sitouts@.len() as int) <= u32::MAX,
        decreases r.sitouts@.len() - j,
    {
        proof {
            lemma_sitout_gain_mono(r.sitouts@, t, j + 1, r.sitouts@.len() as int);
        }
        let s = r.sitouts[j];
        if s.player == t {
            g = g + s.value.wins().0;
        }
        j += 1;
    }
    g
}

/// Append the opponents and defeated opponents `t` records in round `r`.
fn record_games(r: &Round, wiel: bool, t: TournamentId, opponents: &mut Vec<TournamentId>, defeated: &mut Vec<TournamentId>)
    ensures
        final(opponents)@ == old(opponents)@ + board_opponents(r.boards@, t, r.boards@.len() as int),
        final(defeated)@ == old(defeated)@ + board_defeated(r.boards@, wiel, t, r.boards@.len() as int),
{
    let ghost o0 = opponents@;
    let ghost d0 = defeated@;
    let mut i: usize = 0;
    while i < r.boards.len()
        invariant
            i <= r.boards@.len(),
            opponents@ == o0 + board_opponents(r.boards@, t, i as int),
            defeated@ == d0 + board_defeated(r.boards@, wiel, t, i as int),
        decreases r.boards@.len() - i,
    {
        let b = &r.boards[i];
        let reps: usize = if b.long {
            2
        } else {
            1
        };
        let ghost ob = opponents@;
        if b.outcome.forfeit().is_none() {
            let mut k: usize = 0;
            while k < reps
                invariant
                    k <= reps,
                    reps == if b.long { 2usize } else { 1usize },
                    opponents@ == ob + if k == 0 {
                        Seq::empty()
                    } else if k == 1 {
                        game_opponents(*b, t)
                    } else {
                        game_opponents(*b, t) + game_opponents(*b, t)
                    },
                decreases reps - k,
            {
                let ghost before = opponents@;
                if b.player1 == t {
                    opponents.push(b.player2);
                }
                if b.player2 == t {
                    opponents.push(b.player1);
                }
                proof {
                    assert(opponents@ =~= before + game_opponents(*b, t));
                }
                k += 1;
            }
        }
        proof {
            assert(opponents@ =~= o0 + board_opponents(r.boards@, t, i + 1));
        }
        let ghost db = defeated@;
        match b.winner_id(wiel) {
            Some(w) => {
                if w == t {
                    let loser = match b.effective_loser(wiel) {
                        Some(l) => l,
                        None => t,
                    };
                    defeated.push(loser);
                    if b.long {
                        defeated.push(loser);
                    }
                }
            },
            None => {},
        }
        proof {
            assert(defeated@ =~= d0 + board_defeated(r.boards@, wiel, t, i + 1));
        }
        i += 1;
    }
}

/// Whether `t` had a bye in round `r`, floated down in it, and floated up in
/// it.
fn round_floats(r: &Round, t: TournamentId) -> (f: (bool, bool, bool))
    ensures
        f.0 == bye_in(*r, t),
        f.1 == descends_in(*r, t),
        f.2 == ascends_in(*r, t),
{
    let mut bye = false;
    let mut down = false;
    let mut up = false;
    let mut i: usize = 0;
    while i < r.boards.len()
        invariant
            i <= r.boards@.len(),
            bye == exists|k: int| 0 <= k < i && no_show_opponent_of(#[trigger] r.boards@[k]) == Some(t),
            down == exists|k: int|
                0 <= k < i && !forfeited(#[trigger] r.boards@[k]) && ((r.boards@[k].points_diff > 0 && r.boards@[k].player1 == t) || (
                r.boards@[k].points_diff < 0 && r.boards@[k].player2 == t)),
            up == exists|k: int|
                0 <= k < i && !forfeited(#[trigger] r.boards@[k]) && ((r.boards@[k].points_diff > 0 && r.boards@[k].player2 == t) || (
                r.boards@[k].points_diff < 0 && r.boards@[k].player1 == t)),
        decreases r.boards@.len() - i,
    {
        let b = &r.boards[i];
        if b.no_show_opponent() == Some(t) {
            bye = true;
        }
        if b.outcome.forfeit().is_none() {
            if (b.points_diff > 0 && b.player1 == t) || (b.points_diff < 0 && b.player2 == t) {
                down = true;
            }
            if (b.points_diff > 0 && b.player2 == t) || (b.points_diff < 0 && b.player1 == t) {
                up = true;
            }
        }
        i += 1;
    }
    let mut j: usize = 0;
    let mut sat_bye = false;
    while j < r.sitouts.len()
        invariant
            j <= r.sitouts@.len(),
            sat_bye == exists|k: int| 0 <= k < j && #[trigger] r.sitouts@[k].player == t && !(r.sitouts@[k].kind is Absent),
        decreases r.sitouts@.len() - j,
    {
        let s = r.sitouts[j];
        if s.player == t && s.kind.is_bye() {
            sat_bye = true;
        }
        j += 1;
    }
    let any_bye = bye || sat_bye;
    (any_bye, any_bye || down, up)
}

/// Games a board counts for: two for a long board, one otherwise.
pub open spec fn reps_of(b: Board) -> int {
    if b.long {
        2
    } else {
        1
    }
}

/// The board was resolved by a no-show (it is not a real game).
pub open spec fn forfeited(b: Board) -> bool {
    outcome_forfeit(b.outcome) is Some
}

/// The player the board's effective result credits, if decided.
pub open spec fn winner_of(b: Board, wiel: bool) -> Option<TournamentId> {
    match effective_winner_of(b, wiel) {
        Some(w) => Some(side_player(b, w)),
        None => None,
    }
}

/// The half-wins `t` takes from the first `n` boards of a round: two per game
/// won (effective winner), and two per game for the free point of an
/// opponent's no-show.
pub open spec fn board_gain(bs: Seq<Board>, wiel: bool, t: TournamentId, n: int) -> int
    decreases n,
{
    if n <= 0 {
        0
    } else {
        let b = bs[n - 1];
        board_gain(bs, wiel, t, n - 1) + (if winner_of(b, wiel) == Some(t) {
            2 * reps_of(b)
        } else {
            0int
        }) + (if no_show_opponent_of(b) == Some(t) {
            2 * reps_of(b)
        } else {
            0int
        })
    }
}

/// The half-wins `t` takes from the first `n` sit-outs of a round: whatever
/// each of its cells is worth.
pub open spec fn sitout_gain(ss: Seq<Sitout>, t: TournamentId, n: int) -> int
    decreases n,
{
    if n <= 0 {
        0
    } else {
        sitout_gain(ss, t, n - 1) + if ss[n - 1].player == t {
            sitout_halves(ss[n - 1].value) as int
        } else {
            0int
        }
    }
}

/// The half-wins a round is worth to `t`.
pub open spec fn round_gain(r: Round, wiel: bool, t: TournamentId) -> int {
    board_gain(r.boards@, wiel, t, r.boards@.len() as int) + sitout_gain(r.sitouts@, t, r.sitouts@.len() as int)
}

/// `t`'s half-wins over the completed rounds among the first `n`.
pub open spec fn wins_after(rs: Seq<Round>, wiel: bool, t: TournamentId, n: int) -> int
    decreases n,
{
    if n <= 0 {
        0
    } else {
        wins_after(rs, wiel, t, n - 1) + if rs[n - 1].completed {
            round_gain(rs[n - 1], wiel, t)
        } else {
            0int
        }
    }
}

/// One game's worth of opponents `t` records on a board: the other side, once
/// per side `t` holds.
pub open spec fn game_opponents(b: Board, t: TournamentId) -> Seq<TournamentId> {
    (if b.player1 == t {
        seq![b.player2]
    } else {
        Seq::empty()
    }) + (if b.player2 == t {
        seq![b.player1]
    } else {
        Seq::empty()
    })
}

/// The opponents `t` records over the first `n` boards of a round: each real
/// game (no-shows are not), a long board twice.
pub open spec fn board_opponents(bs: Seq<Board>, t: TournamentId, n: int) -> Seq<TournamentId>
    decreases n,
{
    if n <= 0 {
        Seq::empty()
    } else {
        let b = bs[n - 1];
        let g = game_opponents(b, t);
        board_opponents(bs, t, n - 1) + if forfeited(b) {
            Seq::empty()
        } else if b.long {
            g + g
        } else {
            g
        }
    }
}

/// The opponents `t` defeated over the first `n` boards of a round, a long
/// board twice.
pub open spec fn board_defeated(bs: Seq<Board>, wiel: bool, t: TournamentId, n: int) -> Seq<TournamentId>
    decreases n,
{
    if n <= 0 {
        Seq::empty()
    } else {
        let b = bs[n - 1];
        board_defeated(bs, wiel, t, n - 1) + match effective_winner_of(b, wiel) {
            Some(w) => if side_player(b, w) == t {
                if b.long {
                    seq![other_player(b, w), other_player(b, w)]
                } else {
                    seq![other_player(b, w)]
                }
            } else {
                Seq::empty()
            },
            None => Seq::empty(),
        }
    }
}

/// `t`'s opponents over the completed rounds among the first `n`.
pub open spec fn opponents_after(rs: Seq<Round>, t: TournamentId, n: int) -> Seq<TournamentId>
    decreases n,
{
    if n <= 0 {
        Seq::empty()
    } else {
        opponents_after(rs, t, n - 1) + if rs[n - 1].completed {
            board_opponents(rs[n - 1].boards@, t, rs[n - 1].boards@.len() as int)
        } else {
            Seq::empty()
        }
    }
}

/// `t`'s defeated opponents over the completed rounds among the first `n`.
pub open spec fn defeated_after(rs: Seq<Round>, wiel: bool, t: TournamentId, n: int) -> Seq<TournamentId>
    decreases n,
{
    if n <= 0 {
        Seq::empty()
    } else {
        defeated_after(rs, wiel, t, n - 1) + if rs[n - 1].completed {
            board_defeated(rs[n - 1].boards@, wiel, t, rs[n - 1].boards@.len() as int)
        } else {
            Seq::empty()
        }
    }
}

/// `t` had a bye in round `r`: a bye of any kind, or an opponent's no-show.
pub open spec fn bye_in(r: Round, t: TournamentId) -> bool {
    (exists|k: int| 0 <= k < r.sitouts@.len() && #[trigger] r.sitouts@[k].player == t && !(r.sitouts@[k].kind is Absent))
        || (exists|k: int| 0 <= k < r.boards@.len() && no_show_opponent_of(#[trigger] r.boards@[k]) == Some(t))
}

/// `t` floated down in round `r`: the higher-scored side of a real game (by
/// its frozen difference), or a bye.
pub open spec fn descends_in(r: Round, t: TournamentId) -> bool {
    bye_in(r, t) || exists|k: int|
        0 <= k < r.boards@.len() && !forfeited(#[trigger] r.boards@[k]) && ((r.boards@[k].points_diff > 0 && r.boards@[k].player1 == t) || (
        r.boards@[k].points_diff < 0 && r.boards@[k].player2 == t))
}

/// `t` floated up in round `r`: the lower-scored side of a real game.
pub open spec fn ascends_in(r: Round, t: TournamentId) -> bool {
    exists|k: int|
        0 <= k < r.boards@.len() && !forfeited(#[trigger] r.boards@[k]) && ((r.boards@[k].points_diff > 0 && r.boards@[k].player2 == t) || (
        r.boards@[k].points_diff < 0 && r.boards@[k].player1 == t))
}

/// Whether `t` had a bye in a completed round among the first `n`.
pub open spec fn bye_after(rs: Seq<Round>, t: TournamentId, n: int) -> bool
    decreases n,
{
    if n <= 0 {
        false
    } else {
        bye_after(rs, t, n - 1) || (rs[n - 1].completed && bye_in(rs[n - 1], t))
    }
}

/// The number of the last completed round among the first `n` in which `t`
/// floated down.
pub open spec fn last_down(rs: Seq<Round>, t: TournamentId, n: int) -> Option<u32>
    decreases n,
{
    if n <= 0 {
        None
    } else if rs[n - 1].completed && descends_in(rs[n - 1], t) {
        Some(rs[n - 1].number)
    } else {
        last_down(rs, t, n - 1)
    }
}

/// The number of the last completed round among the first `n` in which `t`
/// floated up.
pub open spec fn last_up(rs: Seq<Round>, t: TournamentId, n: int) -> Option<u32>
    decreases n,
{
    if n <= 0 {
        None
    } else if rs[n - 1].completed && ascends_in(rs[n - 1], t) {
        Some(rs[n - 1].number)
    } else {
        last_up(rs, t, n - 1)
    }
}

/// `t`'s running win totals after each completed round among the first `n`.
pub open spec fn running_wins_after(rs: Seq<Round>, wiel: bool, t: TournamentId, n: int) -> Seq<int>
    decreases n,
{
    if n <= 0 {
        Seq::empty()
    } else {
        running_wins_after(rs, wiel, t, n - 1) + if rs[n - 1].completed {
            seq![wins_after(rs, wiel, t, n)]
        } else {
            Seq::empty()
        }
    }
}

/// The sum of the first `n` entries.
pub open spec fn total(s: Seq<int>, n: int) -> int
    decreases n,
{
    if n <= 0 {
        0
    } else {
        total(s, n - 1) + s[n - 1]
    }
}

/// How many of the first `n` rounds are completed.
pub open spec fn completed_count(rs: Seq<Round>, n: int) -> int
    decreases n,
{
    if n <= 0 {
        0
    } else {
        completed_count(rs, n - 1) + if rs[n - 1].completed {
            1int
        } else {
            0int
        }
    }
}

/// The sum of a player's adjustments over the first `n`.
pub open spec fn adjustment_sum(a: Seq<PointAdjustment>, n: int) -> int
    decreases n,
{
    if n <= 0 {
        0
    } else {
        adjustment_sum(a, n - 1) + a[n - 1].delta
    }
}

/// A player's starting score in half-points: MacMahon points (`base` whole
/// points) with the manual adjustments folded in, floored at zero.
pub open spec fn start_halves(base: int, adjustments: Seq<PointAdjustment>) -> int {
    let v = 2 * base + 2 * adjustment_sum(adjustments, adjustments.len() as int);
    if v > 0 {
        v
    } else {
        0
    }
}

/// Replay the completed rounds for the player numbered `t` whose start is
/// `start` half-points.
fn replay_player(rounds: &[Round], wiel: bool, t: TournamentId, start: u32) -> (s: PlayerScore)
    requires
        ({
            let rw = running_wins_after(rounds@, wiel, t, rounds@.len() as int);
            start + wins_after(rounds@, wiel, t, rounds@.len() as int) <= u32::MAX
                && total(rw, rw.len() as int) + start * rw.len() <= u32::MAX
        }),
    ensures
        replayed(s, rounds@, wiel, t, start as int),
{
    let ghost rs = rounds@;
    let ghost n = rs.len() as int;
    let ghost rw_all = running_wins_after(rs, wiel, t, n);
    let mut s = PlayerScore::blank();
    s.macmahon = HalfPoints(start);
    proof {
        lemma_wins_mono(rs, wiel, t, 0, n);
        lemma_running_wins(rs, wiel, t, n);
    }
    let mut i: usize = 0;
    while i < rounds.len()
        invariant
            i <= rs.len(),
            rs == rounds@,
            n == rs.len(),
            rw_all == running_wins_after(rs, wiel, t, n),
            start + wins_after(rs, wiel, t, n) <= u32::MAX,
            total(rw_all, rw_all.len() as int) + start * rw_all.len() <= u32::MAX,
            forall|k: int| 0 <= k < rw_all.len() ==> 0 <= #[trigger] rw_all[k] <= wins_after(rs, wiel, t, n),
            rw_all.len() <= n,
            s.macmahon.0 == start,
            s.victories.0 == wins_after(rs, wiel, t, i as int),
            s.opponents@ == opponents_after(rs, t, i as int),
            s.defeated@ == defeated_after(rs, wiel, t, i as int),
            s.had_bye == bye_after(rs, t, i as int),
            s.last_ascended == last_up(rs, t, i as int),
            s.last_descended == last_down(rs, t, i as int),
            s.running_wins@.map_values(|w: Wins| w.0 as int) == running_wins_after(rs, wiel, t, i as int),
            s.running_points@.map_values(|p: HalfPoints| p.0 as int) == running_wins_after(rs, wiel, t, i as int).map_values(|w: int| start + w),
            s.cuss_w.0 == total(running_wins_after(rs, wiel, t, i as int), running_wins_after(rs, wiel, t, i as int).len() as int),
            s.cuss_m.0 == total(running_wins_after(rs, wiel, t, i as int), running_wins_after(rs, wiel, t, i as int).len() as int) + start * running_wins_after(rs, wiel, t, i as int).len(),
        decreases rs.len() - i,
    {
        let r = &rounds[i];
        let ghost rw_i = running_wins_after(rs, wiel, t, i as int);
        proof {
            lemma_running_prefix(rs, wiel, t, i + 1, n);
            lemma_wins_mono(rs, wiel, t, i + 1, n);
        }
        if r.completed {
            let g = round_gain_of(r, wiel, t, Ghost(wins_after(rs, wiel, t, n)));
            s.victories = Wins(s.victories.0 + g);
            let ghost o = s.opponents@;
            record_games(r, wiel, t, &mut s.opponents, &mut s.defeated);
            let (bye, down, up) = round_floats(r, t);
            if bye {
                s.had_bye = true;
            }
            if down {
                s.last_descended = Some(r.number);
            }
            if up {
                s.last_ascended = Some(r.number);
            }
            let w = s.victories.0;
            let ghost rw_next = running_wins_after(rs, wiel, t, i + 1);
            let ghost li = rw_i.len() as int;
            proof {
                assert(rw_next =~= rw_i.push(w as int));
                assert(rw_next.len() <= rw_all.len());
                lemma_total_prefix(rw_next, rw_all, rw_next.len() as int);
                lemma_total_mono(rw_all, rw_next.len() as int, rw_all.len() as int);
                lemma_total_prefix(rw_next, rw_i, li);
                assert(total(rw_next, li + 1) == total(rw_i, li) + w);
                assert(start * (li + 1) == start * li + start) by (nonlinear_arith);
                assert(total(rw_next, rw_next.len() as int) + start * rw_next.len() <= total(rw_all, rw_all.len() as int) + start * rw_all.len()) by (nonlinear_arith)
                    requires
                        total(rw_next, rw_next.len() as int) <= total(rw_all, rw_all.len() as int),
                        rw_next.len() <= rw_all.len(),
                        start >= 0,
                ;
            }
            let ghost rwv0 = s.running_wins@;
            let ghost rpv0 = s.running_points@;
            s.cuss_w = Wins(s.cuss_w.0 + w);
            s.cuss_m = HalfPoints(s.cuss_m.0 + start + w);
            s.running_wins.push(Wins(w));
            s.running_points.push(HalfPoints(start + w));
            proof {
                assert(s.running_wins@ =~= rwv0.push(Wins(w)));
                assert(s.running_points@ =~= rpv0.push(HalfPoints((start + w) as u32)));
                assert(s.running_wins@.map_values(|w: Wins| w.0 as int) =~= rw_next);
                let f = |p: HalfPoints| p.0 as int;
                let g = |w: int| start + w;
                assert(rpv0.map_values(f) =~= rw_i.map_values(g));
                assert(rpv0.map_values(f).len() == rpv0.len());
                assert(rw_i.map_values(g).len() == rw_i.len());
                assert(rpv0.len() == li);
                assert forall|k: int| 0 <= k < li + 1 implies #[trigger] s.running_points@.map_values(f)[k] == rw_next.map_values(g)[k] by {
                    if k < li {
                        assert(s.running_points@[k] == rpv0[k]);
                        assert(rpv0.map_values(f)[k] == rw_i.map_values(g)[k]);
                        assert(rw_next[k] == rw_i[k]);
                    }
                }
                assert(s.running_points@.map_values(f) =~= rw_next.map_values(g));
            }
        } else {
            proof {
                assert(running_wins_after(rs, wiel, t, i + 1) =~= rw_i);
            }
        }
        i += 1;
    }
    s
}

/// The running win totals are bounded by the final total, and a shorter
/// replay's list is a prefix of a longer one's.
proof fn lemma_running_wins(rs: Seq<Round>, wiel: bool, t: TournamentId, n: int)
    requires
        0 <= n,
    ensures
        running_wins_after(rs, wiel, t, n).len() <= n,
        forall|k: int| 0 <= k < running_wins_after(rs, wiel, t, n).len() ==> 0 <= #[trigger] running_wins_after(rs, wiel, t, n)[k] <= wins_after(rs, wiel, t, n),
    decreases n,
{
    if n > 0 {
        lemma_running_wins(rs, wiel, t, n - 1);
        lemma_wins_mono(rs, wiel, t, n - 1, n);
        lemma_wins_mono(rs, wiel, t, 0, n);
    }
}

/// A shorter replay's running list is a prefix of a longer one's.
proof fn lemma_running_prefix(rs: Seq<Round>, wiel: bool, t: TournamentId, i: int, j: int)
    requires
        0 <= i <= j,
    ensures
        running_wins_after(rs, wiel, t, i).len() <= running_wins_after(rs, wiel, t, j).len(),
        forall|k: int| 0 <= k < running_wins_after(rs, wiel, t, i).len() ==> #[trigger] running_wins_after(rs, wiel, t, i)[k] == running_wins_after(rs, wiel, t, j)[k],
    decreases j,
{
    if j > i {
        lemma_running_prefix(rs, wiel, t, i, j - 1);
    }
}

/// Per-player scores in a dense table indexed by tournament number, with the
/// reverse map from number to player id. Numbers no player holds are gaps,
/// holding a blank score.
pub struct Scores {
    pub by_tid: TiVec<TournamentId, PlayerScore>,
    pub ids: TiVec<TournamentId, Uuid>,
}

impl Scores {
    /// The accumulated state at a tournament number.
    pub fn get_tid(&self, tid: TournamentId) -> (r: &PlayerScore)
        requires
            (tid.0 as int) < score_rows(self.by_tid).len(),
        ensures
            *r == score_rows(self.by_tid)[tid.0 as int],
    {
        score_at(&self.by_tid, tid)
    }

    /// The player id at a tournament number.
    pub fn id_of(&self, tid: TournamentId) -> (r: Uuid)
        requires
            (tid.0 as int) < id_rows(self.ids).len(),
        ensures
            r == id_rows(self.ids)[tid.0 as int],
    {
        id_at(&self.ids, tid)
    }

    /// The number of tournament-number slots.
    pub fn tid_capacity(&self) -> (r: usize)
        ensures
            r == score_rows(self.by_tid).len(),
    {
        score_count(&self.by_tid)
    }
}

/// The tournament number of a finalized player.
pub open spec fn tid_of(p: Player) -> TournamentId {
    p.tournament_id.unwrap()
}

/// The largest tournament number among the first `n` players (0 when none).
pub open spec fn max_number(players: Seq<Player>, n: int) -> int
    decreases n,
{
    if n <= 0 {
        0
    } else {
        let rest = max_number(players, n - 1);
        let t = tid_of(players[n - 1]).0 as int;
        if t > rest {
            t
        } else {
            rest
        }
    }
}

/// The adjustments sum, and its doubling with the start, stay in `i32` —
/// the range they are added in.
pub open spec fn start_fits(base: int, adjustments: Seq<PointAdjustment>) -> bool {
    let a = adjustment_sum(adjustments, adjustments.len() as int);
    &&& 2 * base <= i32::MAX
    &&& forall|n: int| 0 <= n <= adjustments.len() ==> i32::MIN <= #[trigger] adjustment_sum(adjustments, n) <= i32::MAX
    &&& i32::MIN <= 2 * a <= i32::MAX
    &&& i32::MIN <= 2 * base + 2 * a <= i32::MAX
}

/// The rating a player's MacMahon start is read from: the rounded live
/// estimate while MacMahon is drawn from it, the registration rating
/// otherwise.
pub open spec fn start_rating(settings: TournamentSettings, p: Player, estimate: Option<u32>) -> Option<u32> {
    if mm_from_estimate(settings) {
        estimate
    } else {
        p.rating
    }
}

/// The rounds completed so far, as the threshold schedule counts them.
pub open spec fn rounds_played(rs: Seq<Round>) -> u32 {
    completed_count(rs, rs.len() as int) as u32
}

/// The MacMahon points (whole) a player starts from.
pub open spec fn start_base(settings: TournamentSettings, p: Player, estimate: Option<u32>, rs: Seq<Round>) -> int {
    macmahon_points_spec(settings, start_rating(settings, p, estimate), p.grade, rounds_played(rs)) as u32 as int
}

/// The estimate handed in for the player at `i`, if any.
pub open spec fn estimate_at(estimates: Option<&[u32]>, i: int) -> Option<u32> {
    match estimates {
        Some(e) => Some(e@[i]),
        None => None,
    }
}

/// Everything a player's replay adds up fits the `u32` its totals are kept
/// in.
pub open spec fn replay_fits(rs: Seq<Round>, wiel: bool, t: TournamentId, start: int) -> bool {
    let rw = running_wins_after(rs, wiel, t, rs.len() as int);
    start + wins_after(rs, wiel, t, rs.len() as int) <= u32::MAX && total(rw, rw.len() as int) + start * rw.len() <= u32::MAX
}

/// The number of completed rounds.
fn count_completed(rounds: &[Round]) -> (r: u32)
    ensures
        r == rounds_played(rounds@),
{
    let mut c: u64 = 0;
    let mut i: usize = 0;
    while i < rounds.len()
        invariant
            i <= rounds@.len(),
            c == completed_count(rounds@, i as int),
            c <= i,
        decreases rounds@.len() - i,
    {
        if rounds[i].completed {
            c += 1;
        }
        i += 1;
    }
    c as u32
}

/// A player's start in half-points from `base` whole MacMahon points.
fn start_of(base: u32, adjustments: &Vec<PointAdjustment>) -> (r: u32)
    requires
        start_fits(base as int, adjustments@),
    ensures
        r == start_halves(base as int, adjustments@),
{
    let mut a: i32 = 0;
    let mut i: usize = 0;
    while i < adjustments.len()
        invariant
            i <= adjustments@.len(),
            a == adjustment_sum(adjustments@, i as int),
            start_fits(base as int, adjustments@),
        decreases adjustments@.len() - i,
    {
        assert(i32::MIN <= adjustment_sum(adjustments@, i + 1) <= i32::MAX);
        a = a + adjustments[i].delta;
        i += 1;
    }
    let v: i32 = (2 * base) as i32 + a * 2;
    if v > 0 {
        v as u32
    } else {
        0
    }
}

/// Replay the completed rounds to accumulate each player's points, opponents,
/// bye status and float history. A float's direction is read from each
/// board's frozen points difference. `estimates` holds each player's rounded
/// live ELO estimate (in player order), read for the MacMahon start while it
/// is drawn from the estimate.
pub fn compute_scores(players: &[Player], settings: &TournamentSettings, rounds: &[Round], estimates: Option<&[u32]>) -> (r: Scores)
    requires
        forall|i: int| 0 <= i < players@.len() ==> (#[trigger] players@[i]).tournament_id is Some,
        forall|i: int, j: int| 0 <= i < j < players@.len() ==> tid_of(#[trigger] players@[i]) != tid_of(#[trigger] players@[j]),
        forall|i: int| 0 <= i < players@.len() ==> (tid_of(#[trigger] players@[i]).0 as int) < usize::MAX,
        mm_from_estimate(*settings) ==> (estimates matches Some(e) && e@.len() == players@.len()),
        forall|i: int| 0 <= i < players@.len() ==> start_fits(start_base(*settings, #[trigger] players@[i], estimate_at(estimates, i), rounds@), players@[i].adjustments@),
        forall|i: int| 0 <= i < players@.len() ==> replay_fits(rounds@, wiel_of(settings.handicap_policy), tid_of(#[trigger] players@[i]), start_halves(start_base(*settings, players@[i], estimate_at(estimates, i), rounds@), players@[i].adjustments@)),
    ensures
        score_rows(r.by_tid).len() == id_rows(r.ids).len(),
        score_rows(r.by_tid).len() == max_number(players@, players@.len() as int) + 1,
        forall|i: int| 0 <= i < players@.len() ==> (tid_of(#[trigger] players@[i]).0 as int) < score_rows(r.by_tid).len(),
        forall|i: int| 0 <= i < players@.len() ==> {
            let p = #[trigger] players@[i];
            let t = tid_of(p);
            &&& replayed(score_rows(r.by_tid)[t.0 as int], rounds@, wiel_of(settings.handicap_policy), t, start_halves(start_base(*settings, p, estimate_at(estimates, i), rounds@), p.adjustments@))
            &&& id_rows(r.ids)[t.0 as int] == p.id
        },
        forall|t: int| 0 <= t < score_rows(r.by_tid).len() && (forall|i: int| 0 <= i < players@.len() ==> tid_of(#[trigger] players@[i]).0 != t) ==> {
            let s = #[trigger] score_rows(r.by_tid)[t];
            s.victories.0 == 0 && s.macmahon.0 == 0 && s.opponents@.len() == 0 && s.defeated@.len() == 0 && !s.had_bye && s.cuss_m.0 == 0 && s.cuss_w.0 == 0
        },
{
    let played = count_completed(rounds);
    let use_estimate = settings.macmahon_from_estimate_active();
    let wiel = settings.handicap_wiel_rule();
    let mut max_tid: usize = 0;
    let mut i: usize = 0;
    while i < players.len()
        invariant
            i <= players@.len(),
            forall|j: int| 0 <= j < players@.len() ==> (#[trigger] players@[j]).tournament_id is Some,
            forall|j: int| 0 <= j < players@.len() ==> (tid_of(#[trigger] players@[j]).0 as int) < usize::MAX,
            forall|j: int| 0 <= j < i ==> tid_of(#[trigger] players@[j]).0 <= max_tid,
            max_tid < usize::MAX,
            max_tid == max_number(players@, i as int),
        decreases players@.len() - i,
    {
        let t = match players[i].tournament_id {
            Some(t) => t,
            None => TournamentId(0),
        };
        assert((tid_of(players@[i as int]).0 as int) < usize::MAX);
        if t.index() > max_tid {
            max_tid = t.index();
        }
        i += 1;
    }
    let cap = max_tid + 1;
    assert(cap == max_number(players@, players@.len() as int) + 1);
    let mut rows: Vec<PlayerScore> = Vec::new();
    let mut ids: Vec<Uuid> = Vec::new();
    let mut k: usize = 0;
    while k < cap
        invariant
            k <= cap,
            rows@.len() == k,
            ids@.len() == k,
            forall|t: int| 0 <= t < k ==> {
                let s = #[trigger] rows@[t];
                s.victories.0 == 0 && s.macmahon.0 == 0 && s.opponents@.len() == 0 && s.defeated@.len() == 0 && !s.had_bye && s.cuss_m.0 == 0 && s.cuss_w.0 == 0
            },
        decreases cap - k,
    {
        rows.push(PlayerScore::blank());
        ids.push(nil_id());
        k += 1;
    }
    let mut i: usize = 0;
    while i < players.len()
        invariant
            i <= players@.len(),
            rows@.len() == cap,
            ids@.len() == cap,
            played == rounds_played(rounds@),
            use_estimate == mm_from_estimate(*settings),
            wiel == wiel_of(settings.handicap_policy),
            mm_from_estimate(*settings) ==> (estimates matches Some(e) && e@.len() == players@.len()),
            forall|j: int| 0 <= j < players@.len() ==> (#[trigger] players@[j]).tournament_id is Some,
            forall|a: int, b: int| 0 <= a < b < players@.len() ==> tid_of(#[trigger] players@[a]) != tid_of(#[trigger] players@[b]),
            forall|j: int| 0 <= j < players@.len() ==> tid_of(#[trigger] players@[j]).0 < cap,
            forall|j: int| 0 <= j < players@.len() ==> start_fits(start_base(*settings, #[trigger] players@[j], estimate_at(estimates, j), rounds@), players@[j].adjustments@),
            forall|j: int| 0 <= j < players@.len() ==> replay_fits(rounds@, wiel_of(settings.handicap_policy), tid_of(#[trigger] players@[j]), start_halves(start_base(*settings, players@[j], estimate_at(estimates, j), rounds@), players@[j].adjustments@)),
            forall|j: int| 0 <= j < i ==> {
                let p = #[trigger] players@[j];
                let t = tid_of(p);
                &&& replayed(rows@[t.0 as int], rounds@, wiel, t, start_halves(start_base(*settings, p, estimate_at(estimates, j), rounds@), p.adjustments@))
                &&& ids@[t.0 as int] == p.id
            },
            forall|t: int| 0 <= t < cap && (forall|j: int| 0 <= j < i ==> tid_of(#[trigger] players@[j]).0 != t) ==> {
                let s = #[trigger] rows@[t];
                s.victories.0 == 0 && s.macmahon.0 == 0 && s.opponents@.len() == 0 && s.defeated@.len() == 0 && !s.had_bye && s.cuss_m.0 == 0 && s.cuss_w.0 == 0
            },
        decreases players@.len() - i,
    {
        let p = &players[i];
        let t = match p.tournament_id {
            Some(t) => t,
            None => TournamentId(0),
        };
        let rating = if use_estimate {
            match estimates {
                Some(e) => Some(e[i]),
                None => p.rating,
            }
        } else {
            p.rating
        };
        let base = settings.macmahon_points_at(rating, p.grade, played);
        let start = start_of(base, &p.adjustments);
        let score = replay_player(rounds, wiel, t, start);
        let ghost before = rows@;
        let ghost ids_before = ids@;
        rows.set(t.index(), score);
        ids.set(t.index(), p.id);
        proof {
            assert forall|j: int| 0 <= j < i + 1 implies {
                let q = #[trigger] players@[j];
                let u = tid_of(q);
                &&& replayed(rows@[u.0 as int], rounds@, wiel, u, start_halves(start_base(*settings, q, estimate_at(estimates, j), rounds@), q.adjustments@))
                &&& ids@[u.0 as int] == q.id
            } by {
                if j < i {
                    assert(tid_of(players@[j]) != tid_of(players@[i as int]));
                    assert(rows@[tid_of(players@[j]).0 as int] == before[tid_of(players@[j]).0 as int]);
                }
            }
            assert forall|u: int| 0 <= u < cap && (forall|j: int| 0 <= j < i + 1 ==> tid_of(#[trigger] players@[j]).0 != u) implies {
                let s = #[trigger] rows@[u];
                s.victories.0 == 0 && s.macmahon.0 == 0 && s.opponents@.len() == 0 && s.defeated@.len() == 0 && !s.had_bye && s.cuss_m.0 == 0 && s.cuss_w.0 == 0
            } by {
                assert(tid_of(players@[i as int]).0 != u);
                assert(rows@[u] == before[u]);
            }
        }
        i += 1;
    }
    Scores { by_tid: score_table(rows), ids: id_table(ids) }
}

/// A replayed score's total fits.
pub proof fn lemma_replayed_points_fit(s: PlayerScore, rs: Seq<Round>, wiel: bool, t: TournamentId)
    requires
        exists|start: int| replayed(s, rs, wiel, t, start) && replay_fits(rs, wiel, t, start),
    ensures
        s.macmahon.0 + s.victories.0 <= u32::MAX,
{
}

/// One decided game is worth a win to the player it credits and nothing to
/// the other: two half-wins per game (four on a long board, which counts
/// twice), whoever sits on which side.
pub proof fn lemma_a_decided_game_credits_its_winner(b: Board, wiel: bool)
    requires
        b.player1 != b.player2,
        b.outcome is Won,
    ensures
        winner_of(b, wiel) is Some,
        board_gain(seq![b], wiel, winner_of(b, wiel)->Some_0, 1) == if b.long { 4int } else { 2int },
        board_gain(seq![b], wiel, if winner_of(b, wiel) == Some(b.player1) { b.player2 } else { b.player1 }, 1) == 0,
{
    let s = seq![b];
    assert(s[0] == b);
    assert(no_show_opponent_of(b) is None);
    let w = winner_of(b, wiel)->Some_0;
    let l = if winner_of(b, wiel) == Some(b.player1) { b.player2 } else { b.player1 };
    assert(w == b.player1 || w == b.player2);
    assert(board_gain(s, wiel, w, 0) == 0 && board_gain(s, wiel, l, 0) == 0);
    assert(board_gain(s, wiel, w, 1) == 2 * reps_of(b));
    assert(board_gain(s, wiel, l, 1) == 0);
}

/// A forfeit with one side missing hands the side that turned up the free
/// point (a win's worth), and the missing side nothing.
pub proof fn lemma_a_no_show_credits_the_present_side(b: Board, side: Winner, k: AbsenceKind)
    requires
        b.player1 != b.player2,
        b.outcome == (Outcome::Forfeit { absent: match side {
            Winner::Player1 => Forfeit::Player1(k),
            Winner::Player2 => Forfeit::Player2(k),
        } }),
    ensures
        board_gain(seq![b], false, other_player(b, side), 1) == 2 * reps_of(b),
        board_gain(seq![b], false, side_player(b, side), 1) == 0,
{
    let s = seq![b];
    assert(s[0] == b);
    assert(outcome_forfeit(b.outcome) is Some);
    assert(effective_winner_of(b, false) is None);
    assert(no_show_opponent_of(b) == Some(other_player(b, side)));
    assert(board_gain(s, false, other_player(b, side), 0) == 0);
    assert(board_gain(s, false, side_player(b, side), 0) == 0);
}

/// Only completed rounds count: a round still in play adds nothing to
/// anyone's wins, and a completed one adds exactly what it is worth.
pub proof fn lemma_only_completed_rounds_count(rs: Seq<Round>, r: Round, wiel: bool, t: TournamentId)
    ensures
        !r.completed ==> wins_after(rs.push(r), wiel, t, rs.len() as int + 1) == wins_after(rs, wiel, t, rs.len() as int),
        r.completed ==> wins_after(rs.push(r), wiel, t, rs.len() as int + 1) == wins_after(rs, wiel, t, rs.len() as int)
            + round_gain(r, wiel, t),
{
    lemma_wins_prefix(rs, rs.push(r), wiel, t, rs.len() as int);
}

/// Rounds that agree on the first `n` count the same over them.
proof fn lemma_wins_prefix(a: Seq<Round>, b: Seq<Round>, wiel: bool, t: TournamentId, n: int)
    requires
        0 <= n <= a.len(),
        n <= b.len(),
        forall|i: int| 0 <= i < n ==> a[i] == b[i],
    ensures
        wins_after(a, wiel, t, n) == wins_after(b, wiel, t, n),
    decreases n,
{
    if n > 0 {
        lemma_wins_prefix(a, b, wiel, t, n - 1);
    }
}

/// The start: twice the MacMahon points plus twice the adjustments, in
/// half-points, floored at zero — so a bonus raises it, a malus can take it
/// to zero but not below, and with no adjustments it is twice the base.
pub proof fn lemma_start_folds_in_adjustments(base: int, adj: Seq<PointAdjustment>)
    requires
        base >= 0,
    ensures
        start_halves(base, adj) >= 0,
        adj.len() == 0 ==> start_halves(base, adj) == 2 * base,
        adjustment_sum(adj, adj.len() as int) >= 0 ==> start_halves(base, adj) == 2 * base + 2 * adjustment_sum(adj, adj.len() as int),
        base + adjustment_sum(adj, adj.len() as int) <= 0 ==> start_halves(base, adj) == 0,
{
}

/// A real game records each player as the other's opponent (twice on a long
/// board), a no-show records no opponent, and only the credited winner
/// records a defeated opponent — the loser.
pub proof fn lemma_a_game_records_opponents(b: Board, wiel: bool)
    requires
        b.player1 != b.player2,
    ensures
        (!forfeited(b) && !b.long) ==> board_opponents(seq![b], b.player1, 1) == seq![b.player2] && board_opponents(
            seq![b],
            b.player2,
            1,
        ) == seq![b.player1],
        (!forfeited(b) && b.long) ==> board_opponents(seq![b], b.player1, 1) == seq![b.player2, b.player2],
        forfeited(b) ==> board_opponents(seq![b], b.player1, 1).len() == 0 && board_opponents(seq![b], b.player2, 1).len() == 0,
        (effective_winner_of(b, wiel) == Some(Winner::Player1) && !b.long) ==> board_defeated(seq![b], wiel, b.player1, 1)
            == seq![b.player2] && board_defeated(seq![b], wiel, b.player2, 1).len() == 0,
        (effective_winner_of(b, wiel) == Some(Winner::Player2) && !b.long) ==> board_defeated(seq![b], wiel, b.player2, 1)
            == seq![b.player1] && board_defeated(seq![b], wiel, b.player1, 1).len() == 0,
        effective_winner_of(b, wiel) is None ==> board_defeated(seq![b], wiel, b.player1, 1).len() == 0,
{
    let s = seq![b];
    assert(s[0] == b);
    assert(board_opponents(s, b.player1, 0) == Seq::<TournamentId>::empty());
    assert(board_opponents(s, b.player2, 0) == Seq::<TournamentId>::empty());
    assert(board_defeated(s, wiel, b.player1, 0) == Seq::<TournamentId>::empty());
    assert(board_defeated(s, wiel, b.player2, 0) == Seq::<TournamentId>::empty());
    assert(game_opponents(b, b.player1) =~= seq![b.player2]);
    assert(game_opponents(b, b.player2) =~= seq![b.player1]);
    assert(Seq::<TournamentId>::empty() + seq![b.player2] =~= seq![b.player2]);
    assert(Seq::<TournamentId>::empty() + seq![b.player1] =~= seq![b.player1]);
    assert(Seq::<TournamentId>::empty() + (seq![b.player2] + seq![b.player2]) =~= seq![b.player2, b.player2]);
    assert(Seq::<TournamentId>::empty() + Seq::<TournamentId>::empty() =~= Seq::<TournamentId>::empty());
}

/// On a real game the side that had more points floats down and the side
/// that had fewer floats up, as frozen in the board's points difference.
pub proof fn lemma_floats_follow_the_points_difference(r: Round, k: int)
    requires
        0 <= k < r.boards@.len(),
        !forfeited(r.boards@[k]),
    ensures
        r.boards@[k].points_diff > 0 ==> descends_in(r, r.boards@[k].player1) && ascends_in(r, r.boards@[k].player2),
        r.boards@[k].points_diff < 0 ==> descends_in(r, r.boards@[k].player2) && ascends_in(r, r.boards@[k].player1),
{
}

} // verus!
