//! Rounds and their pairings.

use vstd::prelude::*;

use crate::units::{HalfPoints, TeamId, TournamentId, Wins};

verus! {

/// Which player won a board. Colour (sente/gote) is chosen at random per game
/// and isn't tracked, so the result is simply which of the two players won.
#[derive(Debug, Clone, Copy, PartialEq, Eq, Structural)]
pub enum Winner {
    Player1,
    Player2,
}

/// A piece-odds handicap, smallest to largest. The even game is the absence of
/// a handicap, so there is no `None` variant here.
#[derive(Debug, Clone, Copy, PartialEq, Eq, Structural)]
pub enum Handicap {
    Sente,
    Lance,
    Bishop,
    Rook,
    RookLance,
    TwoPiece,
    FourPiece,
    FivePiece,
    SixPiece,
}

/// The short code of a handicap, as shown in the results table.
pub open spec fn handicap_code(h: Handicap) -> Seq<char> {
    match h {
        Handicap::Sente => seq!['s'],
        Handicap::Lance => seq!['l'],
        Handicap::Bishop => seq!['b'],
        Handicap::Rook => seq!['r'],
        Handicap::RookLance => seq!['r', 'l'],
        Handicap::TwoPiece => seq!['2', 'p'],
        Handicap::FourPiece => seq!['4', 'p'],
        Handicap::FivePiece => seq!['5', 'p'],
        Handicap::SixPiece => seq!['6', 'p'],
    }
}

/// The human-readable label of a handicap, as shown in the picker.
pub open spec fn handicap_label(h: Handicap) -> Seq<char> {
    match h {
        Handicap::Sente => "Sente"@,
        Handicap::Lance => "Lance"@,
        Handicap::Bishop => "Bishop"@,
        Handicap::Rook => "Rook"@,
        Handicap::RookLance => "Rook+Lance"@,
        Handicap::TwoPiece => "2 pieces"@,
        Handicap::FourPiece => "4 pieces"@,
        Handicap::FivePiece => "5 pieces"@,
        Handicap::SixPiece => "6 pieces"@,
    }
}

/// Every handicap, in increasing size — the order shown in the picker.
pub open spec fn all_handicaps() -> Seq<Handicap> {
    seq![
        Handicap::Sente,
        Handicap::Lance,
        Handicap::Bishop,
        Handicap::Rook,
        Handicap::RookLance,
        Handicap::TwoPiece,
        Handicap::FourPiece,
        Handicap::FivePiece,
        Handicap::SixPiece,
    ]
}

impl Handicap {
    /// All handicaps in increasing size — the order shown in the picker.
    pub fn all() -> (r: [Handicap; 9])
        ensures
            r@ == all_handicaps(),
    {
        let r = [
            Handicap::Sente,
            Handicap::Lance,
            Handicap::Bishop,
            Handicap::Rook,
            Handicap::RookLance,
            Handicap::TwoPiece,
            Handicap::FourPiece,
            Handicap::FivePiece,
            Handicap::SixPiece,
        ];
        assert(r@ =~= all_handicaps());
        r
    }

    /// Short code shown in the results table.
    pub fn code(self) -> (r: &'static str)
        ensures
            r@ == handicap_code(self),
    {
        match self {
            Handicap::Sente => {
                proof {
                    reveal_strlit("s");
                }
                "s"
            },
            Handicap::Lance => {
                proof {
                    reveal_strlit("l");
                }
                "l"
            },
            Handicap::Bishop => {
                proof {
                    reveal_strlit("b");
                }
                "b"
            },
            Handicap::Rook => {
                proof {
                    reveal_strlit("r");
                }
                "r"
            },
            Handicap::RookLance => {
                proof {
                    reveal_strlit("rl");
                }
                "rl"
            },
            Handicap::TwoPiece => {
                proof {
                    reveal_strlit("2p");
                }
                "2p"
            },
            Handicap::FourPiece => {
                proof {
                    reveal_strlit("4p");
                }
                "4p"
            },
            Handicap::FivePiece => {
                proof {
                    reveal_strlit("5p");
                }
                "5p"
            },
            Handicap::SixPiece => {
                proof {
                    reveal_strlit("6p");
                }
                "6p"
            },
        }
    }

    /// Parse a handicap from its short code. `None` for an unknown code.
    pub fn from_code(code: &str) -> (r: Option<Handicap>)
        ensures
            r matches Some(h) ==> handicap_code(h) == code@,
            r is None ==> forall|h: Handicap| handicap_code(h) != code@,
    {
        let chars = crate::text::chars_of(code);
        Handicap::from_code_chars(chars.as_slice())
    }

    /// [`Handicap::from_code`] over the code's characters.
    pub fn from_code_chars(code: &[char]) -> (r: Option<Handicap>)
        ensures
            r matches Some(h) ==> handicap_code(h) == code@,
            r is None ==> forall|h: Handicap| handicap_code(h) != code@,
    {
        let all = Handicap::all();
        let mut i: usize = 0;
        while i < 9
            invariant
                i <= 9,
                all@ == all_handicaps(),
                forall|j: int| 0 <= j < i ==> handicap_code(#[trigger] all_handicaps()[j]) != code@,
            decreases 9 - i,
        {
            let h = all[i];
            let c = crate::text::chars_of(h.code());
            if crate::text::chars_equal(c.as_slice(), code) {
                return Some(h);
            }
            i += 1;
        }
        assert forall|h: Handicap| handicap_code(h) != code@ by {
            match h {
                Handicap::Sente => assert(h == all_handicaps()[0]),
                Handicap::Lance => assert(h == all_handicaps()[1]),
                Handicap::Bishop => assert(h == all_handicaps()[2]),
                Handicap::Rook => assert(h == all_handicaps()[3]),
                Handicap::RookLance => assert(h == all_handicaps()[4]),
                Handicap::TwoPiece => assert(h == all_handicaps()[5]),
                Handicap::FourPiece => assert(h == all_handicaps()[6]),
                Handicap::FivePiece => assert(h == all_handicaps()[7]),
                Handicap::SixPiece => assert(h == all_handicaps()[8]),
            }
        }
        None
    }

    /// Human-readable label shown in the handicap picker.
    pub fn label(self) -> (r: &'static str)
        ensures
            r@ == handicap_label(self),
    {
        match self {
            Handicap::Sente => "Sente",
            Handicap::Lance => "Lance",
            Handicap::Bishop => "Bishop",
            Handicap::Rook => "Rook",
            Handicap::RookLance => "Rook+Lance",
            Handicap::TwoPiece => "2 pieces",
            Handicap::FourPiece => "4 pieces",
            Handicap::FivePiece => "5 pieces",
            Handicap::SixPiece => "6 pieces",
        }
    }
}

/// Two distinct handicaps never share a code, so a code names at most one.
pub proof fn lemma_handicap_codes_distinct(a: Handicap, b: Handicap)
    ensures
        handicap_code(a) == handicap_code(b) ==> a == b,
{
    if handicap_code(a) == handicap_code(b) {
        assert(handicap_code(a).len() == handicap_code(b).len());
        assert(handicap_code(a)[0] == handicap_code(b)[0]);
        if handicap_code(a).len() == 2 {
            assert(handicap_code(a)[1] == handicap_code(b)[1]);
        }
    }
}

/// A handicap attached to a board. The `giver` is frozen when the handicap is
/// set, so a later rating edit can't flip who conceded the odds.
#[derive(Debug, Clone, Copy, PartialEq, Eq, Structural)]
pub struct HandicapGame {
    pub handicap: Handicap,
    pub giver: Winner,
}

/// Whether a flag is off (the default, omitted from a save).
fn is_false(b: &bool) -> (r: bool)
    ensures
        r == !*b,
{
    !*b
}

/// Whether a float is zero (the default, omitted from a save).
fn is_zero(n: &i32) -> (r: bool)
    ensures
        r == (*n == 0),
{
    *n == 0
}

/// Which stage of the direct-elimination cup a board belongs to.
#[derive(Debug, Clone, Copy, PartialEq, Eq, Structural)]
pub enum CupStage {
    Qualification,
    RoundOf(u32),
    Quarterfinal,
    Semifinal,
    Final,
    SmallFinal,
}

/// How a board's pairing was decided.
#[derive(Debug, Clone, Copy, PartialEq, Eq, Default, Structural)]
pub enum PairingSource {
    /// Produced by the Swiss / MacMahon matching engine.
    #[default]
    Swiss,
    /// Fixed by the referee (a forced pairing).
    Forced,
    /// Dictated by the direct-elimination cup bracket.
    Cup { stage: CupStage },
}

impl PairingSource {
    /// Whether this is the default engine pairing.
    fn is_swiss(&self) -> (r: bool)
        ensures
            r == (*self is Swiss),
    {
        matches!(self, PairingSource::Swiss)
    }
}

/// Why a missing side missed the board.
#[derive(Debug, Clone, Copy, PartialEq, Eq, Default, Structural)]
pub enum AbsenceKind {
    /// Failed to appear, unjustified — the `0#` cell.
    #[default]
    NoShow,
    /// Absent for a valid reason — the `0-` cell.
    Justified,
}

impl AbsenceKind {
    /// The cross-table cell for a side that missed the board this way.
    pub fn cell(self) -> (r: &'static str)
        ensures
            r@ == (match self {
                AbsenceKind::NoShow => "0#"@,
                AbsenceKind::Justified => "0-"@,
            }),
    {
        match self {
            AbsenceKind::NoShow => "0#",
            AbsenceKind::Justified => "0-",
        }
    }
}

/// Which side(s) of a board missed it, and why each of them did.
#[derive(Debug, Clone, Copy, PartialEq, Eq, Structural)]
pub enum Forfeit {
    Player1(AbsenceKind),
    Player2(AbsenceKind),
    Both(AbsenceKind, AbsenceKind),
}

/// Why `side` missed the board under `f`, or `None` if they turned up.
pub open spec fn forfeit_kind(f: Forfeit, side: Winner) -> Option<AbsenceKind> {
    match (f, side) {
        (Forfeit::Player1(k), Winner::Player1) => Some(k),
        (Forfeit::Player2(k), Winner::Player2) => Some(k),
        (Forfeit::Both(k, _), Winner::Player1) => Some(k),
        (Forfeit::Both(_, k), Winner::Player2) => Some(k),
        _ => None,
    }
}

/// The side that turned up when exactly one did.
pub open spec fn forfeit_present(f: Forfeit) -> Option<Winner> {
    match f {
        Forfeit::Player1(_) => Some(Winner::Player2),
        Forfeit::Player2(_) => Some(Winner::Player1),
        Forfeit::Both(..) => None,
    }
}

impl Forfeit {
    /// The forfeit that has `side` missing for `kind` and the other present.
    pub fn one(side: Winner, kind: AbsenceKind) -> (r: Forfeit)
        ensures
            forfeit_kind(r, side) == Some(kind),
            r == (match side {
                Winner::Player1 => Forfeit::Player1(kind),
                Winner::Player2 => Forfeit::Player2(kind),
            }),
    {
        match side {
            Winner::Player1 => Forfeit::Player1(kind),
            Winner::Player2 => Forfeit::Player2(kind),
        }
    }

    /// The forfeit described by a reason per side, or `None` when both sides
    /// turned up.
    pub fn of(player1: Option<AbsenceKind>, player2: Option<AbsenceKind>) -> (r: Option<Forfeit>)
        ensures
            r is None <==> (player1 is None && player2 is None),
            r matches Some(f) ==> forfeit_kind(f, Winner::Player1) == player1 && forfeit_kind(
                f,
                Winner::Player2,
            ) == player2,
    {
        match (player1, player2) {
            (Some(a), Some(b)) => Some(Forfeit::Both(a, b)),
            (Some(a), None) => Some(Forfeit::Player1(a)),
            (None, Some(b)) => Some(Forfeit::Player2(b)),
            (None, None) => None,
        }
    }

    /// Why `side` missed the board, or `None` if they turned up.
    pub fn kind(self, side: Winner) -> (r: Option<AbsenceKind>)
        ensures
            r == forfeit_kind(self, side),
    {
        match (self, side) {
            (Forfeit::Player1(k), Winner::Player1) => Some(k),
            (Forfeit::Player2(k), Winner::Player2) => Some(k),
            (Forfeit::Both(k, _), Winner::Player1) => Some(k),
            (Forfeit::Both(_, k), Winner::Player2) => Some(k),
            _ => None,
        }
    }

    /// Whether `side` missed the board.
    pub fn absent(self, side: Winner) -> (r: bool)
        ensures
            r == forfeit_kind(self, side) is Some,
    {
        self.kind(side).is_some()
    }

    /// The side that *did* turn up, when exactly one did.
    pub fn present(self) -> (r: Option<Winner>)
        ensures
            r == forfeit_present(self),
    {
        match self {
            Forfeit::Player1(_) => Some(Winner::Player2),
            Forfeit::Player2(_) => Some(Winner::Player1),
            Forfeit::Both(..) => None,
        }
    }

    /// Whether any side missed for a justified reason.
    pub fn has_justified(self) -> (r: bool)
        ensures
            r == (forfeit_kind(self, Winner::Player1) == Some(AbsenceKind::Justified)
                || forfeit_kind(self, Winner::Player2) == Some(AbsenceKind::Justified)),
    {
        self.kind(Winner::Player1) == Some(AbsenceKind::Justified) || self.kind(Winner::Player2)
            == Some(AbsenceKind::Justified)
    }
}

/// What happened on a board.
#[derive(Debug, Clone, Copy, PartialEq, Eq, Structural)]
pub enum Outcome {
    /// No decision yet; `drawn` records a draw before the decisive replay.
    Pending { drawn: bool },
    /// Played to a decision, possibly after one or more draws.
    Won { winner: Winner, drawn: bool },
    /// Side(s) failed to appear, so no game was played.
    Forfeit { absent: Forfeit },
}

impl Default for Outcome {
    /// A fresh board: nothing played, no draw.
    fn default() -> (r: Self)
        ensures
            r == (Outcome::Pending { drawn: false }),
    {
        Outcome::Pending { drawn: false }
    }
}

/// The actual winner of a decided game.
pub open spec fn outcome_winner(o: Outcome) -> Option<Winner> {
    match o {
        Outcome::Won { winner, .. } => Some(winner),
        _ => None,
    }
}

/// The forfeit of a forfeited board.
pub open spec fn outcome_forfeit(o: Outcome) -> Option<Forfeit> {
    match o {
        Outcome::Forfeit { absent } => Some(absent),
        _ => None,
    }
}

impl Outcome {
    /// An untouched board.
    pub fn pending() -> (r: Outcome)
        ensures
            r == (Outcome::Pending { drawn: false }),
    {
        Outcome::Pending { drawn: false }
    }

    /// A board played straight to a decision, with no draw along the way.
    pub fn won(winner: Winner) -> (r: Outcome)
        ensures
            r == (Outcome::Won { winner, drawn: false }),
    {
        Outcome::Won { winner, drawn: false }
    }

    /// The actual winner of the game; `None` unless played to a decision.
    pub fn winner(self) -> (r: Option<Winner>)
        ensures
            r == outcome_winner(self),
    {
        match self {
            Outcome::Won { winner, .. } => Some(winner),
            Outcome::Pending { .. } | Outcome::Forfeit { .. } => None,
        }
    }

    /// Whether at least one draw occurred before the decisive replay.
    pub fn drawn(self) -> (r: bool)
        ensures
            r == (match self {
                Outcome::Pending { drawn } => drawn,
                Outcome::Won { drawn, .. } => drawn,
                Outcome::Forfeit { .. } => false,
            }),
    {
        match self {
            Outcome::Pending { drawn } => drawn,
            Outcome::Won { drawn, .. } => drawn,
            Outcome::Forfeit { .. } => false,
        }
    }

    /// Which side(s) failed to appear, if this board was forfeited.
    pub fn forfeit(self) -> (r: Option<Forfeit>)
        ensures
            r == outcome_forfeit(self),
    {
        match self {
            Outcome::Forfeit { absent } => Some(absent),
            Outcome::Pending { .. } | Outcome::Won { .. } => None,
        }
    }

    /// Whether the outcome is settled: played to a decision, or forfeited.
    pub fn is_decided(self) -> (r: bool)
        ensures
            r == !(self is Pending),
    {
        !matches!(self, Outcome::Pending { .. })
    }

    /// Whether this is an untouched board.
    fn is_pending_undrawn(&self) -> (r: bool)
        ensures
            r == (*self == Outcome::Pending { drawn: false }),
    {
        match self {
            Outcome::Pending { drawn } => !*drawn,
            _ => false,
        }
    }
}

/// A single board (game) in a round.
#[derive(Debug, Clone, PartialEq, Eq, Structural)]
pub struct Board {
    /// The two players, by tournament number.
    pub player1: TournamentId,
    pub player2: TournamentId,
    /// What happened on this board.
    pub outcome: Outcome,
    /// The handicap conceded on this board, if any.
    pub handicap: Option<HandicapGame>,
    /// `points(player1) − points(player2)` at pairing time, in half-points.
    pub points_diff: i32,
    /// How this pairing was decided.
    pub source: PairingSource,
    /// A two-round "long game" whose winner scores two points.
    pub long: bool,
}

/// The winner that counts for standings and pairing (the giver under the Wiel
/// rule, once decided; otherwise the actual result).
pub open spec fn effective_winner_of(b: Board, wiel_rule: bool) -> Option<Winner> {
    match b.handicap {
        Some(h) => if wiel_rule {
            match outcome_winner(b.outcome) {
                Some(_) => Some(h.giver),
                None => None,
            }
        } else {
            outcome_winner(b.outcome)
        },
        None => outcome_winner(b.outcome),
    }
}

/// The player on `side` of board `b`.
pub open spec fn side_player(b: Board, side: Winner) -> TournamentId {
    match side {
        Winner::Player1 => b.player1,
        Winner::Player2 => b.player2,
    }
}

/// The player on the other side from `side` of board `b`.
pub open spec fn other_player(b: Board, side: Winner) -> TournamentId {
    match side {
        Winner::Player1 => b.player2,
        Winner::Player2 => b.player1,
    }
}

/// The player credited with a decided board.
pub open spec fn winner_id_of(b: Board, wiel_rule: bool) -> Option<TournamentId> {
    match effective_winner_of(b, wiel_rule) {
        Some(w) => Some(side_player(b, w)),
        None => None,
    }
}

/// The player charged with a decided board.
pub open spec fn loser_id_of(b: Board, wiel_rule: bool) -> Option<TournamentId> {
    match effective_winner_of(b, wiel_rule) {
        Some(w) => Some(other_player(b, w)),
        None => None,
    }
}

/// The player credited the free point of a single-sided forfeit.
pub open spec fn no_show_opponent_of(b: Board) -> Option<TournamentId> {
    match outcome_forfeit(b.outcome) {
        Some(f) => match forfeit_present(f) {
            Some(side) => Some(side_player(b, side)),
            None => None,
        },
        None => None,
    }
}

impl Board {
    /// A not-yet-played board between two players.
    pub fn pending(
        player1: TournamentId,
        player2: TournamentId,
        points_diff: i32,
        source: PairingSource,
    ) -> (r: Self)
        ensures
            r == (Board {
                player1,
                player2,
                outcome: Outcome::Pending { drawn: false },
                handicap: None,
                points_diff,
                source,
                long: false,
            }),
    {
        Board {
            player1,
            player2,
            outcome: Outcome::Pending { drawn: false },
            handicap: None,
            points_diff,
            source,
            long: false,
        }
    }

    /// Whether this board's outcome is settled.
    pub fn is_decided(&self) -> (r: bool)
        ensures
            r == !(self.outcome is Pending),
    {
        self.outcome.is_decided()
    }

    /// A long board whose game hasn't finished yet.
    pub fn long_pending(&self) -> (r: bool)
        ensures
            r == (self.long && self.outcome is Pending),
    {
        self.long && !self.is_decided()
    }

    /// Whether this board counts as settled for closing its round.
    pub fn complete_for_round(&self) -> (r: bool)
        ensures
            r == (!(self.outcome is Pending) || self.long),
    {
        self.is_decided() || self.long
    }

    /// Whether the given `side` failed to show up on this board.
    pub fn no_show_absent(&self, side: Winner) -> (r: bool)
        ensures
            r == (match outcome_forfeit(self.outcome) {
                Some(f) => forfeit_kind(f, side) is Some,
                None => false,
            }),
    {
        match self.outcome.forfeit() {
            Some(f) => f.absent(side),
            None => false,
        }
    }

    /// Why `side` missed this board, if they did.
    pub fn absence_kind(&self, side: Winner) -> (r: Option<AbsenceKind>)
        ensures
            r == (match outcome_forfeit(self.outcome) {
                Some(f) => forfeit_kind(f, side),
                None => None,
            }),
    {
        match self.outcome.forfeit() {
            Some(f) => f.kind(side),
            None => None,
        }
    }

    /// The player who *did* show up when exactly one side was a no-show.
    pub fn no_show_opponent(&self) -> (r: Option<TournamentId>)
        ensures
            r == no_show_opponent_of(*self),
    {
        match self.outcome.forfeit() {
            Some(f) => match f.present() {
                Some(Winner::Player1) => Some(self.player1),
                Some(Winner::Player2) => Some(self.player2),
                None => None,
            },
            None => None,
        }
    }

    /// The winner that counts for standings and pairing.
    pub fn effective_winner(&self, wiel_rule: bool) -> (r: Option<Winner>)
        ensures
            r == effective_winner_of(*self, wiel_rule),
    {
        match &self.handicap {
            Some(h) => if wiel_rule {
                match self.outcome.winner() {
                    Some(_) => Some(h.giver),
                    None => None,
                }
            } else {
                self.outcome.winner()
            },
            None => self.outcome.winner(),
        }
    }

    /// The effective loser of a decided board.
    pub fn effective_loser(&self, wiel_rule: bool) -> (r: Option<TournamentId>)
        ensures
            r == loser_id_of(*self, wiel_rule),
    {
        match self.effective_winner(wiel_rule) {
            Some(Winner::Player1) => Some(self.player2),
            Some(Winner::Player2) => Some(self.player1),
            None => None,
        }
    }

    /// The player id of the effective winner, if the board is decided.
    pub fn winner_id(&self, wiel_rule: bool) -> (r: Option<TournamentId>)
        ensures
            r == winner_id_of(*self, wiel_rule),
    {
        match self.effective_winner(wiel_rule) {
            Some(Winner::Player1) => Some(self.player1),
            Some(Winner::Player2) => Some(self.player2),
            None => None,
        }
    }
}

/// What a round is worth to a player who played no board.
#[derive(Debug, Clone, Copy, PartialEq, Eq, Structural)]
pub enum SitoutValue {
    /// `0−`: nothing.
    Zero,
    /// `0=`: half a point, and half a win.
    Half,
    /// `0+`: a full point, counted as a victory.
    Full,
}

/// What a sit-out is worth, in halves (of a point, and of a win alike).
pub open spec fn sitout_halves(v: SitoutValue) -> u32 {
    match v {
        SitoutValue::Zero => 0,
        SitoutValue::Half => 1,
        SitoutValue::Full => 2,
    }
}

impl SitoutValue {
    /// The score this is worth.
    pub fn points(self) -> (r: HalfPoints)
        ensures
            r.0 == sitout_halves(self),
    {
        match self {
            SitoutValue::Zero => HalfPoints::zero(),
            SitoutValue::Half => HalfPoints::from_halves(1),
            SitoutValue::Full => HalfPoints::from_whole(1),
        }
    }

    /// What this counts as in the Wins column — the same shape as `points`.
    pub fn wins(self) -> (r: Wins)
        ensures
            r.0 == sitout_halves(self),
    {
        match self {
            SitoutValue::Zero => Wins::zero(),
            SitoutValue::Half => Wins::from_halves(1),
            SitoutValue::Full => Wins::from_whole(1),
        }
    }

    /// The cross-table cell for this value.
    pub fn cell(self) -> (r: &'static str)
        ensures
            r@ == (match self {
                SitoutValue::Zero => "0-"@,
                SitoutValue::Half => "0="@,
                SitoutValue::Full => "0+"@,
            }),
    {
        match self {
            SitoutValue::Zero => "0-",
            SitoutValue::Half => "0=",
            SitoutValue::Full => "0+",
        }
    }
}

/// Why a player has no board in a round.
#[derive(Debug, Clone, Copy, PartialEq, Eq, Structural)]
pub enum SitoutKind {
    /// Marked absent by the referee, so excluded from the pairing entirely.
    Absent,
    /// Present but left over: the engine gave them the bye.
    Bye,
    /// The referee fixed the bye on this player.
    ForcedBye,
    /// Advanced through the cup bracket unopposed.
    CupBye { stage: CupStage },
}

impl SitoutKind {
    /// Whether this is a bye of any sort (as opposed to an absence).
    pub fn is_bye(self) -> (r: bool)
        ensures
            r == !(self is Absent),
    {
        !matches!(self, SitoutKind::Absent)
    }
}

/// A player with no board in a round: why they sat out, and what it scores.
#[derive(Debug, Clone, Copy, PartialEq, Eq, Structural)]
pub struct Sitout {
    pub player: TournamentId,
    pub kind: SitoutKind,
    pub value: SitoutValue,
}

/// One round of the tournament: the boards, plus everyone who played no board.
#[derive(Debug, Clone, PartialEq, Eq)]
pub struct Round {
    /// 1-based round number.
    pub number: u32,
    pub boards: Vec<Board>,
    /// Everyone who played no board this round.
    pub sitouts: Vec<Sitout>,
    /// Whether the round has been completed.
    pub completed: bool,
}

/// The players of `s` whose sit-out is (`bye`) or is not (`!bye`) a bye, in
/// order.
pub open spec fn sitout_players(s: Seq<Sitout>, bye: bool) -> Seq<TournamentId>
    decreases s.len(),
{
    if s.len() == 0 {
        Seq::empty()
    } else {
        let rest = sitout_players(s.drop_last(), bye);
        if !(s.last().kind is Absent) == bye {
            rest.push(s.last().player)
        } else {
            rest
        }
    }
}

/// The players of `s` whose bye the referee forced, in order.
pub open spec fn forced_bye_players(s: Seq<Sitout>) -> Seq<TournamentId>
    decreases s.len(),
{
    if s.len() == 0 {
        Seq::empty()
    } else {
        let rest = forced_bye_players(s.drop_last());
        if s.last().kind == SitoutKind::ForcedBye {
            rest.push(s.last().player)
        } else {
            rest
        }
    }
}

impl Round {
    /// Whether every board of this round is settled enough to close the round.
    pub fn is_complete(&self) -> (r: bool)
        ensures
            r == forall|i: int|
                0 <= i < self.boards@.len() ==> (!(#[trigger] self.boards@[i].outcome is Pending)
                    || self.boards@[i].long),
    {
        let mut i: usize = 0;
        while i < self.boards.len()
            invariant
                i <= self.boards@.len(),
                forall|j: int|
                    0 <= j < i ==> (!(#[trigger] self.boards@[j].outcome is Pending)
                        || self.boards@[j].long),
            decreases self.boards@.len() - i,
        {
            if !self.boards[i].complete_for_round() {
                return false;
            }
            i += 1;
        }
        true
    }

    /// This player's sit-out, if they played no board this round (the first
    /// one listed).
    pub fn sitout(&self, player: TournamentId) -> (r: Option<&Sitout>)
        ensures
            r matches Some(s) ==> exists|i: int|
                0 <= i < self.sitouts@.len() && self.sitouts@[i] == *s && s.player == player
                    && forall|j: int| 0 <= j < i ==> #[trigger] self.sitouts@[j].player != player,
            r is None ==> forall|i: int|
                0 <= i < self.sitouts@.len() ==> #[trigger] self.sitouts@[i].player != player,
    {
        let mut i: usize = 0;
        while i < self.sitouts.len()
            invariant
                i <= self.sitouts@.len(),
                forall|j: int| 0 <= j < i ==> #[trigger] self.sitouts@[j].player != player,
            decreases self.sitouts@.len() - i,
        {
            if self.sitouts[i].player == player {
                return Some(&self.sitouts[i]);
            }
            i += 1;
        }
        None
    }

    /// The players marked absent this round, in order.
    pub fn absentees(&self) -> (r: Vec<TournamentId>)
        ensures
            r@ == sitout_players(self.sitouts@, false),
    {
        self.players_where(false)
    }

    /// Everyone who took a bye of any kind this round, in order.
    pub fn byes(&self) -> (r: Vec<TournamentId>)
        ensures
            r@ == sitout_players(self.sitouts@, true),
    {
        self.players_where(true)
    }

    /// The players whose sit-out is (`bye`) or is not (`!bye`) a bye.
    fn players_where(&self, bye: bool) -> (r: Vec<TournamentId>)
        ensures
            r@ == sitout_players(self.sitouts@, bye),
    {
        let mut out: Vec<TournamentId> = Vec::new();
        let mut i: usize = 0;
        while i < self.sitouts.len()
            invariant
                i <= self.sitouts@.len(),
                out@ == sitout_players(self.sitouts@.subrange(0, i as int), bye),
            decreases self.sitouts@.len() - i,
        {
            let s = self.sitouts[i];
            let ghost sub = self.sitouts@.subrange(0, i as int + 1);
            assert(sub.drop_last() =~= self.sitouts@.subrange(0, i as int));
            assert(sub.last() == s);
            if s.kind.is_bye() == bye {
                out.push(s.player);
            }
            i += 1;
        }
        assert(self.sitouts@.subrange(0, self.sitouts@.len() as int) =~= self.sitouts@);
        out
    }

    /// The bye the *engine* chose, if any (the first such sit-out).
    pub fn swiss_bye(&self) -> (r: Option<TournamentId>)
        ensures
            r matches Some(p) ==> exists|i: int|
                0 <= i < self.sitouts@.len() && self.sitouts@[i].kind == SitoutKind::Bye
                    && self.sitouts@[i].player == p && forall|j: int|
                    0 <= j < i ==> #[trigger] self.sitouts@[j].kind != SitoutKind::Bye,
            r is None ==> forall|i: int|
                0 <= i < self.sitouts@.len() ==> #[trigger] self.sitouts@[i].kind
                    != SitoutKind::Bye,
    {
        let mut i: usize = 0;
        while i < self.sitouts.len()
            invariant
                i <= self.sitouts@.len(),
                forall|j: int| 0 <= j < i ==> #[trigger] self.sitouts@[j].kind != SitoutKind::Bye,
            decreases self.sitouts@.len() - i,
        {
            if self.sitouts[i].kind == SitoutKind::Bye {
                return Some(self.sitouts[i].player);
            }
            i += 1;
        }
        None
    }

    /// The byes the referee fixed by hand, in order.
    pub fn forced_byes(&self) -> (r: Vec<TournamentId>)
        ensures
            r@ == forced_bye_players(self.sitouts@),
    {
        let mut out: Vec<TournamentId> = Vec::new();
        let mut i: usize = 0;
        while i < self.sitouts.len()
            invariant
                i <= self.sitouts@.len(),
                out@ == forced_bye_players(self.sitouts@.subrange(0, i as int)),
            decreases self.sitouts@.len() - i,
        {
            let s = self.sitouts[i];
            let ghost sub = self.sitouts@.subrange(0, i as int + 1);
            assert(sub.drop_last() =~= self.sitouts@.subrange(0, i as int));
            assert(sub.last() == s);
            if s.kind == SitoutKind::ForcedBye {
                out.push(s.player);
            }
            i += 1;
        }
        assert(self.sitouts@.subrange(0, self.sitouts@.len() as int) =~= self.sitouts@);
        out
    }
}

/// A team match the referee has fixed by hand, for a team round's draft.
#[derive(Debug, Clone, Copy, PartialEq, Eq, Structural)]
pub struct ForcedMatch {
    pub team1: TeamId,
    pub team2: TeamId,
}

/// A round being set up but not yet started.
#[derive(Debug, Clone, PartialEq, Eq)]
pub struct RoundDraft {
    /// The number the round will have once confirmed.
    pub number: u32,
    /// Players marked absent (excluded from pairing).
    pub absent: Vec<TournamentId>,
    /// Pairings the referee has fixed by hand.
    pub forced_boards: Vec<Board>,
    /// Players forced to take a bye.
    pub forced_byes: Vec<TournamentId>,
    /// Team matches the referee has fixed by hand (team mode only).
    pub forced_matches: Vec<ForcedMatch>,
    /// Teams forced to take a bye (team mode only).
    pub forced_team_byes: Vec<TeamId>,
}

/// A round's byes and absentees split its sit-outs: together they hold
/// exactly the sit-out players, each as often as it sits out, and the two
/// lists are as long as the sit-outs.
pub proof fn lemma_byes_and_absentees_partition(s: Seq<Sitout>)
    ensures
        sitout_players(s, true).len() + sitout_players(s, false).len() == s.len(),
        sitout_players(s, true).to_multiset().add(sitout_players(s, false).to_multiset())
            =~= s.map_values(|x: Sitout| x.player).to_multiset(),
    decreases s.len(),
{
    broadcast use vstd::multiset::group_multiset_axioms;

    if s.len() == 0 {
        assert(s.map_values(|x: Sitout| x.player) =~= Seq::<TournamentId>::empty());
        Seq::<TournamentId>::empty().to_multiset_ensures();
    } else {
        let t = s.drop_last();
        lemma_byes_and_absentees_partition(t);
        let p = s.last().player;
        let ps = s.map_values(|x: Sitout| x.player);
        let pt = t.map_values(|x: Sitout| x.player);
        assert(ps =~= pt.push(p));
        vstd::seq_lib::to_multiset_build(pt, p);
        let (bt, at) = (sitout_players(t, true), sitout_players(t, false));
        vstd::seq_lib::to_multiset_build(bt, p);
        vstd::seq_lib::to_multiset_build(at, p);
        if !(s.last().kind is Absent) {
            assert(sitout_players(s, true) == bt.push(p));
            assert(sitout_players(s, false) == at);
            assert(bt.push(p).to_multiset().add(at.to_multiset()) =~= bt.to_multiset().add(at.to_multiset()).insert(p));
        } else {
            assert(sitout_players(s, true) == bt);
            assert(sitout_players(s, false) == at.push(p));
            assert(bt.to_multiset().add(at.push(p).to_multiset()) =~= bt.to_multiset().add(at.to_multiset()).insert(p));
        }
    }
}

/// Who is credited a board: nobody until it is decided; on a decided board
/// the actual winner, except that under the Wiel rule a handicap board is
/// credited to the player who gave the handicap, whoever won the game.
pub proof fn lemma_wiel_rule_credits_the_giver(b: Board, wiel_rule: bool)
    ensures
        !(b.outcome is Won) ==> effective_winner_of(b, wiel_rule) is None,
        b.outcome matches Outcome::Won { winner, .. } ==> effective_winner_of(b, wiel_rule) == Some(
            match b.handicap {
                Some(h) => if wiel_rule {
                    h.giver
                } else {
                    winner
                },
                None => winner,
            },
        ),
        (wiel_rule && b.handicap is Some && b.outcome is Won) ==> effective_winner_of(b, wiel_rule)
            == Some(b.handicap->Some_0.giver),
        (!wiel_rule || b.handicap is None) ==> effective_winner_of(b, wiel_rule) == outcome_winner(b.outcome),
        b.outcome matches Outcome::Won { winner, .. } ==> outcome_winner(b.outcome) == Some(winner),
{
}

/// A decided board's winner and loser are its two players, one each: the
/// loser is whichever player the winner is not; an undecided board credits
/// and charges nobody.
pub proof fn lemma_winner_and_loser_are_the_two_players(b: Board, wiel_rule: bool)
    ensures
        winner_id_of(b, wiel_rule) is Some <==> effective_winner_of(b, wiel_rule) is Some,
        loser_id_of(b, wiel_rule) is Some <==> effective_winner_of(b, wiel_rule) is Some,
        effective_winner_of(b, wiel_rule) == Some(Winner::Player1) ==> winner_id_of(b, wiel_rule) == Some(b.player1)
            && loser_id_of(b, wiel_rule) == Some(b.player2),
        effective_winner_of(b, wiel_rule) == Some(Winner::Player2) ==> winner_id_of(b, wiel_rule) == Some(b.player2)
            && loser_id_of(b, wiel_rule) == Some(b.player1),
        (b.player1 != b.player2 && effective_winner_of(b, wiel_rule) is Some) ==> winner_id_of(b, wiel_rule)
            != loser_id_of(b, wiel_rule),
{
}

/// A forfeit names why each missing side missed the board and no reason
/// for a side that turned up; when exactly one side is missing, the other
/// side is the one present and takes the free point.
pub proof fn lemma_forfeits_name_the_missing_side(f: Forfeit, k: AbsenceKind, k2: AbsenceKind)
    ensures
        forfeit_kind(Forfeit::Player1(k), Winner::Player1) == Some(k) && forfeit_kind(Forfeit::Player1(k), Winner::Player2) is None,
        forfeit_kind(Forfeit::Player2(k), Winner::Player2) == Some(k) && forfeit_kind(Forfeit::Player2(k), Winner::Player1) is None,
        forfeit_kind(Forfeit::Both(k, k2), Winner::Player1) == Some(k) && forfeit_kind(Forfeit::Both(k, k2), Winner::Player2) == Some(k2),
        forfeit_present(Forfeit::Player1(k)) == Some(Winner::Player2),
        forfeit_present(Forfeit::Player2(k)) == Some(Winner::Player1),
        forfeit_present(Forfeit::Both(k, k2)) is None,
        forfeit_present(f) matches Some(side) ==> forfeit_kind(f, side) is None,
{
}

/// A sit-out is worth the same in points and in wins: nothing for `0−`,
/// half for `0=`, a whole for `0+`; a better sit-out is never worth less.
pub proof fn lemma_sitout_values(v: SitoutValue, w: SitoutValue)
    ensures
        sitout_halves(SitoutValue::Zero) == 0,
        sitout_halves(SitoutValue::Half) == 1,
        sitout_halves(SitoutValue::Full) == 2,
        sitout_halves(v) <= 2,
        (v == SitoutValue::Full && w != SitoutValue::Full) ==> sitout_halves(v) > sitout_halves(w),
        (v == SitoutValue::Zero && w != SitoutValue::Zero) ==> sitout_halves(v) < sitout_halves(w),
{
}

} // verus!
