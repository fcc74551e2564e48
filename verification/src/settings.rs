//! Tournament-wide settings.

use vstd::prelude::*;

use uuid::Uuid;

use crate::player::{grade_rank, Grade, GradeKind};
use crate::text::{lowercase, trim};

verus! {

/// A date or a date range that could not be accepted.
#[derive(Debug, Clone, PartialEq, Eq)]
pub enum DateError {
    /// Not an ISO calendar date `YYYY-MM-DD`.
    Malformed(String),
    /// The tournament's last day precedes its first.
    Backwards { first: IsoDate, last: IsoDate },
}

/// A calendar date in ISO `YYYY-MM-DD` form, validated on construction (the
/// layout *and* the calendar). The derived ordering compares the strings,
/// which for this fixed-width zero-padded form is chronological order.
#[derive(Debug, Clone, PartialEq, Eq, PartialOrd, Ord)]
pub struct IsoDate(String);

/// Gregorian leap years included; `0` for a month outside `1..=12`.
pub open spec fn month_days(year: u32, month: u32) -> u32 {
    if month == 1 || month == 3 || month == 5 || month == 7 || month == 8 || month == 10 || month
        == 12 {
        31
    } else if month == 4 || month == 6 || month == 9 || month == 11 {
        30
    } else if month == 2 {
        if year % 4 == 0 && (year % 100 != 0 || year % 400 == 0) {
            29
        } else {
            28
        }
    } else {
        0
    }
}

/// The value of the digit characters `s[from..to]`.
pub open spec fn field_value(s: Seq<char>, from: int, to: int) -> int {
    crate::text::digits_value(s.subrange(from, to))
}

/// Whether `s` spells a real calendar date as `YYYY-MM-DD`: ten ASCII
/// characters, dashes at 4 and 7, digits elsewhere, a month in `1..=12` and a
/// day in `1..=days_in_month`.
pub open spec fn is_iso_date(s: Seq<char>) -> bool {
    &&& s.len() == 10
    &&& s[4] == '-' && s[7] == '-'
    &&& crate::text::all_digits(s.subrange(0, 4))
    &&& crate::text::all_digits(s.subrange(5, 7))
    &&& crate::text::all_digits(s.subrange(8, 10))
    &&& 1 <= field_value(s, 5, 7) <= 12
    &&& 1 <= field_value(s, 8, 10) <= month_days(
        field_value(s, 0, 4) as u32,
        field_value(s, 5, 7) as u32,
    )
}

/// Lexicographic order on character sequences (a proper prefix first).
pub open spec fn seq_less(a: Seq<char>, b: Seq<char>) -> bool
    decreases a.len(),
{
    if b.len() == 0 {
        false
    } else if a.len() == 0 {
        true
    } else if a[0] != b[0] {
        (a[0] as u32) < (b[0] as u32)
    } else {
        seq_less(a.drop_first(), b.drop_first())
    }
}

/// Whether `a` sorts strictly before `b`, character by character.
pub fn chars_less(a: &[char], b: &[char]) -> (r: bool)
    ensures
        r == seq_less(a@, b@),
{
    let mut i: usize = 0;
    assert(a@.subrange(0, a@.len() as int) =~= a@);
    assert(b@.subrange(0, b@.len() as int) =~= b@);
    while i < a.len() && i < b.len() && a[i] == b[i]
        invariant
            i <= a@.len(),
            i <= b@.len(),
            forall|j: int| 0 <= j < i ==> a@[j] == b@[j],
            seq_less(a@, b@) == seq_less(a@.subrange(i as int, a@.len() as int), b@.subrange(
                i as int,
                b@.len() as int,
            )),
        decreases a@.len() - i,
    {
        let ghost sa = a@.subrange(i as int, a@.len() as int);
        let ghost sb = b@.subrange(i as int, b@.len() as int);
        assert(sa.drop_first() =~= a@.subrange(i + 1, a@.len() as int));
        assert(sb.drop_first() =~= b@.subrange(i + 1, b@.len() as int));
        i += 1;
    }
    if i == b.len() {
        false
    } else if i == a.len() {
        true
    } else {
        (a[i] as u32) < (b[i] as u32)
    }
}

/// Gregorian leap years included.
fn days_in_month(year: u32, month: u32) -> (r: u32)
    ensures
        r == month_days(year, month),
{
    if month == 1 || month == 3 || month == 5 || month == 7 || month == 8 || month == 10 || month
        == 12 {
        31
    } else if month == 4 || month == 6 || month == 9 || month == 11 {
        30
    } else if month == 2 {
        if year % 4 == 0 && (year % 100 != 0 || year % 400 == 0) {
            29
        } else {
            28
        }
    } else {
        0
    }
}

impl IsoDate {
    /// The date's characters.
    pub closed spec fn chars(self) -> Seq<char> {
        self.0@
    }

    /// Parse an ISO `YYYY-MM-DD` calendar date, rejecting anything else.
    pub fn parse(s: &str) -> (r: Result<Self, DateError>)
        ensures
            r matches Ok(d) ==> is_iso_date(s@) && d.chars() == s@,
            r matches Err(e) ==> !is_iso_date(s@) && (e matches DateError::Malformed(m) && m@
                == s@),
    {
        let cs = crate::text::chars_of(s);
        if IsoDate::valid_chars(cs.as_slice()) {
            Ok(IsoDate(crate::text::owned(s)))
        } else {
            Err(DateError::Malformed(crate::text::owned(s)))
        }
    }

    /// Whether the characters spell a real ISO calendar date.
    fn valid_chars(s: &[char]) -> (r: bool)
        ensures
            r == is_iso_date(s@),
    {
        if s.len() != 10 || s[4] != '-' || s[7] != '-' {
            return false;
        }
        let y = crate::player::slice_range(s, 0, 4);
        let m = crate::player::slice_range(s, 5, 7);
        let d = crate::player::slice_range(s, 8, 10);
        proof {
            crate::text::lemma_short_digits_fit(y@);
            crate::text::lemma_short_digits_fit(m@);
            crate::text::lemma_short_digits_fit(d@);
        }
        let year = match crate::text::parse_u32_digits(y.as_slice()) {
            Some(v) => v,
            None => return false,
        };
        let month = match crate::text::parse_u32_digits(m.as_slice()) {
            Some(v) => v,
            None => return false,
        };
        let day = match crate::text::parse_u32_digits(d.as_slice()) {
            Some(v) => v,
            None => return false,
        };
        !(month < 1 || month > 12 || day < 1 || day > days_in_month(year, month))
    }

    pub fn as_str(&self) -> (r: &str)
        ensures
            r@ == self.chars(),
    {
        self.0.as_str()
    }
}

/// The days the tournament runs: its first and its last (equal for a one-day
/// event). A range whose end precedes its start is rejected at construction.
#[derive(Debug, Clone, PartialEq, Eq)]
pub struct TournamentDates {
    pub first: IsoDate,
    /// Last day of play — the same as `first` for a one-day event.
    pub last: IsoDate,
}

impl TournamentDates {
    /// The dates of an event running `first..=last`.
    pub fn new(first: IsoDate, last: IsoDate) -> (r: Result<Self, DateError>)
        ensures
            r matches Ok(d) ==> !seq_less(last.chars(), first.chars()) && d.first == first
                && d.last == last,
            r matches Err(e) ==> seq_less(last.chars(), first.chars()) && e == (DateError::Backwards {
                first,
                last,
            }),
    {
        let a = crate::text::chars_of(last.as_str());
        let b = crate::text::chars_of(first.as_str());
        if chars_less(a.as_slice(), b.as_slice()) {
            return Err(DateError::Backwards { first, last });
        }
        Ok(TournamentDates { first, last })
    }

    /// Whether the event lasts a single day.
    pub fn single_day(&self) -> (r: bool)
        ensures
            r == (self.first.chars() == self.last.chars()),
    {
        crate::text::str_equal(self.first.as_str(), self.last.as_str())
    }
}

/// An integer-percent multiplier (`100` = ×1.0).
#[derive(Debug, Clone, Copy, PartialEq, Eq, Structural)]
pub struct Ratio(pub u32);

impl Ratio {
    pub fn from_percent(percent: u32) -> (r: Self)
        ensures
            r.0 == percent,
    {
        Ratio(percent)
    }
}

/// A [`Ratio`] that can never fall below ×1.0 (percent ≥ 100).
#[derive(Debug, Clone, Copy, PartialEq, Eq, Structural)]
pub struct RatioAtLeastOne(u32);

impl RatioAtLeastOne {
    /// The stored percent.
    pub closed spec fn percent(self) -> u32 {
        self.0
    }

    pub fn from_percent(percent: u32) -> (r: Self)
        ensures
            r.percent() == if percent < 100 {
                100
            } else {
                percent
            },
    {
        RatioAtLeastOne(if percent < 100 {
            100
        } else {
            percent
        })
    }

    /// The stored percent, at least 100.
    pub fn get(self) -> (r: u32)
        ensures
            r == self.percent(),
    {
        self.0
    }
}

/// The K (prior width) of an unrated player, `≥ 1`.
#[derive(Debug, Clone, Copy, PartialEq, Eq, Structural)]
pub struct UnratedK(u32);

impl UnratedK {
    /// The stored K.
    pub closed spec fn k(self) -> u32 {
        self.0
    }

    pub fn new(k: u32) -> (r: Self)
        ensures
            r.k() == if k < 1 {
                1
            } else {
                k
            },
    {
        UnratedK(if k < 1 {
            1
        } else {
            k
        })
    }

    pub fn get(self) -> (r: u32)
        ensures
            r == self.k(),
    {
        self.0
    }
}

/// A round count that is never zero — a window "rounds `1..=n`".
#[derive(Debug, Clone, Copy, PartialEq, Eq, Structural)]
pub struct RoundLimit(u32);

impl RoundLimit {
    /// The limit.
    pub closed spec fn limit(self) -> u32 {
        self.0
    }

    /// Whether the stored limit is non-zero.
    pub closed spec fn wf(self) -> bool {
        self.0 > 0
    }

    /// `Some` for a non-zero limit, `None` for zero (no window).
    pub fn new(n: u32) -> (r: Option<Self>)
        ensures
            r is None <==> n == 0,
            r matches Some(l) ==> l.limit() == n && l.wf(),
    {
        if n == 0 {
            None
        } else {
            Some(RoundLimit(n))
        }
    }

    pub fn get(self) -> (r: u32)
        ensures
            r == self.limit(),
    {
        self.0
    }
}

/// Which player a score group sends *up* as its ascending floater.
#[derive(Debug, Clone, Copy, PartialEq, Eq, Default, Structural)]
pub enum FloaterStyle {
    /// Classic Swiss: the first (strongest) of the lower group floats up.
    #[default]
    Classic,
    /// Median Swiss: the median of the lower group floats up.
    Median,
}

/// Whether a protection with window `rounds` applies to `round`.
pub open spec fn window_covers(rounds: Option<RoundLimit>, round: u32) -> bool {
    match rounds {
        None => true,
        Some(n) => round <= n.limit(),
    }
}

/// Club protection: whether the pairing engine avoids pairing club-mates, for
/// how long, and with which clubs exempt.
#[derive(Debug, Clone, PartialEq, Eq, Default)]
pub enum ClubProtection {
    #[default]
    Off,
    /// Avoid pairing club-mates.
    On { rounds: Option<RoundLimit>, exempt_clubs: Vec<String> },
}

/// The characters of each string, in order.
pub open spec fn views(v: Seq<String>) -> Seq<Seq<char>> {
    v.map_values(|s: String| s@)
}

/// Each string trimmed and lower-cased.
pub open spec fn folded(v: Seq<String>) -> Seq<Seq<char>> {
    v.map_values(|s: String| lowercase(trim(s@)))
}

/// Each entry of `list` in canonical (trimmed, lower-cased) form.
fn fold_all(list: &Vec<String>) -> (r: Vec<String>)
    ensures
        views(r@) == folded(list@),
{
    let mut out: Vec<String> = Vec::new();
    let mut i: usize = 0;
    while i < list.len()
        invariant
            i <= list@.len(),
            views(out@) == folded(list@.subrange(0, i as int)),
        decreases list@.len() - i,
    {
        let c = crate::text::trim_lower(list[i].as_str());
        let ghost before = out@;
        out.push(c);
        assert(views(out@) =~= views(before).push(c@));
        assert(folded(list@.subrange(0, i as int + 1)) =~= folded(list@.subrange(0, i as int)).push(
            lowercase(trim(list@[i as int]@)),
        ));
        i += 1;
    }
    assert(list@.subrange(0, list@.len() as int) =~= list@);
    out
}

impl ClubProtection {
    /// Whether protection applies to the given (1-based) round.
    pub fn active(&self, round: u32) -> (r: bool)
        ensures
            r == (match self {
                ClubProtection::Off => false,
                ClubProtection::On { rounds, .. } => window_covers(*rounds, round),
            }),
    {
        match self {
            ClubProtection::Off => false,
            ClubProtection::On { rounds, .. } => match rounds {
                None => true,
                Some(n) => round <= n.get(),
            },
        }
    }

    /// The exempt clubs in canonical (normalized) form; empty when off.
    fn exempt_normalized(&self) -> (r: Vec<String>)
        ensures
            views(r@) == (match self {
                ClubProtection::Off => Seq::empty(),
                ClubProtection::On { exempt_clubs, .. } => folded(exempt_clubs@),
            }),
    {
        match self {
            ClubProtection::On { exempt_clubs, .. } => fold_all(exempt_clubs),
            ClubProtection::Off => {
                let v: Vec<String> = Vec::new();
                assert(views(v@) =~= Seq::empty());
                v
            },
        }
    }

    /// Whether protection is off (the default).
    fn is_off(&self) -> (r: bool)
        ensures
            r == (*self is Off),
    {
        matches!(self, ClubProtection::Off)
    }
}

/// Nationality protection: the same idea as [`ClubProtection`], one notch
/// weaker.
#[derive(Debug, Clone, PartialEq, Eq, Default)]
pub enum NationalityProtection {
    #[default]
    Off,
    /// Avoid pairing players of the same nationality.
    On { rounds: Option<RoundLimit>, exempt_nationalities: Vec<String> },
}

impl NationalityProtection {
    /// Whether protection applies to the given (1-based) round.
    pub fn active(&self, round: u32) -> (r: bool)
        ensures
            r == (match self {
                NationalityProtection::Off => false,
                NationalityProtection::On { rounds, .. } => window_covers(*rounds, round),
            }),
    {
        match self {
            NationalityProtection::Off => false,
            NationalityProtection::On { rounds, .. } => match rounds {
                None => true,
                Some(n) => round <= n.get(),
            },
        }
    }

    /// The exempt nationalities in canonical (normalized) form; empty when off.
    fn exempt_normalized(&self) -> (r: Vec<String>)
        ensures
            views(r@) == (match self {
                NationalityProtection::Off => Seq::empty(),
                NationalityProtection::On { exempt_nationalities, .. } => folded(
                    exempt_nationalities@,
                ),
            }),
    {
        match self {
            NationalityProtection::On { exempt_nationalities, .. } => fold_all(
                exempt_nationalities,
            ),
            NationalityProtection::Off => {
                let v: Vec<String> = Vec::new();
                assert(views(v@) =~= Seq::empty());
                v
            },
        }
    }

    /// Whether protection is off (the default).
    fn is_off(&self) -> (r: bool)
        ensures
            r == (*self is Off),
    {
        matches!(self, NationalityProtection::Off)
    }
}

/// Whether `x` is, case-insensitively, one of `seen`.
pub open spec fn seen_folded(seen: Seq<Seq<char>>, x: Seq<char>) -> bool {
    exists|i: int| 0 <= i < seen.len() && lowercase(seen[i]) == lowercase(x)
}

/// Canonical form of an exempt list: each entry trimmed, blanks dropped, and
/// repeats removed case-insensitively keeping the first spelling.
pub open spec fn exempt_list_of(list: Seq<Seq<char>>) -> Seq<Seq<char>>
    decreases list.len(),
{
    if list.len() == 0 {
        Seq::empty()
    } else {
        let kept = exempt_list_of(list.drop_last());
        let t = trim(list.last());
        if t.len() != 0 && !seen_folded(kept, t) {
            kept.push(t)
        } else {
            kept
        }
    }
}

/// Canonical form of an exempt list (clubs or nationalities).
fn normalize_exempt_list(list: Vec<String>) -> (r: Vec<String>)
    ensures
        views(r@) == exempt_list_of(views(list@)),
{
    let mut out: Vec<String> = Vec::new();
    let mut lowered: Vec<String> = Vec::new();
    let mut i: usize = 0;
    while i < list.len()
        invariant
            i <= list@.len(),
            views(out@) == exempt_list_of(views(list@.subrange(0, i as int))),
            lowered@.len() == out@.len(),
            forall|j: int| 0 <= j < out@.len() ==> lowered@[j]@ == lowercase(#[trigger] out@[j]@),
        decreases list@.len() - i,
    {
        let t = crate::text::trimmed(list[i].as_str());
        let lower = crate::text::to_lowercase(t.as_str());
        let ghost prefix = views(list@.subrange(0, i as int + 1));
        assert(prefix.drop_last() =~= views(list@.subrange(0, i as int)));
        assert(prefix.last() == list@[i as int]@);
        let mut dup = false;
        let mut j: usize = 0;
        while j < lowered.len()
            invariant
                j <= lowered@.len(),
                lowered@.len() == out@.len(),
                forall|k: int| 0 <= k < out@.len() ==> lowered@[k]@ == lowercase(#[trigger] out@[k]@),
                lower@ == lowercase(t@),
                dup == exists|k: int| 0 <= k < j && lowercase(views(out@)[k]) == lowercase(t@),
            decreases lowered@.len() - j,
        {
            if crate::text::str_equal(lowered[j].as_str(), lower.as_str()) {
                dup = true;
            }
            proof {
                assert(views(out@)[j as int] == out@[j as int]@);
            }
            j += 1;
        }
        let blank = t.as_str().is_empty();
        assert(blank == (t@.len() == 0));
        if !blank && !dup {
            out.push(t);
            lowered.push(lower);
            assert(views(out@) =~= exempt_list_of(prefix));
        } else {
            assert(views(out@) =~= exempt_list_of(prefix));
        }
        i += 1;
    }
    assert(list@.subrange(0, list@.len() as int) =~= list@);
    out
}

/// How the referee wants handicap games treated in this tournament.
#[derive(Debug, Clone, Copy, PartialEq, Eq, Structural)]
pub enum HandicapPolicy {
    /// No handicap column at all.
    Disabled,
    /// Handicaps are played; `wiel_rule`: the giver always counts as winner.
    Enabled { display: HandicapDisplay, wiel_rule: bool },
}

impl Default for HandicapPolicy {
    /// Handicaps allowed (picker shown, no suggestion), Wiel off.
    fn default() -> (r: Self)
        ensures
            r == (HandicapPolicy::Enabled { display: HandicapDisplay::Allowed, wiel_rule: false }),
    {
        HandicapPolicy::Enabled { display: HandicapDisplay::Allowed, wiel_rule: false }
    }
}

/// Whether the Wiel rule is on under `p`.
pub open spec fn wiel_of(p: HandicapPolicy) -> bool {
    match p {
        HandicapPolicy::Enabled { wiel_rule, .. } => wiel_rule,
        HandicapPolicy::Disabled => false,
    }
}

impl HandicapPolicy {
    fn wiel_rule(self) -> (r: bool)
        ensures
            r == wiel_of(self),
    {
        match self {
            HandicapPolicy::Enabled { wiel_rule, .. } => wiel_rule,
            HandicapPolicy::Disabled => false,
        }
    }
}

/// What the pairings view shows once handicaps are enabled.
#[derive(Debug, Clone, Copy, PartialEq, Eq, Default, Structural)]
pub enum HandicapDisplay {
    /// The handicap picker, but no suggested-handicap column.
    #[default]
    Allowed,
    /// The handicap picker plus a suggested-handicap column.
    Suggested,
}

/// The shape of every player's Bayesian ELO prior.
#[derive(Debug, Clone, Copy, PartialEq, Eq, Default, Structural)]
pub enum EloPriorShape {
    #[default]
    Gaussian,
    Laplace,
    Flat,
}

/// What a MacMahon threshold compares against — an ELO rating or a grade.
#[derive(Debug, Clone, Copy, PartialEq, Eq, Structural)]
pub enum ThresholdCriterion {
    /// Met when the player's rating is at or above `value`.
    Elo { value: u32 },
    /// Met when the player's grade is at or above `grade`.
    Grade { grade: Grade },
}

/// Whether a player with `rating`/`grade` meets criterion `c`.
pub open spec fn met(c: ThresholdCriterion, rating: Option<u32>, grade: Option<Grade>) -> bool {
    match c {
        ThresholdCriterion::Elo { value } => match rating {
            Some(r) => r >= value,
            None => false,
        },
        ThresholdCriterion::Grade { grade: g } => match grade {
            Some(pg) => grade_rank(pg) >= grade_rank(g),
            None => false,
        },
    }
}

/// The canonical sort key: ELO thresholds by value, then grade ones by rank.
pub open spec fn criterion_key(c: ThresholdCriterion) -> (u8, int) {
    match c {
        ThresholdCriterion::Elo { value } => (0u8, value as int),
        ThresholdCriterion::Grade { grade } => (1u8, grade_rank(grade)),
    }
}

impl ThresholdCriterion {
    /// Whether a player with the given rating/grade meets this threshold.
    fn met_by(self, rating: Option<u32>, grade: Option<Grade>) -> (r: bool)
        ensures
            r == met(self, rating, grade),
    {
        match self {
            ThresholdCriterion::Elo { value } => match rating {
                Some(r) => r >= value,
                None => false,
            },
            ThresholdCriterion::Grade { grade: g } => match grade {
                Some(pg) => pg.rank() >= g.rank(),
                None => false,
            },
        }
    }

    /// A key that sorts ELO thresholds by value, then grade ones by strength.
    fn sort_key(self) -> (r: (u8, i64))
        ensures
            r.0 == criterion_key(self).0,
            r.1 as int == criterion_key(self).1,
    {
        match self {
            ThresholdCriterion::Elo { value } => (0, value as i64),
            ThresholdCriterion::Grade { grade } => (1, grade.rank()),
        }
    }
}

/// A single MacMahon starting-points band.
#[derive(Debug, Clone, Copy, PartialEq, Eq, Structural)]
pub struct MacMahonThreshold {
    pub criterion: ThresholdCriterion,
    /// Degressive MacMahon: stop applying after round `n`.
    pub drops_after_round: Option<u32>,
}

impl MacMahonThreshold {
    /// An ELO threshold that never degresses.
    pub fn elo(value: u32) -> (r: Self)
        ensures
            r == (MacMahonThreshold {
                criterion: ThresholdCriterion::Elo { value },
                drops_after_round: None,
            }),
    {
        MacMahonThreshold { criterion: ThresholdCriterion::Elo { value }, drops_after_round: None }
    }

    /// A grade threshold that never degresses.
    pub fn grade(grade: Grade) -> (r: Self)
        ensures
            r == (MacMahonThreshold {
                criterion: ThresholdCriterion::Grade { grade },
                drops_after_round: None,
            }),
    {
        MacMahonThreshold {
            criterion: ThresholdCriterion::Grade { grade },
            drops_after_round: None,
        }
    }
}

/// A tie-break metric the referee can put in the ranking order.
#[derive(Debug, Clone, Copy, PartialEq, Eq, Hash, Structural)]
pub enum Tiebreak {
    Points,
    SosM,
    SosW,
    SodosM,
    SodosW,
    SososM,
    SososW,
    SosM1,
    SosM2,
    SosW1,
    SosW2,
    CussM,
    CussW,
    Dc,
    EstElo,
    BoardWins,
}

impl Tiebreak {
    /// The classic points → SOS → SODOS → SOSOS order.
    pub fn default_order() -> (r: Vec<Tiebreak>)
        ensures
            r@ == seq![Tiebreak::Points, Tiebreak::SosM, Tiebreak::SodosM, Tiebreak::SososM],
    {
        let r = vec![Tiebreak::Points, Tiebreak::SosM, Tiebreak::SodosM, Tiebreak::SososM];
        assert(r@ =~= seq![Tiebreak::Points, Tiebreak::SosM, Tiebreak::SodosM, Tiebreak::SososM]);
        r
    }

    /// The default order for a team tournament: match points, board wins,
    /// then the SOS family.
    pub fn default_team_order() -> (r: Vec<Tiebreak>)
        ensures
            r@ == seq![
                Tiebreak::Points,
                Tiebreak::BoardWins,
                Tiebreak::SosM,
                Tiebreak::SodosM,
                Tiebreak::SososM,
            ],
    {
        let r = vec![
            Tiebreak::Points,
            Tiebreak::BoardWins,
            Tiebreak::SosM,
            Tiebreak::SodosM,
            Tiebreak::SososM,
        ];
        assert(r@ =~= seq![
            Tiebreak::Points,
            Tiebreak::BoardWins,
            Tiebreak::SosM,
            Tiebreak::SodosM,
            Tiebreak::SososM,
        ]);
        r
    }
}

/// The default tie-break order.
fn default_tiebreaks() -> (r: Vec<Tiebreak>)
    ensures
        r@ == seq![Tiebreak::Points, Tiebreak::SosM, Tiebreak::SodosM, Tiebreak::SososM],
{
    Tiebreak::default_order()
}

/// The default ELO-estimate K multiplier (×1.0).
fn default_elo_k_multiplier_percent() -> (r: Ratio)
    ensures
        r.0 == 100,
{
    Ratio::from_percent(100)
}

/// The default extra K multiplier for a provisionally-rated player (×2.0).
fn default_elo_provisional_multiplier_percent() -> (r: RatioAtLeastOne)
    ensures
        r.percent() == 200,
{
    RatioAtLeastOne::from_percent(200)
}

/// The default center of the unrated-player prior (ELO 600).
fn default_elo_unrated_prior_center() -> (r: u32)
    ensures
        r == 600,
{
    600
}

/// The default K for the unrated-player prior (705, ≈ the historical σ 350).
fn default_elo_unrated_k() -> (r: UnratedK)
    ensures
        r.k() == 705,
{
    UnratedK::new(705)
}

/// The default upward-looseness ratio (×1.0 = symmetric).
fn default_elo_upward_looseness_percent() -> (r: RatioAtLeastOne)
    ensures
        r.percent() == 100,
{
    RatioAtLeastOne::from_percent(100)
}

/// The configuration of the live Bayesian ELO estimate.
#[derive(Debug, Clone, Copy, PartialEq, Eq, Structural)]
pub struct EloEstimator {
    pub k_multiplier: Ratio,
    pub provisional_multiplier: RatioAtLeastOne,
    pub unrated_prior_center: u32,
    pub unrated_k: UnratedK,
    pub prior_shape_established: EloPriorShape,
    pub prior_shape_provisional: EloPriorShape,
    pub prior_shape_unrated: EloPriorShape,
    pub upward_looseness_established: RatioAtLeastOne,
    pub upward_looseness_provisional: RatioAtLeastOne,
    pub upward_looseness_unrated: RatioAtLeastOne,
}

impl Default for EloEstimator {
    fn default() -> (r: Self)
        ensures
            r.k_multiplier.0 == 100,
            r.provisional_multiplier.percent() == 200,
            r.unrated_prior_center == 600,
            r.unrated_k.k() == 705,
            r.prior_shape_established == EloPriorShape::Gaussian,
            r.prior_shape_provisional == EloPriorShape::Gaussian,
            r.prior_shape_unrated == EloPriorShape::Gaussian,
            r.upward_looseness_established.percent() == 100,
            r.upward_looseness_provisional.percent() == 100,
            r.upward_looseness_unrated.percent() == 100,
    {
        EloEstimator {
            k_multiplier: default_elo_k_multiplier_percent(),
            provisional_multiplier: default_elo_provisional_multiplier_percent(),
            unrated_prior_center: default_elo_unrated_prior_center(),
            unrated_k: default_elo_unrated_k(),
            prior_shape_established: EloPriorShape::Gaussian,
            prior_shape_provisional: EloPriorShape::Gaussian,
            prior_shape_unrated: EloPriorShape::Gaussian,
            upward_looseness_established: default_elo_upward_looseness_percent(),
            upward_looseness_provisional: default_elo_upward_looseness_percent(),
            upward_looseness_unrated: default_elo_upward_looseness_percent(),
        }
    }
}

/// Where MacMahon starting points come from.
#[derive(Debug, Clone, Copy, Default, PartialEq, Eq, Structural)]
pub enum MacMahonSource {
    /// From each player's static registration rating (or grade).
    #[default]
    Static,
    /// From the live ELO estimate, recomputed each round.
    FromEstimate { estimator: EloEstimator },
}

/// The MacMahon configuration of a Swiss tournament.
#[derive(Debug, Clone, Default, PartialEq, Eq)]
pub struct MacMahon {
    /// Thresholds (sorted, de-duplicated) defining the starting groups.
    pub thresholds: Vec<MacMahonThreshold>,
    pub source: MacMahonSource,
}

/// How the tournament is paired.
#[derive(Debug, Clone, PartialEq, Eq)]
pub enum PairingMode {
    /// Swiss / MacMahon pairing.
    Swiss {
        floater_style: FloaterStyle,
        /// Forbid pairing across MacMahon groups during rounds `1..=n`.
        airtight_groups: Option<RoundLimit>,
        club_protection: ClubProtection,
        nationality_protection: NationalityProtection,
        macmahon: MacMahon,
    },
    /// Experimental ELO pairing over a live estimate.
    Elo { estimator: EloEstimator },
}

impl Default for PairingMode {
    fn default() -> (r: Self)
        ensures
            r matches PairingMode::Swiss {
                floater_style,
                airtight_groups,
                club_protection,
                nationality_protection,
                macmahon,
            } && floater_style == FloaterStyle::Classic && airtight_groups is None
                && club_protection is Off && nationality_protection is Off
                && macmahon.thresholds@.len() == 0 && macmahon.source is Static,
    {
        PairingMode::Swiss {
            floater_style: FloaterStyle::Classic,
            airtight_groups: None,
            club_protection: ClubProtection::Off,
            nationality_protection: NationalityProtection::Off,
            macmahon: MacMahon { thresholds: Vec::new(), source: MacMahonSource::Static },
        }
    }
}

/// A referee-defined, purely descriptive player category.
#[derive(Debug, Clone, PartialEq, Eq)]
pub struct PlayerCategory {
    pub id: Uuid,
    pub name: String,
}

/// Team-tournament configuration: players per team.
#[derive(Debug, Clone, Copy, PartialEq, Eq, Structural)]
pub struct TeamSettings {
    pub size: u32,
}

impl Default for TeamSettings {
    fn default() -> (r: Self)
        ensures
            r.size == 3,
    {
        TeamSettings { size: 3 }
    }
}

/// The smallest team size a tournament may be run with.
pub const TEAM_SIZE_MIN: u32 = 2;

/// The largest team size a tournament may be run with.
pub const TEAM_SIZE_MAX: u32 = 9;

/// How the cup fills its bracket.
#[derive(Debug, Clone, Copy, PartialEq, Eq, Default, Structural)]
pub enum CupFormat {
    /// Straight from the top eligible players.
    #[default]
    Direct,
    /// With a qualification round feeding half the bracket.
    Qualifier,
}

/// A feature that cannot be combined with team mode.
#[derive(Debug, Clone, Copy, PartialEq, Eq, Structural)]
pub enum TeamModeConflict {
    Cup,
    LongGames,
    EloPairing,
    GradeThresholds,
    EstEloTiebreak,
}

impl TeamModeConflict {
    /// The stable machine code for this conflict.
    pub fn code(self) -> (r: &'static str)
        ensures
            r@ == (match self {
                TeamModeConflict::Cup => "team_mode_rejects_cup"@,
                TeamModeConflict::LongGames => "team_mode_rejects_long_games"@,
                TeamModeConflict::EloPairing => "team_mode_rejects_elo_pairing"@,
                TeamModeConflict::GradeThresholds => "team_mode_rejects_grade_thresholds"@,
                TeamModeConflict::EstEloTiebreak => "team_mode_rejects_est_elo_tiebreak"@,
            }),
    {
        match self {
            TeamModeConflict::Cup => "team_mode_rejects_cup",
            TeamModeConflict::LongGames => "team_mode_rejects_long_games",
            TeamModeConflict::EloPairing => "team_mode_rejects_elo_pairing",
            TeamModeConflict::GradeThresholds => "team_mode_rejects_grade_thresholds",
            TeamModeConflict::EstEloTiebreak => "team_mode_rejects_est_elo_tiebreak",
        }
    }

    /// English description, the fallback when a client has no translation.
    pub fn describe(self) -> (r: &'static str)
        ensures
            r@ == (match self {
                TeamModeConflict::Cup => "the direct-elimination cup"@,
                TeamModeConflict::LongGames => "long (two-round) games"@,
                TeamModeConflict::EloPairing => "ELO pairing mode"@,
                TeamModeConflict::GradeThresholds => "grade-based MacMahon thresholds"@,
                TeamModeConflict::EstEloTiebreak => "the estimated-ELO tie-break"@,
            }),
    {
        match self {
            TeamModeConflict::Cup => "the direct-elimination cup",
            TeamModeConflict::LongGames => "long (two-round) games",
            TeamModeConflict::EloPairing => "ELO pairing mode",
            TeamModeConflict::GradeThresholds => "grade-based MacMahon thresholds",
            TeamModeConflict::EstEloTiebreak => "the estimated-ELO tie-break",
        }
    }
}

/// Configuration that isn't tied to a single player or round.
#[derive(Debug, Clone, PartialEq, Eq)]
pub struct TournamentSettings {
    pub city: Option<String>,
    pub country: Option<String>,
    pub dates: Option<TournamentDates>,
    pub time_control: Option<String>,
    pub pairing: PairingMode,
    pub cup_enabled: bool,
    pub cup_format: CupFormat,
    pub long_boards_enabled: bool,
    pub handicap_policy: HandicapPolicy,
    pub half_point_absences: bool,
    pub tiebreaks: Vec<Tiebreak>,
    pub categories: Vec<PlayerCategory>,
    pub teams: Option<TeamSettings>,
}

impl Default for TournamentSettings {
    fn default() -> (r: Self)
        ensures
            r.city is None && r.country is None && r.dates is None && r.time_control is None,
            r.pairing matches PairingMode::Swiss {
                floater_style,
                airtight_groups,
                club_protection,
                nationality_protection,
                macmahon,
            } && floater_style == FloaterStyle::Classic && airtight_groups is None
                && club_protection is Off && nationality_protection is Off
                && macmahon.thresholds@.len() == 0 && macmahon.source is Static,
            !r.cup_enabled && r.cup_format == CupFormat::Direct && !r.long_boards_enabled,
            r.handicap_policy == (HandicapPolicy::Enabled {
                display: HandicapDisplay::Allowed,
                wiel_rule: false,
            }),
            !r.half_point_absences,
            r.tiebreaks@ == seq![Tiebreak::Points, Tiebreak::SosM, Tiebreak::SodosM, Tiebreak::SososM],
            r.categories@.len() == 0,
            r.teams is None,
    {
        TournamentSettings {
            city: None,
            country: None,
            dates: None,
            time_control: None,
            pairing: PairingMode::default(),
            cup_enabled: false,
            cup_format: CupFormat::Direct,
            long_boards_enabled: false,
            handicap_policy: HandicapPolicy::default(),
            half_point_absences: false,
            tiebreaks: default_tiebreaks(),
            categories: Vec::new(),
            teams: None,
        }
    }
}

/// The configured MacMahon thresholds (empty under ELO pairing).
pub open spec fn thresholds_of(s: TournamentSettings) -> Seq<MacMahonThreshold> {
    match s.pairing {
        PairingMode::Swiss { macmahon, .. } => macmahon.thresholds@,
        PairingMode::Elo { .. } => Seq::empty(),
    }
}

/// Whether threshold `t` still applies once `rounds_played` rounds are done.
pub open spec fn in_effect(t: MacMahonThreshold, rounds_played: u32) -> bool {
    match t.drops_after_round {
        None => true,
        Some(r) => rounds_played < r,
    }
}

/// The criteria of the thresholds still in effect, in order.
pub open spec fn effective_criteria(ts: Seq<MacMahonThreshold>, rounds_played: u32) -> Seq<
    ThresholdCriterion,
>
    decreases ts.len(),
{
    if ts.len() == 0 {
        Seq::empty()
    } else {
        let rest = effective_criteria(ts.drop_last(), rounds_played);
        if in_effect(ts.last(), rounds_played) {
            rest.push(ts.last().criterion)
        } else {
            rest
        }
    }
}

/// How many of `cs` a player with `rating`/`grade` meets.
pub open spec fn count_met(cs: Seq<ThresholdCriterion>, rating: Option<u32>, grade: Option<Grade>) -> nat
    decreases cs.len(),
{
    if cs.len() == 0 {
        0
    } else {
        count_met(cs.drop_last(), rating, grade) + if met(cs.last(), rating, grade) {
            1nat
        } else {
            0nat
        }
    }
}

/// The MacMahon starting points: the number of effective thresholds met.
pub open spec fn macmahon_points_spec(
    s: TournamentSettings,
    rating: Option<u32>,
    grade: Option<Grade>,
    rounds_played: u32,
) -> nat {
    count_met(effective_criteria(thresholds_of(s), rounds_played), rating, grade)
}

/// The floater style (Swiss), or the default under ELO pairing.
pub open spec fn floater_style_of(s: TournamentSettings) -> FloaterStyle {
    match s.pairing {
        PairingMode::Swiss { floater_style, .. } => floater_style,
        PairingMode::Elo { .. } => FloaterStyle::Classic,
    }
}

/// Whether club protection applies to `round`.
pub open spec fn club_active(s: TournamentSettings, round: u32) -> bool {
    match s.pairing {
        PairingMode::Swiss { club_protection, .. } => match club_protection {
            ClubProtection::Off => false,
            ClubProtection::On { rounds, .. } => window_covers(rounds, round),
        },
        PairingMode::Elo { .. } => false,
    }
}

/// Whether nationality protection applies to `round`.
pub open spec fn nationality_active(s: TournamentSettings, round: u32) -> bool {
    match s.pairing {
        PairingMode::Swiss { nationality_protection, .. } => match nationality_protection {
            NationalityProtection::Off => false,
            NationalityProtection::On { rounds, .. } => window_covers(rounds, round),
        },
        PairingMode::Elo { .. } => false,
    }
}

/// Whether airtight groups apply to `round`.
pub open spec fn airtight_active(s: TournamentSettings, round: u32) -> bool {
    match s.pairing {
        PairingMode::Swiss { airtight_groups, .. } => match airtight_groups {
            Some(n) => round <= n.limit(),
            None => false,
        },
        PairingMode::Elo { .. } => false,
    }
}

/// The exempt clubs in canonical form (empty unless protection is on).
pub open spec fn exempt_clubs_of(s: TournamentSettings) -> Seq<Seq<char>> {
    match s.pairing {
        PairingMode::Swiss { club_protection, .. } => match club_protection {
            ClubProtection::Off => Seq::empty(),
            ClubProtection::On { exempt_clubs, .. } => folded(exempt_clubs@),
        },
        PairingMode::Elo { .. } => Seq::empty(),
    }
}

/// The exempt nationalities in canonical form (empty unless protection is on).
pub open spec fn exempt_nationalities_of(s: TournamentSettings) -> Seq<Seq<char>> {
    match s.pairing {
        PairingMode::Swiss { nationality_protection, .. } => match nationality_protection {
            NationalityProtection::Off => Seq::empty(),
            NationalityProtection::On { exempt_nationalities, .. } => folded(
                exempt_nationalities@,
            ),
        },
        PairingMode::Elo { .. } => Seq::empty(),
    }
}

/// The live-estimate configuration, if an estimate is maintained.
pub open spec fn estimator_of(s: TournamentSettings) -> Option<EloEstimator> {
    match s.pairing {
        PairingMode::Elo { estimator } => Some(estimator),
        PairingMode::Swiss { macmahon, .. } => match macmahon.source {
            MacMahonSource::FromEstimate { estimator } => Some(estimator),
            MacMahonSource::Static => None,
        },
    }
}

/// Rated players are pinned to their registration rating: a live estimate is
/// kept with a zero K multiplier.
pub open spec fn rated_pinned(s: TournamentSettings) -> bool {
    (s.pairing is Elo || mm_from_estimate(s)) && match estimator_of(s) {
        Some(e) => e.k_multiplier.0 == 0,
        None => false,
    }
}

/// Whether any threshold in `ts` is of the ELO kind.
pub open spec fn has_elo_threshold(ts: Seq<MacMahonThreshold>) -> bool {
    exists|i: int| 0 <= i < ts.len() && ts[i].criterion is Elo
}

/// Whether any threshold in `ts` is of the grade kind.
pub open spec fn has_grade_threshold(ts: Seq<MacMahonThreshold>) -> bool {
    exists|i: int| 0 <= i < ts.len() && ts[i].criterion is Grade
}

/// Whether MacMahon points are drawn from the live estimate.
pub open spec fn mm_from_estimate(s: TournamentSettings) -> bool {
    match s.pairing {
        PairingMode::Swiss { macmahon, .. } => macmahon.source is FromEstimate
            && has_elo_threshold(macmahon.thresholds@),
        PairingMode::Elo { .. } => false,
    }
}

/// The first feature these settings enable that team mode cannot support.
pub open spec fn team_conflict_of(s: TournamentSettings) -> Option<TeamModeConflict> {
    if s.teams is None {
        None
    } else if s.cup_enabled {
        Some(TeamModeConflict::Cup)
    } else if s.long_boards_enabled {
        Some(TeamModeConflict::LongGames)
    } else if s.pairing is Elo {
        Some(TeamModeConflict::EloPairing)
    } else if has_grade_threshold(thresholds_of(s)) {
        Some(TeamModeConflict::GradeThresholds)
    } else if s.tiebreaks@.contains(Tiebreak::EstElo) {
        Some(TeamModeConflict::EstEloTiebreak)
    } else {
        None
    }
}

impl TournamentSettings {
    /// The MacMahon starting points before any degressive removal.
    pub fn macmahon_points(&self, rating: Option<u32>, grade: Option<Grade>) -> (r: u32)
        ensures
            r == macmahon_points_spec(*self, rating, grade, 0) as u32,
    {
        self.macmahon_points_at(rating, grade, 0)
    }

    /// The threshold criteria in effect once `rounds_played` rounds are done.
    pub fn effective_macmahon_thresholds(&self, rounds_played: u32) -> (r: Vec<ThresholdCriterion>)
        ensures
            r@ == effective_criteria(thresholds_of(*self), rounds_played),
    {
        let ts = self.macmahon_thresholds();
        let mut out: Vec<ThresholdCriterion> = Vec::new();
        let mut i: usize = 0;
        while i < ts.len()
            invariant
                i <= ts@.len(),
                ts@ == thresholds_of(*self),
                out@ == effective_criteria(ts@.subrange(0, i as int), rounds_played),
            decreases ts@.len() - i,
        {
            let t = ts[i];
            let ghost sub = ts@.subrange(0, i as int + 1);
            assert(sub.drop_last() =~= ts@.subrange(0, i as int));
            assert(sub.last() == t);
            let keep = match t.drops_after_round {
                None => true,
                Some(r) => rounds_played < r,
            };
            if keep {
                out.push(t.criterion);
            }
            i += 1;
        }
        assert(ts@.subrange(0, ts@.len() as int) =~= ts@);
        out
    }

    /// The configured MacMahon thresholds (empty under ELO pairing).
    pub fn macmahon_thresholds(&self) -> (r: &[MacMahonThreshold])
        ensures
            r@ == thresholds_of(*self),
    {
        match &self.pairing {
            PairingMode::Swiss { macmahon, .. } => macmahon.thresholds.as_slice(),
            PairingMode::Elo { .. } => {
                let e: &[MacMahonThreshold] = &[];
                assert(e@ =~= Seq::<MacMahonThreshold>::empty());
                e
            },
        }
    }

    /// Which player each score group sends up as its ascending floater.
    pub fn floater_style(&self) -> (r: FloaterStyle)
        ensures
            r == floater_style_of(*self),
    {
        match &self.pairing {
            PairingMode::Swiss { floater_style, .. } => *floater_style,
            PairingMode::Elo { .. } => FloaterStyle::Classic,
        }
    }

    /// The live-estimate config, if an estimate is maintained.
    fn estimator(&self) -> (r: Option<&EloEstimator>)
        ensures
            r matches Some(e) ==> estimator_of(*self) == Some(*e),
            r is None ==> estimator_of(*self) is None,
            r is Some <==> (self.pairing is Elo || (self.pairing matches PairingMode::Swiss {
                macmahon,
                ..
            } && macmahon.source is FromEstimate)),
    {
        match &self.pairing {
            PairingMode::Elo { estimator } => Some(estimator),
            PairingMode::Swiss { macmahon, .. } => match &macmahon.source {
                MacMahonSource::FromEstimate { estimator } => Some(estimator),
                MacMahonSource::Static => None,
            },
        }
    }

    /// The MacMahon starting points once `rounds_played` rounds are complete:
    /// the number of effective thresholds the rating or grade meets.
    pub fn macmahon_points_at(
        &self,
        rating: Option<u32>,
        grade: Option<Grade>,
        rounds_played: u32,
    ) -> (r: u32)
        ensures
            r == macmahon_points_spec(*self, rating, grade, rounds_played) as u32,
    {
        let cs = self.effective_macmahon_thresholds(rounds_played);
        let mut n: usize = 0;
        let mut i: usize = 0;
        while i < cs.len()
            invariant
                i <= cs@.len(),
                n == count_met(cs@.subrange(0, i as int), rating, grade),
                n <= i,
            decreases cs@.len() - i,
        {
            let ghost sub = cs@.subrange(0, i as int + 1);
            assert(sub.drop_last() =~= cs@.subrange(0, i as int));
            assert(sub.last() == cs@[i as int]);
            if cs[i].met_by(rating, grade) {
                n += 1;
            }
            i += 1;
        }
        assert(cs@.subrange(0, cs@.len() as int) =~= cs@);
        n as u32
    }

    /// The canonical form of a club name: trimmed and lower-cased.
    pub fn normalize_club(club: &str) -> (r: String)
        ensures
            r@ == lowercase(trim(club@)),
    {
        crate::text::trim_lower(club)
    }

    /// The canonical form of a nationality: trimmed and lower-cased.
    pub fn normalize_nationality(nationality: &str) -> (r: String)
        ensures
            r@ == lowercase(trim(nationality@)),
    {
        crate::text::trim_lower(nationality)
    }

    /// The ids of every currently-defined category, in order.
    pub fn category_ids(&self) -> (r: Vec<Uuid>)
        ensures
            r@.len() == self.categories@.len(),
            forall|i: int| 0 <= i < r@.len() ==> r@[i] == #[trigger] self.categories@[i].id,
    {
        let mut out: Vec<Uuid> = Vec::new();
        let mut i: usize = 0;
        while i < self.categories.len()
            invariant
                i <= self.categories@.len(),
                out@.len() == i,
                forall|j: int| 0 <= j < i ==> out@[j] == #[trigger] self.categories@[j].id,
            decreases self.categories@.len() - i,
        {
            out.push(self.categories[i].id);
            i += 1;
        }
        out
    }

    /// Whether club protection applies to the given (1-based) round.
    pub fn club_protection_active(&self, round: u32) -> (r: bool)
        ensures
            r == club_active(*self, round),
    {
        match &self.pairing {
            PairingMode::Swiss { club_protection, .. } => club_protection.active(round),
            PairingMode::Elo { .. } => false,
        }
    }

    /// Whether nationality protection applies to the given (1-based) round.
    pub fn nationality_protection_active(&self, round: u32) -> (r: bool)
        ensures
            r == nationality_active(*self, round),
    {
        match &self.pairing {
            PairingMode::Swiss { nationality_protection, .. } => nationality_protection.active(
                round,
            ),
            PairingMode::Elo { .. } => false,
        }
    }

    /// Whether the "Wiel" rule is in effect.
    pub fn handicap_wiel_rule(&self) -> (r: bool)
        ensures
            r == wiel_of(self.handicap_policy),
    {
        self.handicap_policy.wiel_rule()
    }

    /// Whether "airtight groups" applies to the given (1-based) round.
    pub fn airtight_groups_active(&self, round: u32) -> (r: bool)
        ensures
            r == airtight_active(*self, round),
    {
        match &self.pairing {
            PairingMode::Swiss { airtight_groups, .. } => match airtight_groups {
                Some(n) => round <= n.get(),
                None => false,
            },
            PairingMode::Elo { .. } => false,
        }
    }

    pub fn team_mode(&self) -> (r: bool)
        ensures
            r == self.teams is Some,
    {
        self.teams.is_some()
    }

    /// Players per team, or 1 outside team mode.
    pub fn team_size(&self) -> (r: u32)
        ensures
            r == (match self.teams {
                Some(t) => t.size,
                None => 1,
            }),
    {
        match self.teams {
            Some(t) => t.size,
            None => 1,
        }
    }

    /// The first feature these settings enable that team mode cannot support.
    #[verifier::loop_isolation(false)]
    pub fn team_mode_conflict(&self) -> (r: Option<TeamModeConflict>)
        ensures
            r == team_conflict_of(*self),
    {
        if !self.team_mode() {
            return None;
        }
        if self.cup_enabled {
            return Some(TeamModeConflict::Cup);
        }
        if self.long_boards_enabled {
            return Some(TeamModeConflict::LongGames);
        }
        match &self.pairing {
            PairingMode::Elo { .. } => return Some(TeamModeConflict::EloPairing),
            PairingMode::Swiss { macmahon, .. } => {
                let ts = &macmahon.thresholds;
                let mut i: usize = 0;
                while i < ts.len()
                    invariant
                        i <= ts@.len(),
                        forall|j: int| 0 <= j < i ==> !(#[trigger] ts@[j].criterion is Grade),
                    decreases ts@.len() - i,
                {
                    if let ThresholdCriterion::Grade { .. } = ts[i].criterion {
                        assert(has_grade_threshold(thresholds_of(*self))) by {
                            assert(ts@[i as int].criterion is Grade);
                        }
                        return Some(TeamModeConflict::GradeThresholds);
                    }
                    i += 1;
                }
                assert(!has_grade_threshold(thresholds_of(*self)));
            },
        }
        let mut i: usize = 0;
        while i < self.tiebreaks.len()
            invariant
                i <= self.tiebreaks@.len(),
                forall|j: int| 0 <= j < i ==> #[trigger] self.tiebreaks@[j] != Tiebreak::EstElo,
            decreases self.tiebreaks@.len() - i,
        {
            if self.tiebreaks[i] == Tiebreak::EstElo {
                assert(self.tiebreaks@.contains(Tiebreak::EstElo)) by {
                    assert(self.tiebreaks@[i as int] == Tiebreak::EstElo);
                }
                return Some(TeamModeConflict::EstEloTiebreak);
            }
            i += 1;
        }
        None
    }

    /// Whether MacMahon starting points are actually in use.
    pub fn macmahon_in_use(&self) -> (r: bool)
        ensures
            r == (thresholds_of(*self).len() > 0),
    {
        match &self.pairing {
            PairingMode::Swiss { macmahon, .. } => macmahon.thresholds.len() > 0,
            PairingMode::Elo { .. } => false,
        }
    }

    /// The exempt clubs in canonical (normalized) form.
    pub fn exempt_clubs_normalized(&self) -> (r: Vec<String>)
        ensures
            views(r@) == exempt_clubs_of(*self),
    {
        match &self.pairing {
            PairingMode::Swiss { club_protection, .. } => club_protection.exempt_normalized(),
            PairingMode::Elo { .. } => {
                let v: Vec<String> = Vec::new();
                assert(views(v@) =~= Seq::empty());
                v
            },
        }
    }

    /// The exempt nationalities in canonical (normalized) form.
    pub fn exempt_nationalities_normalized(&self) -> (r: Vec<String>)
        ensures
            views(r@) == exempt_nationalities_of(*self),
    {
        match &self.pairing {
            PairingMode::Swiss { nationality_protection, .. } => nationality_protection
                .exempt_normalized(),
            PairingMode::Elo { .. } => {
                let v: Vec<String> = Vec::new();
                assert(views(v@) =~= Seq::empty());
                v
            },
        }
    }

    /// Whether a live ELO estimate is needed for pairing (ELO pairing mode).
    pub fn elo_estimate_needed(&self) -> (r: bool)
        ensures
            r == self.pairing is Elo,
    {
        matches!(self.pairing, PairingMode::Elo { .. })
    }

    /// Whether MacMahon starting points are drawn from the live estimate.
    #[verifier::loop_isolation(false)]
    pub fn macmahon_from_estimate_active(&self) -> (r: bool)
        ensures
            r == mm_from_estimate(*self),
    {
        match &self.pairing {
            PairingMode::Swiss { macmahon, .. } => {
                if let MacMahonSource::Static = macmahon.source {
                    return false;
                }
                let ts = &macmahon.thresholds;
                let mut i: usize = 0;
                while i < ts.len()
                    invariant
                        i <= ts@.len(),
                        forall|j: int| 0 <= j < i ==> !(#[trigger] ts@[j].criterion is Elo),
                    decreases ts@.len() - i,
                {
                    if let ThresholdCriterion::Elo { .. } = ts[i].criterion {
                        assert(has_elo_threshold(ts@)) by {
                            assert(ts@[i as int].criterion is Elo);
                        }
                        return true;
                    }
                    i += 1;
                }
                false
            },
            PairingMode::Elo { .. } => false,
        }
    }

    /// Whether rated players are pinned to their registration rating (a live
    /// estimate with a zero K multiplier), so only unrated ones are estimated.
    pub fn elo_estimate_rated_pinned(&self) -> (r: bool)
        ensures
            r == rated_pinned(*self),
    {
        if !self.elo_estimate_live() {
            return false;
        }
        match self.estimator() {
            Some(e) => e.k_multiplier.0 == 0,
            None => false,
        }
    }

    /// Whether the estimated ELO ranks: ELO pairing, with rated players
    /// actually estimated.
    pub fn est_elo_ranks(&self) -> (r: bool)
        ensures
            r == (self.pairing is Elo && !rated_pinned(*self)),
    {
        self.elo_estimate_needed() && !self.elo_estimate_rated_pinned()
    }

    /// Whether a live ELO estimate is maintained at all.
    pub fn elo_estimate_live(&self) -> (r: bool)
        ensures
            r == (self.pairing is Elo || mm_from_estimate(*self)),
    {
        self.elo_estimate_needed() || self.macmahon_from_estimate_active()
    }
}

/// A threshold with a zero drop round read as "never drops" (it could not take
/// effect before round 1 anyway).
pub open spec fn canon_threshold(t: MacMahonThreshold) -> MacMahonThreshold {
    if t.drops_after_round == Some(0u32) {
        MacMahonThreshold { criterion: t.criterion, drops_after_round: None }
    } else {
        t
    }
}

/// Whether criterion `a` sorts no later than `b`: ELO ones by value first,
/// then grade ones by strength.
pub open spec fn key_le(a: ThresholdCriterion, b: ThresholdCriterion) -> bool {
    criterion_key(a).0 < criterion_key(b).0 || (criterion_key(a).0 == criterion_key(b).0
        && criterion_key(a).1 <= criterion_key(b).1)
}

/// `x` placed into `s` just before the trailing entries that sort strictly
/// after it: the insertion step of a stable sort.
pub open spec fn insert_by_key(s: Seq<MacMahonThreshold>, x: MacMahonThreshold) -> Seq<
    MacMahonThreshold,
>
    decreases s.len(),
{
    if s.len() == 0 || key_le(s.last().criterion, x.criterion) {
        s.push(x)
    } else {
        insert_by_key(s.drop_last(), x).push(s.last())
    }
}

/// `s` stably sorted by criterion key.
pub open spec fn sort_by_key(s: Seq<MacMahonThreshold>) -> Seq<MacMahonThreshold>
    decreases s.len(),
{
    if s.len() == 0 {
        s
    } else {
        insert_by_key(sort_by_key(s.drop_last()), s.last())
    }
}

/// `s` with every run of entries sharing a criterion cut down to its first.
pub open spec fn dedup_criteria(s: Seq<MacMahonThreshold>) -> Seq<MacMahonThreshold>
    decreases s.len(),
{
    if s.len() == 0 {
        s
    } else {
        let d = dedup_criteria(s.drop_last());
        if d.len() > 0 && d.last().criterion == s.last().criterion {
            d
        } else {
            d.push(s.last())
        }
    }
}

/// Each threshold with its zero drop round cleared.
pub open spec fn canon_thresholds(ts: Seq<MacMahonThreshold>) -> Seq<MacMahonThreshold> {
    ts.map_values(|t: MacMahonThreshold| canon_threshold(t))
}

/// The canonical threshold list: zero drop rounds cleared, stably sorted by
/// criterion, repeated criteria dropped keeping the first.
pub open spec fn normalized_thresholds(ts: Seq<MacMahonThreshold>) -> Seq<MacMahonThreshold> {
    dedup_criteria(sort_by_key(canon_thresholds(ts)))
}

/// Whether `s` is in canonical criterion order.
pub open spec fn ascending_by_key(s: Seq<MacMahonThreshold>) -> bool {
    forall|i: int, j: int| 0 <= i < j < s.len() ==> key_le(#[trigger] s[i].criterion, #[trigger] s[j].criterion)
}

proof fn lemma_key_le_total(a: ThresholdCriterion, b: ThresholdCriterion, c: ThresholdCriterion)
    ensures
        key_le(a, a),
        key_le(a, b) || key_le(b, a),
        key_le(a, b) && key_le(b, c) ==> key_le(a, c),
{
}

/// Inserting at the position past every entry that sorts no later than `x`.
proof fn lemma_insert_at(s: Seq<MacMahonThreshold>, x: MacMahonThreshold, p: int)
    requires
        0 <= p <= s.len(),
        p == 0 || key_le(s[p - 1].criterion, x.criterion),
        forall|j: int| p <= j < s.len() ==> !key_le(#[trigger] s[j].criterion, x.criterion),
    ensures
        insert_by_key(s, x) == s.insert(p, x),
    decreases s.len(),
{
    if s.len() == 0 {
        assert(s.insert(p, x) =~= s.push(x));
    } else if key_le(s.last().criterion, x.criterion) {
        assert(p == s.len());
        assert(s.insert(p, x) =~= s.push(x));
    } else {
        assert(p < s.len());
        let d = s.drop_last();
        assert forall|j: int| p <= j < d.len() implies !key_le(#[trigger] d[j].criterion, x.criterion) by {
            assert(d[j] == s[j]);
        }
        lemma_insert_at(d, x, p);
        assert(d.insert(p, x).push(s.last()) =~= s.insert(p, x));
    }
}

/// Whether criterion `a` sorts no later than `b`.
fn criterion_le(a: ThresholdCriterion, b: ThresholdCriterion) -> (r: bool)
    ensures
        r == key_le(a, b),
{
    let ka = a.sort_key();
    let kb = b.sort_key();
    ka.0 < kb.0 || (ka.0 == kb.0 && ka.1 <= kb.1)
}

/// Where the stable insertion of `x` into `s` puts it.
fn insert_position(s: &Vec<MacMahonThreshold>, x: MacMahonThreshold) -> (p: usize)
    ensures
        p <= s@.len(),
        p == 0 || key_le(s@[p - 1].criterion, x.criterion),
        forall|j: int| p <= j < s@.len() ==> !key_le(#[trigger] s@[j].criterion, x.criterion),
{
    let mut p: usize = s.len();
    while p > 0
        invariant
            p <= s@.len(),
            forall|j: int| p <= j < s@.len() ==> !key_le(#[trigger] s@[j].criterion, x.criterion),
        decreases p,
    {
        if criterion_le(s[p - 1].criterion, x.criterion) {
            return p;
        }
        p -= 1;
    }
    p
}


/// Inserting at the stable position keeps an ordered list ordered.
proof fn lemma_insert_ascending(s: Seq<MacMahonThreshold>, x: MacMahonThreshold, p: int)
    requires
        ascending_by_key(s),
        0 <= p <= s.len(),
        p == 0 || key_le(s[p - 1].criterion, x.criterion),
        forall|j: int| p <= j < s.len() ==> !key_le(#[trigger] s[j].criterion, x.criterion),
    ensures
        ascending_by_key(s.insert(p, x)),
{
    let r = s.insert(p, x);
    assert forall|i: int, j: int| 0 <= i < j < r.len() implies key_le(
        #[trigger] r[i].criterion,
        #[trigger] r[j].criterion,
    ) by {
        if i == p {
            assert(r[j] == s[j - 1]);
            lemma_key_le_total(x.criterion, s[j - 1].criterion, x.criterion);
        } else if j == p {
            assert(r[i] == s[i]);
            lemma_key_le_total(s[i].criterion, s[p - 1].criterion, x.criterion);
            if i < p - 1 {
                assert(key_le(s[i].criterion, s[p - 1].criterion));
            }
        } else if j < p {
            assert(r[i] == s[i] && r[j] == s[j]);
        } else if i < p {
            assert(r[i] == s[i] && r[j] == s[j - 1]);
        } else {
            assert(r[i] == s[i - 1] && r[j] == s[j - 1]);
        }
    }
}

/// Each threshold with its zero drop round cleared.
fn canon_all(thresholds: &Vec<MacMahonThreshold>) -> (r: Vec<MacMahonThreshold>)
    ensures
        r@ == canon_thresholds(thresholds@),
{
    let mut out: Vec<MacMahonThreshold> = Vec::new();
    let mut i: usize = 0;
    while i < thresholds.len()
        invariant
            i <= thresholds@.len(),
            out@ == canon_thresholds(thresholds@).take(i as int),
        decreases thresholds@.len() - i,
    {
        let t = thresholds[i];
        let c = match t.drops_after_round {
            Some(0) => MacMahonThreshold { criterion: t.criterion, drops_after_round: None },
            _ => t,
        };
        out.push(c);
        assert(out@ =~= canon_thresholds(thresholds@).take(i as int + 1));
        i += 1;
    }
    assert(out@ =~= canon_thresholds(thresholds@));
    out
}

/// `cs` stably sorted by criterion key.
fn sort_thresholds(cs: &Vec<MacMahonThreshold>) -> (r: Vec<MacMahonThreshold>)
    ensures
        r@ == sort_by_key(cs@),
        ascending_by_key(r@),
        r@.to_multiset() == cs@.to_multiset(),
{
    let mut sorted: Vec<MacMahonThreshold> = Vec::new();
    let mut i: usize = 0;
    proof {
        assert(cs@.take(0) =~= Seq::<MacMahonThreshold>::empty());
        assert(sorted@ =~= Seq::<MacMahonThreshold>::empty());
    }
    while i < cs.len()
        invariant
            i <= cs@.len(),
            sorted@ == sort_by_key(cs@.take(i as int)),
            ascending_by_key(sorted@),
            sorted@.to_multiset() == cs@.take(i as int).to_multiset(),
        decreases cs@.len() - i,
    {
        let c = cs[i];
        let p = insert_position(&sorted, c);
        let ghost before = sorted@;
        proof {
            lemma_insert_at(before, c, p as int);
            lemma_insert_ascending(before, c, p as int);
            let next = cs@.take(i as int + 1);
            assert(next.drop_last() =~= cs@.take(i as int));
            assert(next =~= cs@.take(i as int).push(c));
            vstd::seq_lib::to_multiset_build(cs@.take(i as int), c);
            vstd::seq_lib::to_multiset_insert(before, p as int, c);
        }
        sorted.insert(p, c);
        i += 1;
    }
    proof {
        assert(cs@.take(cs@.len() as int) =~= cs@);
    }
    sorted
}

/// `sorted` with each run of entries sharing a criterion cut to its first.
fn dedup_thresholds(sorted: &Vec<MacMahonThreshold>) -> (r: Vec<MacMahonThreshold>)
    requires
        ascending_by_key(sorted@),
    ensures
        r@ == dedup_criteria(sorted@),
        ascending_by_key(r@),
        forall|m: int| 0 < m < r@.len() ==> (#[trigger] r@[m]).criterion != r@[m - 1].criterion,
        forall|j: int| 0 <= j < sorted@.len() ==> exists|m: int| 0 <= m < r@.len()
            && r@[m].criterion == (#[trigger] sorted@[j]).criterion,
{
    let mut out: Vec<MacMahonThreshold> = Vec::new();
    let mut k: usize = 0;
    proof {
        assert(sorted@.take(0) =~= Seq::<MacMahonThreshold>::empty());
        assert(out@ =~= Seq::<MacMahonThreshold>::empty());
    }
    while k < sorted.len()
        invariant
            k <= sorted@.len(),
            ascending_by_key(sorted@),
            out@ == dedup_criteria(sorted@.take(k as int)),
            ascending_by_key(out@),
            forall|m: int| 0 < m < out@.len() ==> (#[trigger] out@[m]).criterion != out@[m - 1].criterion,
            forall|m: int, j: int| 0 <= m < out@.len() && k <= j < sorted@.len() ==> key_le(
                #[trigger] out@[m].criterion,
                #[trigger] sorted@[j].criterion,
            ),
            forall|j: int| 0 <= j < k ==> exists|m: int| 0 <= m < out@.len()
                && out@[m].criterion == (#[trigger] sorted@[j]).criterion,
        decreases sorted@.len() - k,
    {
        proof {
            let next = sorted@.take(k as int + 1);
            assert(next.drop_last() =~= sorted@.take(k as int));
            assert(next.last() == sorted@[k as int]);
        }
        let n = out.len();
        if n > 0 && out[n - 1].criterion == sorted[k].criterion {
            assert(out@[n - 1].criterion == sorted@[k as int].criterion);
        } else {
            let x = sorted[k];
            let ghost before = out@;
            out.push(x);
            proof {
                assert forall|m: int, j: int| 0 <= m < out@.len() && k + 1 <= j < sorted@.len()
                    implies key_le(#[trigger] out@[m].criterion, #[trigger] sorted@[j].criterion) by {
                    if m < before.len() {
                        assert(out@[m] == before[m]);
                        assert(key_le(before[m].criterion, sorted@[j].criterion));
                    } else {
                        assert(key_le(sorted@[k as int].criterion, sorted@[j].criterion));
                    }
                }
                assert forall|a: int, b: int| 0 <= a < b < out@.len() implies key_le(
                    #[trigger] out@[a].criterion,
                    #[trigger] out@[b].criterion,
                ) by {
                    assert(out@[a] == before[a]);
                    if b < before.len() {
                        assert(out@[b] == before[b]);
                    } else {
                        assert(key_le(before[a].criterion, sorted@[k as int].criterion));
                    }
                }
                assert forall|j: int| 0 <= j < k + 1 implies exists|m: int| 0 <= m < out@.len()
                    && out@[m].criterion == (#[trigger] sorted@[j]).criterion by {
                    if j < k {
                        let m = choose|m: int| 0 <= m < before.len() && before[m].criterion == sorted@[j].criterion;
                        assert(out@[m] == before[m]);
                    } else {
                        assert(out@[n as int] == sorted@[k as int]);
                    }
                }
            }
        }
        k += 1;
    }
    proof {
        assert(sorted@.take(sorted@.len() as int) =~= sorted@);
    }
    out
}

impl TournamentSettings {
    /// Sort thresholds (ELO ones by value, then grade ones by strength, keeping
    /// the entry order among equal keys) and drop a threshold whose criterion
    /// repeats the one before it, keeping the first. A `drops_after_round` of 0
    /// is normalized to `None`.
    pub fn normalize_thresholds(thresholds: Vec<MacMahonThreshold>) -> (r: Vec<MacMahonThreshold>)
        ensures
            r@ == normalized_thresholds(thresholds@),
            ascending_by_key(r@),
            forall|k: int| 0 < k < r@.len() ==> (#[trigger] r@[k]).criterion != r@[k - 1].criterion,
            forall|j: int| 0 <= j < thresholds@.len() ==> exists|k: int| 0 <= k < r@.len()
                && r@[k].criterion == (#[trigger] thresholds@[j]).criterion,
    {
        let cs = canon_all(&thresholds);
        let sorted = sort_thresholds(&cs);
        let out = dedup_thresholds(&sorted);
        proof {
            assert forall|j: int| 0 <= j < thresholds@.len() implies exists|m: int| 0 <= m < out@.len()
                && out@[m].criterion == (#[trigger] thresholds@[j]).criterion by {
                broadcast use vstd::seq_lib::group_to_multiset_ensures;
                assert(cs@[j] == canon_threshold(thresholds@[j]));
                assert(cs@.contains(cs@[j]));
                assert(sorted@.to_multiset().count(cs@[j]) > 0);
                assert(sorted@.contains(cs@[j]));
                let q = choose|q: int| 0 <= q < sorted@.len() && sorted@[q] == cs@[j];
                assert(sorted@[q].criterion == thresholds@[j].criterion);
            }
        }
        out
    }
}

/// Club protection after normalization: the exempt list in canonical form.
pub open spec fn club_normalized(a: ClubProtection, b: ClubProtection) -> bool {
    match a {
        ClubProtection::Off => b is Off,
        ClubProtection::On { rounds, exempt_clubs } => (b matches ClubProtection::On {
            rounds: r2,
            exempt_clubs: e2,
        } && r2 == rounds && views(e2@) == exempt_list_of(views(exempt_clubs@))),
    }
}

/// Nationality protection after normalization: the exempt list in canonical
/// form.
pub open spec fn nationality_normalized(a: NationalityProtection, b: NationalityProtection) -> bool {
    match a {
        NationalityProtection::Off => b is Off,
        NationalityProtection::On { rounds, exempt_nationalities } => (b matches NationalityProtection::On {
            rounds: r2,
            exempt_nationalities: e2,
        } && r2 == rounds && views(e2@) == exempt_list_of(views(exempt_nationalities@))),
    }
}

/// The pairing configuration after normalization: thresholds canonical, the
/// airtight window dropped when no threshold is left, exempt lists canonical;
/// ELO pairing unchanged.
pub open spec fn pairing_normalized(a: PairingMode, b: PairingMode) -> bool {
    match a {
        PairingMode::Elo { estimator } => b == PairingMode::Elo { estimator },
        PairingMode::Swiss {
            floater_style,
            airtight_groups,
            club_protection,
            nationality_protection,
            macmahon,
        } => {
            let ts = normalized_thresholds(macmahon.thresholds@);
            &&& b matches PairingMode::Swiss {
                floater_style: f2,
                airtight_groups: a2,
                club_protection: c2,
                nationality_protection: n2,
                macmahon: m2,
            }
            &&& b->floater_style == floater_style
            &&& b->airtight_groups == (if ts.len() == 0 {
                None
            } else {
                airtight_groups
            })
            &&& club_normalized(club_protection, b->club_protection)
            &&& nationality_normalized(nationality_protection, b->nationality_protection)
            &&& b->macmahon.thresholds@ == ts
            &&& b->macmahon.source == macmahon.source
        },
    }
}

/// The tie-break order kept: the first occurrence of each, without the
/// estimated-ELO one when `drop_est` and without board wins when `drop_board`.
pub open spec fn kept_tiebreaks(tbs: Seq<Tiebreak>, drop_est: bool, drop_board: bool) -> Seq<Tiebreak>
    decreases tbs.len(),
{
    if tbs.len() == 0 {
        tbs
    } else {
        let kept = kept_tiebreaks(tbs.drop_last(), drop_est, drop_board);
        let t = tbs.last();
        if kept.contains(t) || (drop_est && t == Tiebreak::EstElo) || (drop_board && t
            == Tiebreak::BoardWins) {
            kept
        } else {
            kept.push(t)
        }
    }
}

/// The characters of an optional text.
pub open spec fn opt_chars(f: Option<String>) -> Option<Seq<char>> {
    match f {
        None => None,
        Some(s) => Some(s@),
    }
}

/// A free-text header field after normalization: trimmed, blank means unset.
pub open spec fn header_of(f: Option<String>) -> Option<Seq<char>> {
    match f {
        None => None,
        Some(s) => if trim(s@).len() == 0 {
            None
        } else {
            Some(trim(s@))
        },
    }
}

/// Each category as its id and name.
pub open spec fn category_views(cs: Seq<PlayerCategory>) -> Seq<(Uuid, Seq<char>)> {
    cs.map_values(|c: PlayerCategory| (c.id, c.name@))
}

/// The categories kept: names trimmed, blank-named ones dropped, the first of
/// a repeated id kept, entry order otherwise preserved.
pub open spec fn kept_categories(cs: Seq<PlayerCategory>) -> Seq<(Uuid, Seq<char>)>
    decreases cs.len(),
{
    if cs.len() == 0 {
        Seq::empty()
    } else {
        let kept = kept_categories(cs.drop_last());
        let c = cs.last();
        let name = trim(c.name@);
        if name.len() == 0 || exists|k: int| 0 <= k < kept.len() && (#[trigger] kept[k]).0 == c.id {
            kept
        } else {
            kept.push((c.id, name))
        }
    }
}

/// The tie-break order with repeats and the inapplicable metrics dropped.
fn keep_tiebreaks(tbs: &Vec<Tiebreak>, drop_est: bool, drop_board: bool) -> (r: Vec<Tiebreak>)
    ensures
        r@ == kept_tiebreaks(tbs@, drop_est, drop_board),
{
    let mut out: Vec<Tiebreak> = Vec::new();
    let mut i: usize = 0;
    while i < tbs.len()
        invariant
            i <= tbs@.len(),
            out@ == kept_tiebreaks(tbs@.take(i as int), drop_est, drop_board),
        decreases tbs@.len() - i,
    {
        let t = tbs[i];
        proof {
            let next = tbs@.take(i as int + 1);
            assert(next.drop_last() =~= tbs@.take(i as int));
            assert(next.last() == t);
        }
        let mut seen = false;
        let mut j: usize = 0;
        while j < out.len()
            invariant
                j <= out@.len(),
                seen == exists|k: int| 0 <= k < j && out@[k] == t,
            decreases out@.len() - j,
        {
            if out[j] == t {
                seen = true;
            }
            j += 1;
        }
        assert(seen == out@.contains(t));
        let dropped = (drop_est && t == Tiebreak::EstElo) || (drop_board && t == Tiebreak::BoardWins);
        if !seen && !dropped {
            out.push(t);
        }
        i += 1;
    }
    assert(tbs@.take(tbs@.len() as int) =~= tbs@);
    out
}

/// A header field trimmed, or unset when blank.
fn header_field(f: Option<String>) -> (r: Option<String>)
    ensures
        opt_chars(r) == header_of(f),
{
    match f {
        None => None,
        Some(s) => {
            let t = crate::text::trimmed(s.as_str());
            if t.as_str().is_empty() {
                None
            } else {
                Some(t)
            }
        },
    }
}

/// The categories with names trimmed, blank-named and repeated-id ones dropped.
fn keep_categories(cs: &Vec<PlayerCategory>) -> (r: Vec<PlayerCategory>)
    ensures
        category_views(r@) == kept_categories(cs@),
{
    let mut out: Vec<PlayerCategory> = Vec::new();
    let mut i: usize = 0;
    while i < cs.len()
        invariant
            i <= cs@.len(),
            category_views(out@) == kept_categories(cs@.take(i as int)),
        decreases cs@.len() - i,
    {
        let c = &cs[i];
        proof {
            let next = cs@.take(i as int + 1);
            assert(next.drop_last() =~= cs@.take(i as int));
            assert(next.last() == *c);
        }
        let name = crate::text::trimmed(c.name.as_str());
        let mut seen = false;
        let mut j: usize = 0;
        while j < out.len()
            invariant
                j <= out@.len(),
                category_views(out@) == kept_categories(cs@.take(i as int)),
                seen == exists|k: int| 0 <= k < j && (#[trigger] category_views(out@)[k]).0 == c.id,
            decreases out@.len() - j,
        {
            if crate::ids::id_eq(&out[j].id, &c.id) {
                seen = true;
            }
            assert(category_views(out@)[j as int] == (out@[j as int].id, out@[j as int].name@));
            j += 1;
        }
        if !name.as_str().is_empty() && !seen {
            let id = c.id.clone();
            let ghost before = out@;
            out.push(PlayerCategory { id, name });
            assert(category_views(out@) =~= category_views(before).push((c.id, trim(c.name@))));
        }
        i += 1;
    }
    assert(cs@.take(cs@.len() as int) =~= cs@);
    out
}

impl TournamentSettings {
    /// These settings in canonical form: thresholds sorted and de-duplicated
    /// (a zero drop round read as none), the airtight-groups window dropped
    /// when no threshold is left, exempt clubs / nationalities trimmed,
    /// blank-dropped and de-duplicated case-insensitively, tie-breaks
    /// de-duplicated keeping the first (the estimated-ELO one only kept while
    /// it ranks, board wins only in team mode), header texts trimmed with a
    /// blank one unset, and categories trimmed, blank-named ones dropped and
    /// the first of a repeated id kept.
    pub fn normalized(self) -> (r: Self)
        ensures
            normalizes_to(self, r),
            pairing_normalized(self.pairing, r.pairing),
            r.tiebreaks@ == kept_tiebreaks(
                self.tiebreaks@,
                !(self.pairing is Elo && !rated_pinned(self)),
                self.teams is None,
            ),
            opt_chars(r.city) == header_of(self.city),
            opt_chars(r.country) == header_of(self.country),
            opt_chars(r.time_control) == header_of(self.time_control),
            category_views(r.categories@) == kept_categories(self.categories@),
            r.dates == self.dates,
            r.cup_enabled == self.cup_enabled,
            r.cup_format == self.cup_format,
            r.long_boards_enabled == self.long_boards_enabled,
            r.handicap_policy == self.handicap_policy,
            r.half_point_absences == self.half_point_absences,
            r.teams == self.teams,
    {
        let drop_est = !self.est_elo_ranks();
        let drop_board = self.teams.is_none();
        let tiebreaks = keep_tiebreaks(&self.tiebreaks, drop_est, drop_board);
        let categories = keep_categories(&self.categories);
        let TournamentSettings {
            city,
            country,
            dates,
            time_control,
            pairing,
            cup_enabled,
            cup_format,
            long_boards_enabled,
            handicap_policy,
            half_point_absences,
            tiebreaks: _,
            categories: _,
            teams,
        } = self;
        let pairing = match pairing {
            PairingMode::Swiss {
                floater_style,
                airtight_groups,
                club_protection,
                nationality_protection,
                macmahon,
            } => {
                let MacMahon { thresholds, source } = macmahon;
                let thresholds = Self::normalize_thresholds(thresholds);
                let airtight_groups = if thresholds.len() == 0 {
                    None
                } else {
                    airtight_groups
                };
                let club_protection = match club_protection {
                    ClubProtection::Off => ClubProtection::Off,
                    ClubProtection::On { rounds, exempt_clubs } => ClubProtection::On {
                        rounds,
                        exempt_clubs: normalize_exempt_list(exempt_clubs),
                    },
                };
                let nationality_protection = match nationality_protection {
                    NationalityProtection::Off => NationalityProtection::Off,
                    NationalityProtection::On { rounds, exempt_nationalities } => {
                        NationalityProtection::On {
                            rounds,
                            exempt_nationalities: normalize_exempt_list(exempt_nationalities),
                        }
                    },
                };
                PairingMode::Swiss {
                    floater_style,
                    airtight_groups,
                    club_protection,
                    nationality_protection,
                    macmahon: MacMahon { thresholds, source },
                }
            },
            PairingMode::Elo { estimator } => PairingMode::Elo { estimator },
        };
        TournamentSettings {
            city: header_field(city),
            country: header_field(country),
            dates,
            time_control: header_field(time_control),
            pairing,
            cup_enabled,
            cup_format,
            long_boards_enabled,
            handicap_policy,
            half_point_absences,
            tiebreaks,
            categories,
            teams,
        }
    }
}

/// Where the stable insertion of `x` into `s` puts it: past every trailing
/// entry that sorts strictly after it.
pub open spec fn insert_spot(s: Seq<MacMahonThreshold>, x: MacMahonThreshold) -> int
    decreases s.len(),
{
    if s.len() == 0 || key_le(s.last().criterion, x.criterion) {
        s.len() as int
    } else {
        insert_spot(s.drop_last(), x)
    }
}

proof fn lemma_insert_spot(s: Seq<MacMahonThreshold>, x: MacMahonThreshold)
    ensures
        0 <= insert_spot(s, x) <= s.len(),
        insert_spot(s, x) == 0 || key_le(s[insert_spot(s, x) - 1].criterion, x.criterion),
        forall|j: int| insert_spot(s, x) <= j < s.len() ==> !key_le(#[trigger] s[j].criterion, x.criterion),
    decreases s.len(),
{
    if s.len() > 0 && !key_le(s.last().criterion, x.criterion) {
        let d = s.drop_last();
        lemma_insert_spot(d, x);
        assert forall|j: int| insert_spot(s, x) <= j < s.len() implies !key_le(#[trigger] s[j].criterion, x.criterion) by {
            if j < d.len() {
                assert(s[j] == d[j]);
            }
        }
    }
}

/// The stable sort leaves entries in canonical order.
proof fn lemma_sort_ascending(s: Seq<MacMahonThreshold>)
    ensures
        ascending_by_key(sort_by_key(s)),
    decreases s.len(),
{
    if s.len() > 0 {
        let sd = sort_by_key(s.drop_last());
        lemma_sort_ascending(s.drop_last());
        lemma_insert_spot(sd, s.last());
        lemma_insert_at(sd, s.last(), insert_spot(sd, s.last()));
        lemma_insert_ascending(sd, s.last(), insert_spot(sd, s.last()));
    }
}

/// An ordered list is its own stable sort.
proof fn lemma_sort_of_sorted(s: Seq<MacMahonThreshold>)
    requires
        ascending_by_key(s),
    ensures
        sort_by_key(s) == s,
    decreases s.len(),
{
    if s.len() > 0 {
        let d = s.drop_last();
        assert(ascending_by_key(d)) by {
            assert forall|i: int, j: int| 0 <= i < j < d.len() implies key_le(
                #[trigger] d[i].criterion,
                #[trigger] d[j].criterion,
            ) by {
                assert(d[i] == s[i] && d[j] == s[j]);
            }
        }
        lemma_sort_of_sorted(d);
        if d.len() > 0 {
            assert(key_le(s[s.len() - 2].criterion, s[s.len() - 1].criterion));
        }
        assert(d.push(s.last()) =~= s);
    }
}

/// Dropping repeated neighbours keeps a bound every entry already met.
proof fn lemma_dedup_bounded(s: Seq<MacMahonThreshold>, c: ThresholdCriterion)
    requires
        forall|i: int| 0 <= i < s.len() ==> key_le(#[trigger] s[i].criterion, c),
    ensures
        forall|k: int| 0 <= k < dedup_criteria(s).len() ==> key_le(#[trigger] dedup_criteria(s)[k].criterion, c),
    decreases s.len(),
{
    if s.len() > 0 {
        let d = s.drop_last();
        assert forall|i: int| 0 <= i < d.len() implies key_le(#[trigger] d[i].criterion, c) by {
            assert(d[i] == s[i]);
        }
        lemma_dedup_bounded(d, c);
        let r = dedup_criteria(s);
        assert forall|k: int| 0 <= k < r.len() implies key_le(#[trigger] r[k].criterion, c) by {
            if k < dedup_criteria(d).len() {
                assert(r[k] == dedup_criteria(d)[k]);
            } else {
                assert(r[k] == s[s.len() - 1]);
            }
        }
    }
}

/// Dropping repeated neighbours keeps the order and leaves no two neighbours
/// alike.
proof fn lemma_dedup_shape(s: Seq<MacMahonThreshold>)
    ensures
        ascending_by_key(s) ==> ascending_by_key(dedup_criteria(s)),
        forall|k: int| 0 < k < dedup_criteria(s).len() ==> (#[trigger] dedup_criteria(s)[k]).criterion
            != dedup_criteria(s)[k - 1].criterion,
    decreases s.len(),
{
    if s.len() > 0 {
        let p = s.drop_last();
        let d = dedup_criteria(p);
        let r = dedup_criteria(s);
        lemma_dedup_shape(p);
        assert forall|k: int| 0 < k < r.len() implies (#[trigger] r[k]).criterion != r[k - 1].criterion by {
            assert(r[k - 1] == d[k - 1]);
            if k < d.len() {
                assert(r[k] == d[k]);
            }
        }
        if ascending_by_key(s) {
            assert(ascending_by_key(p)) by {
                assert forall|i: int, j: int| 0 <= i < j < p.len() implies key_le(
                    #[trigger] p[i].criterion,
                    #[trigger] p[j].criterion,
                ) by {
                    assert(p[i] == s[i] && p[j] == s[j]);
                }
            }
            assert forall|i: int| 0 <= i < p.len() implies key_le(#[trigger] p[i].criterion, s.last().criterion) by {
                assert(p[i] == s[i]);
            }
            lemma_dedup_bounded(p, s.last().criterion);
            assert forall|i: int, j: int| 0 <= i < j < r.len() implies key_le(
                #[trigger] r[i].criterion,
                #[trigger] r[j].criterion,
            ) by {
                assert(r[i] == d[i]);
                if j < d.len() {
                    assert(r[j] == d[j]);
                } else {
                    assert(r[j] == s.last());
                }
            }
        }
    }
}

/// A list with no two neighbours alike is its own de-duplication.
proof fn lemma_dedup_of_distinct(s: Seq<MacMahonThreshold>)
    requires
        forall|k: int| 0 < k < s.len() ==> (#[trigger] s[k]).criterion != s[k - 1].criterion,
    ensures
        dedup_criteria(s) == s,
    decreases s.len(),
{
    if s.len() > 0 {
        let d = s.drop_last();
        assert forall|k: int| 0 < k < d.len() implies (#[trigger] d[k]).criterion != d[k - 1].criterion by {
            assert(d[k] == s[k] && d[k - 1] == s[k - 1]);
        }
        lemma_dedup_of_distinct(d);
        if d.len() > 0 {
            assert(s[s.len() - 1].criterion != s[s.len() - 2].criterion);
        }
        assert(d.push(s.last()) =~= s);
    }
}

/// No entry of `s` has a zero drop round.
pub open spec fn no_zero_drop(s: Seq<MacMahonThreshold>) -> bool {
    forall|i: int| 0 <= i < s.len() ==> (#[trigger] s[i]).drops_after_round != Some(0u32)
}

proof fn lemma_insert_keeps(s: Seq<MacMahonThreshold>, x: MacMahonThreshold)
    requires
        no_zero_drop(s),
        x.drops_after_round != Some(0u32),
    ensures
        no_zero_drop(insert_by_key(s, x)),
    decreases s.len(),
{
    if s.len() > 0 && !key_le(s.last().criterion, x.criterion) {
        let d = s.drop_last();
        assert(no_zero_drop(d)) by {
            assert forall|i: int| 0 <= i < d.len() implies (#[trigger] d[i]).drops_after_round != Some(0u32) by {
                assert(d[i] == s[i]);
            }
        }
        lemma_insert_keeps(d, x);
        let r = insert_by_key(s, x);
        assert forall|i: int| 0 <= i < r.len() implies (#[trigger] r[i]).drops_after_round != Some(0u32) by {
            if i < r.len() - 1 {
                assert(r[i] == insert_by_key(d, x)[i]);
            }
        }
    } else {
        let r = insert_by_key(s, x);
        assert forall|i: int| 0 <= i < r.len() implies (#[trigger] r[i]).drops_after_round != Some(0u32) by {
            if i < s.len() {
                assert(r[i] == s[i]);
            }
        }
    }
}

proof fn lemma_sort_keeps(s: Seq<MacMahonThreshold>)
    requires
        no_zero_drop(s),
    ensures
        no_zero_drop(sort_by_key(s)),
    decreases s.len(),
{
    if s.len() > 0 {
        let d = s.drop_last();
        assert(no_zero_drop(d)) by {
            assert forall|i: int| 0 <= i < d.len() implies (#[trigger] d[i]).drops_after_round != Some(0u32) by {
                assert(d[i] == s[i]);
            }
        }
        lemma_sort_keeps(d);
        lemma_insert_keeps(sort_by_key(d), s.last());
    }
}

proof fn lemma_dedup_keeps(s: Seq<MacMahonThreshold>)
    requires
        no_zero_drop(s),
    ensures
        no_zero_drop(dedup_criteria(s)),
    decreases s.len(),
{
    if s.len() > 0 {
        let d = s.drop_last();
        assert(no_zero_drop(d)) by {
            assert forall|i: int| 0 <= i < d.len() implies (#[trigger] d[i]).drops_after_round != Some(0u32) by {
                assert(d[i] == s[i]);
            }
        }
        lemma_dedup_keeps(d);
        let r = dedup_criteria(s);
        assert forall|i: int| 0 <= i < r.len() implies (#[trigger] r[i]).drops_after_round != Some(0u32) by {
            if i < dedup_criteria(d).len() {
                assert(r[i] == dedup_criteria(d)[i]);
            } else {
                assert(r[i] == s[s.len() - 1]);
            }
        }
    }
}

/// Normalizing thresholds is idempotent: the canonical list is already in
/// canonical form, so normalizing it again changes nothing.
pub proof fn lemma_normalized_thresholds_idempotent(ts: Seq<MacMahonThreshold>)
    ensures
        normalized_thresholds(normalized_thresholds(ts)) == normalized_thresholds(ts),
{
    let cs = canon_thresholds(ts);
    let r = normalized_thresholds(ts);
    assert(no_zero_drop(cs));
    lemma_sort_keeps(cs);
    lemma_dedup_keeps(sort_by_key(cs));
    lemma_sort_ascending(cs);
    lemma_dedup_shape(sort_by_key(cs));
    assert(canon_thresholds(r) =~= r) by {
        assert forall|i: int| 0 <= i < r.len() implies canon_thresholds(r)[i] == r[i] by {
            assert(r[i].drops_after_round != Some(0u32));
        }
    }
    lemma_sort_of_sorted(r);
    lemma_dedup_of_distinct(r);
}

/// `t` is what normalizing `s` gives: the relation [`TournamentSettings::normalized`]
/// guarantees between its input and its result.
pub open spec fn normalizes_to(s: TournamentSettings, t: TournamentSettings) -> bool {
    &&& pairing_normalized(s.pairing, t.pairing)
    &&& t.tiebreaks@ == kept_tiebreaks(
        s.tiebreaks@,
        !(s.pairing is Elo && !rated_pinned(s)),
        s.teams is None,
    )
    &&& opt_chars(t.city) == header_of(s.city)
    &&& opt_chars(t.country) == header_of(s.country)
    &&& opt_chars(t.time_control) == header_of(s.time_control)
    &&& category_views(t.categories@) == kept_categories(s.categories@)
    &&& t.dates == s.dates
    &&& t.cup_enabled == s.cup_enabled
    &&& t.cup_format == s.cup_format
    &&& t.long_boards_enabled == s.long_boards_enabled
    &&& t.handicap_policy == s.handicap_policy
    &&& t.half_point_absences == s.half_point_absences
    &&& t.teams == s.teams
}

/// Two club protections agree up to the representation of their exempt lists.
pub open spec fn same_club(a: ClubProtection, b: ClubProtection) -> bool {
    match (a, b) {
        (ClubProtection::Off, ClubProtection::Off) => true,
        (ClubProtection::On { rounds: r1, exempt_clubs: e1 }, ClubProtection::On { rounds: r2, exempt_clubs: e2 }) => r1 == r2
            && views(e1@) == views(e2@),
        _ => false,
    }
}

/// Two nationality protections agree up to the representation of their
/// exempt lists.
pub open spec fn same_nationality(a: NationalityProtection, b: NationalityProtection) -> bool {
    match (a, b) {
        (NationalityProtection::Off, NationalityProtection::Off) => true,
        (
            NationalityProtection::On { rounds: r1, exempt_nationalities: e1 },
            NationalityProtection::On { rounds: r2, exempt_nationalities: e2 },
        ) => r1 == r2 && views(e1@) == views(e2@),
        _ => false,
    }
}

/// Two pairing configurations agree, up to the representation of their text
/// lists.
pub open spec fn same_pairing(a: PairingMode, b: PairingMode) -> bool {
    match (a, b) {
        (PairingMode::Elo { estimator: e1 }, PairingMode::Elo { estimator: e2 }) => e1 == e2,
        (
            PairingMode::Swiss {
                floater_style: f1,
                airtight_groups: a1,
                club_protection: c1,
                nationality_protection: n1,
                macmahon: m1,
            },
            PairingMode::Swiss {
                floater_style: f2,
                airtight_groups: a2,
                club_protection: c2,
                nationality_protection: n2,
                macmahon: m2,
            },
        ) => f1 == f2 && a1 == a2 && same_club(c1, c2) && same_nationality(n1, n2) && m1.thresholds@
            == m2.thresholds@ && m1.source == m2.source,
        _ => false,
    }
}

proof fn lemma_exempt_list_idempotent(list: Seq<Seq<char>>)
    ensures
        exempt_list_of(exempt_list_of(list)) == exempt_list_of(list),
    decreases list.len(),
{
    if list.len() > 0 {
        let kept = exempt_list_of(list.drop_last());
        lemma_exempt_list_idempotent(list.drop_last());
        let t = trim(list.last());
        crate::text::lemma_trim_idempotent(list.last());
        if t.len() != 0 && !seen_folded(kept, t) {
            let k2 = kept.push(t);
            assert(k2.drop_last() =~= kept);
            assert(k2.last() == t);
        }
    }
}

proof fn lemma_kept_tiebreaks_idempotent(tbs: Seq<Tiebreak>, drop_est: bool, drop_board: bool)
    ensures
        kept_tiebreaks(kept_tiebreaks(tbs, drop_est, drop_board), drop_est, drop_board) == kept_tiebreaks(
            tbs,
            drop_est,
            drop_board,
        ),
    decreases tbs.len(),
{
    if tbs.len() > 0 {
        let kept = kept_tiebreaks(tbs.drop_last(), drop_est, drop_board);
        lemma_kept_tiebreaks_idempotent(tbs.drop_last(), drop_est, drop_board);
        let t = tbs.last();
        if !(kept.contains(t) || (drop_est && t == Tiebreak::EstElo) || (drop_board && t == Tiebreak::BoardWins)) {
            let k2 = kept.push(t);
            assert(k2.drop_last() =~= kept);
            assert(k2.last() == t);
        }
    }
}

/// The categories kept depend on each category's id and name only.
proof fn lemma_kept_categories_views(a: Seq<PlayerCategory>, b: Seq<PlayerCategory>)
    requires
        a.len() == b.len(),
        forall|i: int| 0 <= i < a.len() ==> (#[trigger] a[i]).id == b[i].id && a[i].name@ == b[i].name@,
    ensures
        kept_categories(a) == kept_categories(b),
    decreases a.len(),
{
    if a.len() > 0 {
        let (da, db) = (a.drop_last(), b.drop_last());
        assert forall|i: int| 0 <= i < da.len() implies (#[trigger] da[i]).id == db[i].id && da[i].name@ == db[i].name@ by {
            assert(da[i] == a[i] && db[i] == b[i]);
        }
        lemma_kept_categories_views(da, db);
        assert(a[a.len() - 1].id == b[b.len() - 1].id);
    }
}

/// The categories kept from ones already kept are the same ones.
proof fn lemma_kept_categories_idempotent(cs: Seq<PlayerCategory>, again: Seq<PlayerCategory>)
    requires
        category_views(again) == kept_categories(cs),
    ensures
        kept_categories(again) == kept_categories(cs),
    decreases cs.len(),
{
    if cs.len() > 0 {
        let kept = kept_categories(cs.drop_last());
        let c = cs.last();
        let name = trim(c.name@);
        crate::text::lemma_trim_idempotent(c.name@);
        if name.len() == 0 || exists|k: int| 0 <= k < kept.len() && (#[trigger] kept[k]).0 == c.id {
            lemma_kept_categories_idempotent(cs.drop_last(), again);
        } else {
            assert(kept_categories(cs) == kept.push((c.id, name)));
            assert(category_views(again).len() == again.len());
            assert(again.len() == kept.len() + 1);
            let prefix = again.drop_last();
            assert(category_views(prefix) =~= kept) by {
                assert forall|i: int| 0 <= i < kept.len() implies category_views(prefix)[i] == kept[i] by {
                    assert(category_views(again)[i] == kept_categories(cs)[i]);
                }
            }
            lemma_kept_categories_idempotent(cs.drop_last(), prefix);
            assert(category_views(again)[again.len() - 1] == (c.id, name));
            assert(again.last().name@ == name);
            assert(again.last().id == c.id);
            assert(kept_categories(again) =~= kept.push((c.id, name)));
        }
    }
}

/// Normalizing settings that are already normalized changes nothing: the
/// canonical form is a fixed point (compared on the text of its strings).
pub proof fn lemma_normalized_is_idempotent(s: TournamentSettings, t: TournamentSettings, u: TournamentSettings)
    requires
        normalizes_to(s, t),
        normalizes_to(t, u),
    ensures
        same_pairing(u.pairing, t.pairing),
        u.tiebreaks@ == t.tiebreaks@,
        opt_chars(u.city) == opt_chars(t.city),
        opt_chars(u.country) == opt_chars(t.country),
        opt_chars(u.time_control) == opt_chars(t.time_control),
        category_views(u.categories@) == category_views(t.categories@),
        u.dates == t.dates,
        u.cup_enabled == t.cup_enabled,
        u.cup_format == t.cup_format,
        u.long_boards_enabled == t.long_boards_enabled,
        u.handicap_policy == t.handicap_policy,
        u.half_point_absences == t.half_point_absences,
        u.teams == t.teams,
{
    // The pairing.
    match s.pairing {
        PairingMode::Elo { estimator } => {},
        PairingMode::Swiss { floater_style, airtight_groups, club_protection, nationality_protection, macmahon } => {
            lemma_normalized_thresholds_idempotent(macmahon.thresholds@);
            match club_protection {
                ClubProtection::Off => {},
                ClubProtection::On { rounds, exempt_clubs } => {
                    lemma_exempt_list_idempotent(views(exempt_clubs@));
                },
            }
            match nationality_protection {
                NationalityProtection::Off => {},
                NationalityProtection::On { rounds, exempt_nationalities } => {
                    lemma_exempt_list_idempotent(views(exempt_nationalities@));
                },
            }
        },
    }
    // The tie-breaks: the same things are dropped, since the mode, the
    // estimator and the teams are unchanged.
    let drop_est = !(s.pairing is Elo && !rated_pinned(s));
    assert(!(t.pairing is Elo && !rated_pinned(t)) == drop_est);
    lemma_kept_tiebreaks_idempotent(s.tiebreaks@, drop_est, s.teams is None);
    // The header texts.
    match s.city {
        Some(x) => crate::text::lemma_trim_idempotent(x@),
        None => {},
    }
    match s.country {
        Some(x) => crate::text::lemma_trim_idempotent(x@),
        None => {},
    }
    match s.time_control {
        Some(x) => crate::text::lemma_trim_idempotent(x@),
        None => {},
    }
    // The categories.
    lemma_kept_categories_idempotent(s.categories@, t.categories@);
}

/// A grade threshold is met by exactly the grades at least as strong: `n`
/// dan ranks `n`, `n` kyu ranks `1 − n` (so 1 kyu sits just below 1 dan), and
/// a player meets the threshold when their rank reaches its rank. In
/// particular every dan player meets every kyu threshold (grades count
/// from 1), a kyu player meets
/// a kyu threshold exactly when their kyu number is at most the threshold's,
/// a player with no grade meets none, and meeting is monotone in strength.
pub proof fn lemma_grade_threshold_met_by_stronger_grades(g: Grade, pg: Grade, stronger: Grade, rating: Option<u32>)
    ensures
        met(ThresholdCriterion::Grade { grade: g }, rating, Some(pg)) <==> (match pg.kind {
            GradeKind::Dan => pg.level as int,
            GradeKind::Kyu => 1 - pg.level as int,
        }) >= (match g.kind {
            GradeKind::Dan => g.level as int,
            GradeKind::Kyu => 1 - g.level as int,
        }),
        (pg.kind == GradeKind::Dan && g.kind == GradeKind::Kyu && pg.level >= 1 && g.level >= 1) ==> met(ThresholdCriterion::Grade { grade: g }, rating, Some(pg)),
        (pg.kind == GradeKind::Kyu && g.kind == GradeKind::Kyu) ==> (met(ThresholdCriterion::Grade { grade: g }, rating, Some(pg))
            <==> pg.level <= g.level),
        (pg.kind == GradeKind::Dan && g.kind == GradeKind::Dan) ==> (met(ThresholdCriterion::Grade { grade: g }, rating, Some(pg))
            <==> pg.level >= g.level),
        !met(ThresholdCriterion::Grade { grade: g }, rating, None),
        met(ThresholdCriterion::Grade { grade: g }, rating, Some(g)),
        (met(ThresholdCriterion::Grade { grade: g }, rating, Some(pg)) && grade_rank(stronger) >= grade_rank(pg))
            ==> met(ThresholdCriterion::Grade { grade: g }, rating, Some(stronger)),
{
}

/// `r2` is at least as strong a rating as `r1` (any rating beats none).
pub open spec fn rating_at_least(r2: Option<u32>, r1: Option<u32>) -> bool {
    match r1 {
        None => true,
        Some(a) => match r2 {
            Some(b) => b >= a,
            None => false,
        },
    }
}

/// `g2` is at least as strong a grade as `g1` (any grade beats none).
pub open spec fn grade_at_least(g2: Option<Grade>, g1: Option<Grade>) -> bool {
    match g1 {
        None => true,
        Some(a) => match g2 {
            Some(b) => grade_rank(b) >= grade_rank(a),
            None => false,
        },
    }
}

/// An ELO threshold is met by exactly the ratings at or above it, never by
/// an unrated player; and any threshold met by a player is met by a player
/// at least as strong.
pub proof fn lemma_thresholds_met_by_the_stronger(c: ThresholdCriterion, r1: Option<u32>, r2: Option<u32>, g1: Option<Grade>, g2: Option<Grade>, v: u32, r: u32)
    ensures
        met(ThresholdCriterion::Elo { value: v }, Some(r), g1) <==> r >= v,
        !met(ThresholdCriterion::Elo { value: v }, None, g1),
        (rating_at_least(r2, r1) && grade_at_least(g2, g1) && met(c, r1, g1)) ==> met(c, r2, g2),
{
}

/// Meeting more is counting more: a player at least as strong meets at
/// least as many criteria; none can be met more often than there are.
proof fn lemma_count_met_monotone(cs: Seq<ThresholdCriterion>, r1: Option<u32>, r2: Option<u32>, g1: Option<Grade>, g2: Option<Grade>)
    requires
        rating_at_least(r2, r1),
        grade_at_least(g2, g1),
    ensures
        count_met(cs, r1, g1) <= count_met(cs, r2, g2),
        count_met(cs, r2, g2) <= cs.len(),
    decreases cs.len(),
{
    if cs.len() > 0 {
        lemma_count_met_monotone(cs.drop_last(), r1, r2, g1, g2);
        lemma_thresholds_met_by_the_stronger(cs.last(), r1, r2, g1, g2, 0, 0);
    }
}

/// Later in the tournament, fewer thresholds are still in effect, so a
/// player meets no more of them.
proof fn lemma_count_met_degressive(ts: Seq<MacMahonThreshold>, p1: u32, p2: u32, rating: Option<u32>, grade: Option<Grade>)
    requires
        p1 <= p2,
    ensures
        count_met(effective_criteria(ts, p2), rating, grade) <= count_met(effective_criteria(ts, p1), rating, grade),
        effective_criteria(ts, p1).len() <= ts.len(),
    decreases ts.len(),
{
    if ts.len() > 0 {
        lemma_count_met_degressive(ts.drop_last(), p1, p2, rating, grade);
        let e1 = effective_criteria(ts.drop_last(), p1);
        let e2 = effective_criteria(ts.drop_last(), p2);
        let c = ts.last().criterion;
        assert(e1.push(c).drop_last() == e1 && e1.push(c).last() == c);
        assert(e2.push(c).drop_last() == e2 && e2.push(c).last() == c);
    }
}

/// MacMahon starting points: a player at least as strong (in rating and in
/// grade) starts on at least as many points; as thresholds drop out over the
/// rounds, nobody's start grows; no start exceeds the number of thresholds;
/// and a player meeting none of them (no rating and no grade) starts on zero.
pub proof fn lemma_macmahon_points_monotone(
    s: TournamentSettings,
    r1: Option<u32>,
    r2: Option<u32>,
    g1: Option<Grade>,
    g2: Option<Grade>,
    p1: u32,
    p2: u32,
)
    ensures
        (rating_at_least(r2, r1) && grade_at_least(g2, g1)) ==> macmahon_points_spec(s, r1, g1, p1)
            <= macmahon_points_spec(s, r2, g2, p1),
        p1 <= p2 ==> macmahon_points_spec(s, r1, g1, p2) <= macmahon_points_spec(s, r1, g1, p1),
        macmahon_points_spec(s, r1, g1, p1) <= thresholds_of(s).len(),
        macmahon_points_spec(s, None, None, p1) == 0,
{
    let cs = effective_criteria(thresholds_of(s), p1);
    if rating_at_least(r2, r1) && grade_at_least(g2, g1) {
        lemma_count_met_monotone(cs, r1, r2, g1, g2);
    }
    if p1 <= p2 {
        lemma_count_met_degressive(thresholds_of(s), p1, p2, r1, g1);
    }
    lemma_count_met_monotone(cs, None, r1, None, g1);
    lemma_count_met_degressive(thresholds_of(s), p1, p1, r1, g1);
    lemma_count_met_none(cs);
}

/// Without a rating or a grade, no criterion is met.
proof fn lemma_count_met_none(cs: Seq<ThresholdCriterion>)
    ensures
        count_met(cs, None, None) == 0,
    decreases cs.len(),
{
    if cs.len() > 0 {
        lemma_count_met_none(cs.drop_last());
    }
}

/// Protection windows: a protection applies only while it is on and only
/// through its window's last round (for every round when it has none);
/// within a window it applies to every earlier round too; nothing applies
/// under ELO pairing.
pub proof fn lemma_protection_windows(s: TournamentSettings, round: u32, earlier: u32)
    requires
        earlier <= round,
    ensures
        club_active(s, round) ==> club_active(s, earlier),
        nationality_active(s, round) ==> nationality_active(s, earlier),
        airtight_active(s, round) ==> airtight_active(s, earlier),
        s.pairing is Elo ==> !club_active(s, round) && !nationality_active(s, round) && !airtight_active(s, round),
        (s.pairing matches PairingMode::Swiss { club_protection, .. } && club_protection is Off) ==> !club_active(s, round),
        (s.pairing matches PairingMode::Swiss { club_protection, .. } && club_protection matches ClubProtection::On {
            rounds: None,
            ..
        }) ==> club_active(s, round),
        (s.pairing matches PairingMode::Swiss { nationality_protection, .. } && nationality_protection is Off)
            ==> !nationality_active(s, round),
        (s.pairing matches PairingMode::Swiss { airtight_groups, .. } && airtight_groups is None) ==> !airtight_active(s, round),
{
}

/// The Wiel rule is in force only when handicaps are enabled with it on.
pub proof fn lemma_wiel_rule_needs_handicaps(p: HandicapPolicy)
    ensures
        p is Disabled ==> !wiel_of(p),
        (p matches HandicapPolicy::Enabled { wiel_rule, .. } && wiel_rule) ==> wiel_of(p),
        (p matches HandicapPolicy::Enabled { wiel_rule, .. } && !wiel_rule) ==> !wiel_of(p),
{
}

} // verus!
