//! Players, their grades, and player registration.

use vstd::prelude::*;

use core::cmp::Ordering;
use vstd::std_specs::cmp::PartialOrdSpecImpl;

use uuid::Uuid;

use crate::text::{all_digits, digits_value, is_digit, lowercase, trim, trim_start, uppercase};
use crate::units::TournamentId;

verus! {

/// The two families of playing grade: dan (stronger) and kyu (weaker).
#[derive(Debug, Clone, Copy, PartialEq, Eq, Structural)]
pub enum GradeKind {
    Dan,
    Kyu,
}

/// A dan/kyu playing grade (e.g. `3 dan`, `15 kyu`).
#[derive(Debug, Clone, Copy, PartialEq, Eq, Structural)]
pub struct Grade {
    pub kind: GradeKind,
    /// 1-based level within the kind (e.g. `3` for "3 dan").
    pub level: u32,
}

/// The contiguous strength scale: `n` dan is `n`, `n` kyu is `1 - n`.
pub open spec fn grade_rank(g: Grade) -> int {
    match g.kind {
        GradeKind::Dan => g.level as int,
        GradeKind::Kyu => 1 - g.level as int,
    }
}

/// The index of the first character of `s` that is not an ASCII digit, or
/// `s.len()` when there is none.
pub open spec fn first_non_digit(s: Seq<char>) -> int
    decreases s.len(),
{
    if s.len() == 0 {
        0
    } else if !is_digit(s[0]) {
        0
    } else {
        1 + first_non_digit(s.drop_first())
    }
}

/// What a grade entry means once trimmed and lower-cased: leading digits
/// (at least one, a level of 1 or more that fits a `u32`), then — after
/// optional whitespace — exactly `d`/`dan` or `k`/`kyu`.
pub open spec fn grade_of(s: Seq<char>) -> Option<Grade> {
    let d = first_non_digit(s);
    if d >= s.len() || d == 0 {
        None
    } else {
        let level = digits_value(s.subrange(0, d));
        let suffix = trim_start(s.subrange(d, s.len() as int));
        if level < 1 || level > u32::MAX {
            None
        } else if suffix == seq!['d'] || suffix == seq!['d', 'a', 'n'] {
            Some(Grade { kind: GradeKind::Dan, level: level as u32 })
        } else if suffix == seq!['k'] || suffix == seq!['k', 'y', 'u'] {
            Some(Grade { kind: GradeKind::Kyu, level: level as u32 })
        } else {
            None
        }
    }
}

proof fn lemma_first_non_digit(s: Seq<char>)
    ensures
        0 <= first_non_digit(s) <= s.len(),
        forall|i: int| 0 <= i < first_non_digit(s) ==> is_digit(#[trigger] s[i]),
        first_non_digit(s) < s.len() ==> !is_digit(s[first_non_digit(s)]),
    decreases s.len(),
{
    if s.len() > 0 && is_digit(s[0]) {
        lemma_first_non_digit(s.drop_first());
        assert forall|i: int| 0 <= i < first_non_digit(s) implies is_digit(#[trigger] s[i]) by {
            if i > 0 {
                assert(s[i] == s.drop_first()[i - 1]);
            }
        }
    }
}

impl Grade {
    pub fn dan(level: u32) -> (r: Self)
        ensures
            r == (Grade { kind: GradeKind::Dan, level }),
    {
        Grade { kind: GradeKind::Dan, level }
    }

    pub fn kyu(level: u32) -> (r: Self)
        ensures
            r == (Grade { kind: GradeKind::Kyu, level }),
    {
        Grade { kind: GradeKind::Kyu, level }
    }

    /// A contiguous strength scale: `n` dan is `n`; `n` kyu is `1 - n`, so
    /// `1 kyu` (0) sits directly below `1 dan` (1), bigger meaning stronger.
    pub fn rank(self) -> (r: i64)
        ensures
            r == grade_rank(self),
    {
        match self.kind {
            GradeKind::Dan => self.level as i64,
            GradeKind::Kyu => 1 - self.level as i64,
        }
    }

    /// Parse the compact free-text grade entry — `"3d"`, `"3 dan"`, `"5k"`,
    /// `"5 kyu"` (case-insensitive, optional space) — or `None`.
    pub fn parse(raw: &str) -> (r: Option<Grade>)
        ensures
            r == grade_of(lowercase(trim(raw@))),
    {
        let t = crate::text::trimmed(raw);
        let lower = crate::text::to_lowercase(t.as_str());
        let s = crate::text::chars_of(lower.as_str());
        Grade::parse_chars(s.as_slice())
    }

    /// [`Grade::parse`] on an already trimmed, lower-cased entry.
    pub fn parse_chars(s: &[char]) -> (r: Option<Grade>)
        ensures
            r == grade_of(s@),
    {
        proof {
            lemma_first_non_digit(s@);
        }
        let mut d: usize = 0;
        while d < s.len() && '0' <= s[d] && s[d] <= '9'
            invariant
                d <= first_non_digit(s@),
                0 <= first_non_digit(s@) <= s@.len(),
                forall|i: int| 0 <= i < first_non_digit(s@) ==> is_digit(#[trigger] s@[i]),
                first_non_digit(s@) < s@.len() ==> !is_digit(s@[first_non_digit(s@)]),
            decreases s@.len() - d,
        {
            d += 1;
        }
        assert(d as int == first_non_digit(s@));
        if d >= s.len() || d == 0 {
            return None;
        }
        let digits = slice_range(s, 0, d);
        let level = match crate::text::parse_u32_digits(digits.as_slice()) {
            Some(v) => v,
            None => {
                assert(all_digits(s@.subrange(0, d as int)));
                return None;
            },
        };
        if level < 1 {
            return None;
        }
        let tail = slice_range(s, d, s.len());
        let suffix = trim_start_chars(tail.as_slice());
        let dan1: [char; 1] = ['d'];
        let dan3: [char; 3] = ['d', 'a', 'n'];
        let kyu1: [char; 1] = ['k'];
        let kyu3: [char; 3] = ['k', 'y', 'u'];
        assert(dan1@ =~= seq!['d']);
        assert(dan3@ =~= seq!['d', 'a', 'n']);
        assert(kyu1@ =~= seq!['k']);
        assert(kyu3@ =~= seq!['k', 'y', 'u']);
        let kind = if crate::text::chars_equal(suffix.as_slice(), &dan1)
            || crate::text::chars_equal(suffix.as_slice(), &dan3) {
            GradeKind::Dan
        } else if crate::text::chars_equal(suffix.as_slice(), &kyu1)
            || crate::text::chars_equal(suffix.as_slice(), &kyu3) {
            GradeKind::Kyu
        } else {
            return None;
        };
        Some(Grade { kind, level })
    }
}

/// A copy of `s[from..to]`.
pub fn slice_range(s: &[char], from: usize, to: usize) -> (r: Vec<char>)
    requires
        from <= to <= s@.len(),
    ensures
        r@ == s@.subrange(from as int, to as int),
{
    let mut out: Vec<char> = Vec::new();
    let mut i = from;
    while i < to
        invariant
            from <= i <= to,
            to <= s@.len(),
            out@ == s@.subrange(from as int, i as int),
        decreases to - i,
    {
        out.push(s[i]);
        i += 1;
        assert(out@ =~= s@.subrange(from as int, i as int));
    }
    out
}

/// `s` without its leading whitespace.
pub fn trim_start_chars(s: &[char]) -> (r: Vec<char>)
    ensures
        r@ == trim_start(s@),
{
    proof {
        lemma_trim_start_bounds(s@);
    }
    let mut start: usize = 0;
    while start < s.len() && crate::text::char_is_space(s[start])
        invariant
            0 <= start <= crate::text::trim_start_index(s@) <= s@.len(),
            forall|i: int|
                0 <= i < crate::text::trim_start_index(s@) ==> crate::text::is_space(
                    #[trigger] s@[i],
                ),
            crate::text::trim_start_index(s@) < s@.len() ==> !crate::text::is_space(
                s@[crate::text::trim_start_index(s@)],
            ),
        decreases s@.len() - start,
    {
        start += 1;
    }
    slice_range(s, start, s.len())
}

proof fn lemma_trim_start_bounds(s: Seq<char>)
    ensures
        0 <= crate::text::trim_start_index(s) <= s.len(),
        forall|i: int|
            0 <= i < crate::text::trim_start_index(s) ==> crate::text::is_space(#[trigger] s[i]),
        crate::text::trim_start_index(s) < s.len() ==> !crate::text::is_space(
            s[crate::text::trim_start_index(s)],
        ),
    decreases s.len(),
{
    if s.len() > 0 && crate::text::is_space(s[0]) {
        lemma_trim_start_bounds(s.drop_first());
        assert forall|i: int| 0 <= i < crate::text::trim_start_index(s) implies crate::text::is_space(
            #[trigger] s[i],
        ) by {
            if i > 0 {
                assert(s[i] == s.drop_first()[i - 1]);
            }
        }
    }
}

/// Ordered by playing strength (see [`Grade::rank`]), not by field order.
impl PartialOrd for Grade {
    fn partial_cmp(&self, other: &Self) -> (r: Option<Ordering>) {
        let a = self.rank();
        let b = other.rank();
        if a < b {
            Some(Ordering::Less)
        } else if a == b {
            Some(Ordering::Equal)
        } else {
            Some(Ordering::Greater)
        }
    }
}

impl PartialOrdSpecImpl for Grade {
    open spec fn obeys_partial_cmp_spec() -> bool {
        true
    }

    open spec fn partial_cmp_spec(&self, other: &Self) -> Option<Ordering> {
        if grade_rank(*self) < grade_rank(*other) {
            Some(Ordering::Less)
        } else if grade_rank(*self) == grade_rank(*other) {
            Some(Ordering::Equal)
        } else {
            Some(Ordering::Greater)
        }
    }
}

/// A manual point bonus (positive `delta`) or malus (negative `delta`).
#[derive(Debug, Clone, PartialEq, Eq)]
pub struct PointAdjustment {
    /// Stable id, so a specific entry can be removed later.
    pub id: Uuid,
    /// Points added (positive) or removed (negative). Never zero.
    pub delta: i32,
    /// Why the adjustment was made; required and non-blank.
    pub reason: String,
}

/// A player registered in a tournament.
#[derive(Debug, Clone, PartialEq, Eq)]
pub struct Player {
    /// Stable unique identifier, assigned on registration.
    pub id: Uuid,
    /// Tournament number, assigned when registration is finalized.
    pub tournament_id: Option<TournamentId>,
    /// Family name, non-empty (trimmed) once registered.
    pub last_name: String,
    /// Given name. May be empty.
    pub first_name: String,
    /// Optional playing strength / rating.
    pub rating: Option<u32>,
    /// A referee-assigned stand-in rating for an unrated team member, used
    /// only for team averages and board order.
    pub pairing_rating: Option<u32>,
    /// Optional dan/kyu playing grade.
    pub grade: Option<Grade>,
    /// Number of rated games behind `rating` in the FESA list.
    pub fesa_games: Option<u32>,
    /// Optional country code (uppercase).
    pub nationality: Option<String>,
    /// Optional club or federation.
    pub club: Option<String>,
    /// Whether the referee has marked this player eligible for the cup.
    pub eligible: bool,
    /// The categories (by id) this player belongs to.
    pub categories: Vec<Uuid>,
    /// Manual point bonuses/maluses applied to this player.
    pub adjustments: Vec<PointAdjustment>,
}

/// Data supplied when registering a player, before an id exists.
#[derive(Debug, Clone, Default, PartialEq, Eq)]
pub struct NewPlayer {
    pub last_name: String,
    pub first_name: Option<String>,
    pub rating: Option<u32>,
    pub grade: Option<Grade>,
    pub fesa_games: Option<u32>,
    pub nationality: Option<String>,
    pub club: Option<String>,
}

/// `Some(trim(v))` unless the trimmed value is empty.
pub open spec fn non_empty_of(v: Seq<char>) -> Option<Seq<char>> {
    if trim(v).len() == 0 {
        None
    } else {
        Some(trim(v))
    }
}

/// Trim a string; map empty to `None`.
fn non_empty(value: String) -> (r: Option<String>)
    ensures
        r is None <==> non_empty_of(value@) is None,
        r matches Some(s) ==> non_empty_of(value@) == Some(s@),
{
    let t = crate::text::trimmed(value.as_str());
    if crate::text::is_blank(t.as_str()) {
        proof {
            crate::text::lemma_trim_idempotent(value@);
        }
        None
    } else {
        proof {
            crate::text::lemma_trim_idempotent(value@);
        }
        Some(t)
    }
}

impl Player {
    /// Create a player with a new random id from registration data: trims the
    /// names, uppercases the nationality, normalizes empty optionals to
    /// `None`, and drops `fesa_games` when there is no rating.
    pub fn from_new(new: NewPlayer) -> (r: Self)
        ensures
            r.tournament_id is None,
            r.last_name@ == trim(new.last_name@),
            r.first_name@ == (match new.first_name {
                Some(f) => trim(f@),
                None => Seq::<char>::empty(),
            }),
            r.rating == new.rating,
            r.pairing_rating is None,
            r.grade == new.grade,
            r.fesa_games == (match new.rating {
                Some(_) => new.fesa_games,
                None => None,
            }),
            r.nationality is Some <==> (match new.nationality {
                Some(n) => non_empty_of(n@) is Some,
                None => false,
            }),
            r.nationality matches Some(n) ==> (new.nationality matches Some(m) && n@ == uppercase(
                trim(m@),
            )),
            r.club is Some <==> (match new.club {
                Some(c) => non_empty_of(c@) is Some,
                None => false,
            }),
            r.club matches Some(c) ==> (new.club matches Some(m) && c@ == trim(m@)),
            !r.eligible,
            r.categories@.len() == 0,
            r.adjustments@.len() == 0,
    {
        let last_name = crate::text::trimmed(new.last_name.as_str());
        let first_name = match &new.first_name {
            Some(f) => crate::text::trimmed(f.as_str()),
            None => String::new(),
        };
        let fesa_games = match new.rating {
            Some(_) => new.fesa_games,
            None => None,
        };
        let nationality = match new.nationality {
            Some(n) => match non_empty(n) {
                Some(c) => Some(crate::text::to_uppercase(c.as_str())),
                None => None,
            },
            None => None,
        };
        let club = match new.club {
            Some(c) => non_empty(c),
            None => None,
        };
        Player {
            id: crate::ids::new_id(),
            tournament_id: None,
            last_name,
            first_name,
            rating: new.rating,
            pairing_rating: None,
            grade: new.grade,
            fesa_games,
            nationality,
            club,
            eligible: false,
            categories: Vec::new(),
            adjustments: Vec::new(),
        }
    }
}

/// The strength scale is contiguous and ordered: each dan is one step above
/// the dan below it, each kyu one step below the kyu before it, and 1 kyu
/// sits exactly one step below 1 dan, so every dan outranks every kyu.
pub proof fn lemma_grade_scale(n: u32, m: u32)
    ensures
        grade_rank(Grade { kind: GradeKind::Kyu, level: 1 }) + 1 == grade_rank(Grade { kind: GradeKind::Dan, level: 1 }),
        n < u32::MAX ==> grade_rank(Grade { kind: GradeKind::Dan, level: (n + 1) as u32 }) == grade_rank(
            Grade { kind: GradeKind::Dan, level: n },
        ) + 1,
        n < u32::MAX ==> grade_rank(Grade { kind: GradeKind::Kyu, level: (n + 1) as u32 }) + 1 == grade_rank(
            Grade { kind: GradeKind::Kyu, level: n },
        ),
        (n >= 1 && m >= 1) ==> grade_rank(Grade { kind: GradeKind::Dan, level: n }) > grade_rank(
            Grade { kind: GradeKind::Kyu, level: m },
        ),
        grade_rank(Grade { kind: GradeKind::Dan, level: n }) == n,
{
}

} // verus!
