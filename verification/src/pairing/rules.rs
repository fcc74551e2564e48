//! The pairing rules, and the ladder that turns them into one scalar weight.
//!
//! Each [`Rule`] emits penalty *units* for an edge (or the bye); the priority
//! multipliers are derived from each rule's worst-case units per round by
//! [`scale_ladder`], so one unit of any rule outweighs every lower-priority rule
//! combined. The active set and its order live in [`active_rules`].

use vstd::prelude::*;

use typed_index_collections::TiVec;

use crate::settings::{views, FloaterStyle, TournamentSettings};
use crate::tables::{unit_at, unit_count, unit_rows};
use crate::units::UnitKey;

use super::model::{fold_rating_of, PairingUnit};

verus! {

/// Numerator of the float-repeat penalty, divided by the number of rounds since
/// the unit last floated the same way.
pub const FLOAT_BASE: i128 = 720;

/// The pairing rules, most important first in [`active_rules`].
#[derive(Debug, Clone, Copy, PartialEq, Eq, Structural)]
pub enum Rule {
    /// Never play the same opponent twice / never take the bye twice.
    Rematch,
    /// (Qualifier cup, round 1 only) Never pair two pre-qualified cup players.
    CupPrequalified,
    /// The bye should go to the lowest-scoring free unit (bye-only).
    ByeGroup,
    /// (Optional, first N rounds) Avoid pairing across MacMahon groups.
    AirtightGroups,
    /// Prefer equal scores; penalty grows with the square of the points gap.
    ScoreGap,
    /// Avoid repeating a float in the same direction; decays with rounds since.
    FloatRepeat,
    /// When a pairing floats across groups, choose the right units to float.
    FloaterSelection,
    /// Avoid pairing club-mates (ignored when a club is unknown).
    Club,
    /// (Optional) Avoid pairing compatriots — club protection's weaker sibling.
    Nationality,
    /// Fold within a score group (top half meets bottom half).
    Fold,
    /// (ELO mode) Choose who takes the bye — the weakest by estimate.
    ByeSelection,
    /// (ELO mode) Prefer opponents of equal estimated ELO.
    EloGap,
}

/// A serializable identity for a [`Rule`], surfaced to clients.
#[derive(Debug, Clone, Copy, PartialEq, Eq, Hash, Structural)]
pub enum RuleId {
    Rematch,
    CupPrequalified,
    ByeGroup,
    AirtightGroups,
    ScoreGap,
    FloatRepeat,
    FloaterSelection,
    Club,
    Nationality,
    Fold,
    ByeSelection,
    EloGap,
}

/// The Swiss/MacMahon rule set, highest priority first.
pub open spec fn swiss_rules() -> Seq<Rule> {
    seq![
        Rule::Rematch,
        Rule::CupPrequalified,
        Rule::ByeGroup,
        Rule::AirtightGroups,
        Rule::ScoreGap,
        Rule::FloatRepeat,
        Rule::FloaterSelection,
        Rule::Club,
        Rule::Nationality,
        Rule::Fold,
    ]
}

/// The pure-ELO rule set, highest priority first.
pub open spec fn elo_rules() -> Seq<Rule> {
    seq![Rule::Rematch, Rule::CupPrequalified, Rule::ByeSelection, Rule::EloGap]
}

/// The serializable identity of a rule.
pub open spec fn rule_id(r: Rule) -> RuleId {
    match r {
        Rule::Rematch => RuleId::Rematch,
        Rule::CupPrequalified => RuleId::CupPrequalified,
        Rule::ByeGroup => RuleId::ByeGroup,
        Rule::AirtightGroups => RuleId::AirtightGroups,
        Rule::ScoreGap => RuleId::ScoreGap,
        Rule::FloatRepeat => RuleId::FloatRepeat,
        Rule::FloaterSelection => RuleId::FloaterSelection,
        Rule::Club => RuleId::Club,
        Rule::Nationality => RuleId::Nationality,
        Rule::Fold => RuleId::Fold,
        Rule::ByeSelection => RuleId::ByeSelection,
        Rule::EloGap => RuleId::EloGap,
    }
}

/// The rules in effect, highest priority first: the pure-ELO set in ELO
/// pairing mode, the Swiss set otherwise.
pub fn active_rules(settings: &TournamentSettings) -> (r: Vec<Rule>)
    ensures
        r@ == if settings.pairing is Elo {
            elo_rules()
        } else {
            swiss_rules()
        },
{
    if settings.elo_estimate_needed() {
        let r = vec![Rule::Rematch, Rule::CupPrequalified, Rule::ByeSelection, Rule::EloGap];
        assert(r@ =~= elo_rules());
        r
    } else {
        let r = vec![
            Rule::Rematch,
            Rule::CupPrequalified,
            Rule::ByeGroup,
            Rule::AirtightGroups,
            Rule::ScoreGap,
            Rule::FloatRepeat,
            Rule::FloaterSelection,
            Rule::Club,
            Rule::Nationality,
            Rule::Fold,
        ];
        assert(r@ =~= swiss_rules());
        r
    }
}

/// Within-group fold placement of a unit: its rank in the score group (by
/// rating, descending) and the group's size.
#[derive(Debug, Clone, Copy, PartialEq, Eq, Structural)]
pub struct FoldInfo {
    pub rank: usize,
    pub group_size: usize,
}

/// Everything the rules need to score an edge, plus the per-round quantities
/// their worst-case bounds (and hence multipliers) are derived from.
pub struct Ctx<'a> {
    /// The units being paired, indexed by key.
    pub units: &'a TiVec<UnitKey, PairingUnit>,
    /// Fold placement per unit, indexed by key (`None` for a non-free unit).
    pub fold: &'a Vec<Option<FoldInfo>>,
    pub round: u32,
    /// Which unit each lower group sends up as its ascending floater.
    pub floater_style: FloaterStyle,
    /// Clubs exempt from protection, in normalized form.
    pub exempt_clubs: &'a Vec<String>,
    /// Nationalities exempt from protection, in normalized form.
    pub exempt_nationalities: &'a Vec<String>,
    /// Edges in a perfect matching over the vertices (= vertices / 2).
    pub edges: i128,
    /// Largest points gap between any two free units.
    pub max_gap: i128,
    /// Lowest points among the free units (the bye's target group).
    pub min_points: i128,
    /// Largest MacMahon-points gap between any two free units.
    pub max_mm_gap: i128,
    /// Largest score-group size among the free units.
    pub max_group: i128,
    /// Number of free units.
    pub free_count: i128,
    /// Most board positions any free unit has.
    pub max_boards: i128,
    /// (ELO mode) Ascending ELO rank per unit, 0 = weakest, indexed by key.
    pub elo_rank: &'a Vec<i128>,
    /// (ELO mode) Largest ELO gap among free units.
    pub max_elo_gap: i128,
}

impl<'a> Ctx<'a> {
    /// The unit at key `k`.
    pub open spec fn unit(&self, k: UnitKey) -> PairingUnit {
        unit_rows(*self.units)[k.0 as int]
    }

    /// Whether `k` is a unit the rules can score: inside every table, with its
    /// fold placement recorded and every float predating the round.
    pub open spec fn scorable(&self, k: UnitKey) -> bool {
        &&& (k.0 as int) < unit_rows(*self.units).len()
        &&& (k.0 as int) < self.fold@.len()
        &&& (k.0 as int) < self.elo_rank@.len()
        &&& self.fold@[k.0 as int] matches Some(f) && f.rank < f.group_size
            && f.group_size <= self.max_group
        &&& floats_predate(self.unit(k), self.round)
    }

    /// The per-round bounds are all within the ranges the cost arithmetic is
    /// exact for: in particular the squared ELO gap, alone and over all edges,
    /// stays within `i128`.
    pub open spec fn bounded(&self) -> bool {
        &&& 0 <= self.edges <= 0x1_0000_0000
        &&& 0 <= self.max_gap <= 0xffff_ffff
        &&& 0 <= self.max_mm_gap <= 0xffff_ffff
        &&& 0 <= self.max_group <= 0x1_0000_0000
        &&& 0 <= self.free_count <= 0x1_0000_0000
        &&& 0 <= self.max_boards <= 0x1_0000_0000
        &&& 0 <= self.max_elo_gap
        &&& sq(self.max_elo_gap as int) <= i128::MAX
        &&& sq(self.max_elo_gap as int) * self.edges <= i128::MAX
        &&& 0 <= self.min_points <= 0xffff_ffff
    }
}

/// Every float of `u` was recorded in a round before `round`.
pub open spec fn floats_predate(u: PairingUnit, round: u32) -> bool {
    &&& (u.last_ascended matches Some(k) ==> k < round)
    &&& (u.last_descended matches Some(k) ==> k < round)
}

/// Float-repeat units for one unit/direction: 0 if it never floated that way,
/// else [`FLOAT_BASE`] divided by the rounds since.
pub open spec fn float_units_spec(last: Option<u32>, round: u32) -> int {
    match last {
        Some(k) => 720int / (round - k),
        None => 0,
    }
}

/// The rank a unit of `rank` in a group of `group_size` should ideally meet:
/// top half folds onto bottom half.
pub open spec fn ideal_rank_spec(rank: int, group_size: int) -> int {
    let half = group_size / 2;
    if rank < half {
        rank + half
    } else {
        rank - half
    }
}

/// `|x|`.
pub open spec fn abs(x: int) -> int {
    if x < 0 {
        -x
    } else {
        x
    }
}

/// Floater-selection units for one floater: how far its in-group rank is from
/// the ideal position for its float direction.
pub open spec fn floater_units_spec(ctx: &Ctx, id: UnitKey, descending: bool) -> int {
    match ctx.fold@[id.0 as int] {
        None => 0,
        Some(f) => {
            let ideal: int = match ctx.floater_style {
                FloaterStyle::Classic => if descending {
                    if f.group_size == 0 {
                        0
                    } else {
                        f.group_size - 1
                    }
                } else {
                    0
                },
                FloaterStyle::Median => f.group_size as int / 2,
            };
            abs(f.rank - ideal)
        },
    }
}

/// How many of the first `n` aligned board positions carry the same,
/// non-exempt value on both sides.
pub open spec fn shared_count(
    a: Seq<Option<String>>,
    b: Seq<Option<String>>,
    exempt: Seq<Seq<char>>,
    n: int,
) -> int
    decreases n,
{
    if n <= 0 {
        0
    } else {
        shared_count(a, b, exempt, n - 1) + match (a[n - 1], b[n - 1]) {
            (Some(x), Some(y)) => if x@ == y@ && !exempt.contains(x@) {
                1int
            } else {
                0int
            },
            _ => 0int,
        }
    }
}

/// The shorter of two lengths (what `zip` walks).
pub open spec fn min_len(a: int, b: int) -> int {
    if a < b {
        a
    } else {
        b
    }
}

/// Penalty units for one shared-affiliation rule over aligned positions.
pub open spec fn shared_units_spec(
    a: Seq<Option<String>>,
    b: Seq<Option<String>>,
    exempt: Seq<Seq<char>>,
) -> int {
    shared_count(a, b, exempt, min_len(a.len() as int, b.len() as int))
}

/// `x²`.
pub open spec fn sq(x: int) -> int {
    x * x
}

/// Penalty units of `rule` for pairing `a` against `b`.
pub open spec fn edge_units_spec(rule: Rule, ctx: &Ctx, a: UnitKey, b: UnitKey) -> int {
    let sa = ctx.unit(a);
    let sb = ctx.unit(b);
    match rule {
        Rule::Rematch => if sa.opponents@.contains(b) {
            1
        } else {
            0
        },
        Rule::CupPrequalified => if sa.prequalified && sb.prequalified {
            1
        } else {
            0
        },
        Rule::ByeGroup => 0,
        Rule::AirtightGroups => sq(sa.macmahon.0 - sb.macmahon.0),
        Rule::ScoreGap => sq(sa.points.0 - sb.points.0),
        Rule::FloatRepeat => if sa.points.0 < sb.points.0 {
            float_units_spec(sa.last_ascended, ctx.round) + float_units_spec(
                sb.last_descended,
                ctx.round,
            )
        } else if sa.points.0 > sb.points.0 {
            float_units_spec(sa.last_descended, ctx.round) + float_units_spec(
                sb.last_ascended,
                ctx.round,
            )
        } else {
            0
        },
        Rule::FloaterSelection => if sa.points.0 == sb.points.0 {
            0
        } else if sa.points.0 > sb.points.0 {
            floater_units_spec(ctx, a, true) + floater_units_spec(ctx, b, false)
        } else {
            floater_units_spec(ctx, b, true) + floater_units_spec(ctx, a, false)
        },
        Rule::Club => shared_units_spec(sa.clubs@, sb.clubs@, views(ctx.exempt_clubs@)),
        Rule::Nationality => shared_units_spec(
            sa.nationalities@,
            sb.nationalities@,
            views(ctx.exempt_nationalities@),
        ),
        Rule::Fold => if sa.points.0 != sb.points.0 {
            0
        } else {
            match (ctx.fold@[a.0 as int], ctx.fold@[b.0 as int]) {
                (Some(fa), Some(fb)) => sq(fb.rank - ideal_rank_spec(fa.rank as int, fa.group_size as int))
                    + sq(fa.rank - ideal_rank_spec(fb.rank as int, fb.group_size as int)),
                _ => 0,
            }
        },
        Rule::ByeSelection => 0,
        Rule::EloGap => sq(sa.elo - sb.elo),
    }
}

/// Penalty units of `rule` for giving `unit` the bye.
pub open spec fn bye_units_spec(rule: Rule, ctx: &Ctx, unit: UnitKey) -> int {
    let s = ctx.unit(unit);
    match rule {
        Rule::Rematch => if s.had_bye {
            1
        } else {
            0
        },
        Rule::CupPrequalified => 0,
        Rule::ByeGroup => sq(s.points.0 - ctx.min_points),
        Rule::FloatRepeat => float_units_spec(s.last_descended, ctx.round),
        Rule::FloaterSelection => floater_units_spec(ctx, unit, true),
        Rule::ByeSelection => ctx.elo_rank@[unit.0 as int] as int,
        _ => 0,
    }
}

/// The largest units `rule` can emit on a single edge (or, for the bye-only
/// rules, on the one bye of the round).
pub open spec fn per_edge_spec(rule: Rule, ctx: &Ctx) -> int {
    match rule {
        Rule::Rematch => 1,
        Rule::CupPrequalified => 1,
        Rule::AirtightGroups => sq(ctx.max_mm_gap as int),
        Rule::ScoreGap => sq(ctx.max_gap as int),
        Rule::FloatRepeat => 1440int,
        Rule::FloaterSelection => 2 * if ctx.max_group >= 1 {
            ctx.max_group - 1
        } else {
            0
        },
        Rule::Club | Rule::Nationality => ctx.max_boards as int,
        Rule::Fold => 2 * sq(
            if ctx.max_group >= 1 {
                ctx.max_group - 1
            } else {
                0
            },
        ),
        Rule::EloGap => sq(ctx.max_elo_gap as int),
        Rule::ByeSelection => if ctx.free_count >= 1 {
            ctx.free_count - 1
        } else {
            0
        },
        Rule::ByeGroup => sq(ctx.max_gap as int),
    }
}

/// A safe upper bound on the total units `rule` can emit across one round's
/// matching: the per-edge bound times the edges, except for the bye-only
/// rules, which fire once.
pub open spec fn max_total_spec(rule: Rule, ctx: &Ctx) -> int {
    match rule {
        Rule::ByeSelection | Rule::ByeGroup => per_edge_spec(rule, ctx),
        _ => per_edge_spec(rule, ctx) * ctx.edges,
    }
}

/// Float-repeat units for one unit/direction.
pub fn float_units(last: Option<u32>, round: u32) -> (r: i128)
    requires
        last matches Some(k) ==> k < round,
    ensures
        r == float_units_spec(last, round),
        0 <= r <= FLOAT_BASE,
{
    match last {
        Some(k) => {
            let d = (round - k) as i128;
            assert(720i128 / d <= 720 && 720i128 / d >= 0) by (nonlinear_arith)
                requires
                    d >= 1,
            ;
            FLOAT_BASE / d
        },
        None => 0,
    }
}


/// The rank a unit of `rank` in a group of `group_size` should ideally meet.
fn ideal_rank(rank: usize, group_size: usize) -> (r: usize)
    requires
        rank < group_size,
    ensures
        r == ideal_rank_spec(rank as int, group_size as int),
        r < group_size,
{
    let half = group_size / 2;
    if rank < half {
        rank + half
    } else {
        rank - half
    }
}

/// Floater-selection units for one floater: how far its in-group rank is from
/// the ideal position for its float direction.
fn floater_units(ctx: &Ctx, id: UnitKey, descending: bool) -> (r: i128)
    requires
        ctx.scorable(id),
        ctx.bounded(),
    ensures
        r == floater_units_spec(ctx, id, descending),
        0 <= r < ctx.max_group,
{
    match ctx.fold[id.index()] {
        None => 0,
        Some(f) => {
            let ideal: usize = match ctx.floater_style {
                FloaterStyle::Classic => if descending {
                    if f.group_size == 0 {
                        0
                    } else {
                        f.group_size - 1
                    }
                } else {
                    0
                },
                FloaterStyle::Median => f.group_size / 2,
            };
            let d = f.rank as i128 - ideal as i128;
            if d < 0 {
                -d
            } else {
                d
            }
        },
    }
}

/// Whether `x` is one of the (normalized) exempt values.
fn is_exempt(exempt: &Vec<String>, x: &String) -> (r: bool)
    ensures
        r == views(exempt@).contains(x@),
{
    let mut i: usize = 0;
    while i < exempt.len()
        invariant
            i <= exempt@.len(),
            forall|j: int| 0 <= j < i ==> exempt@[j]@ != x@,
        decreases exempt@.len() - i,
    {
        if exempt[i] == *x {
            assert(views(exempt@)[i as int] == x@);
            return true;
        }
        i += 1;
    }
    assert forall|j: int| 0 <= j < views(exempt@).len() implies views(exempt@)[j] != x@ by {
        assert(views(exempt@)[j] == exempt@[j]@);
    }
    false
}

/// Penalty units for one shared-affiliation rule: how many aligned board
/// positions carry the same, non-exempt value on both sides.
fn shared_affiliation_units(
    a: &Vec<Option<String>>,
    b: &Vec<Option<String>>,
    exempt: &Vec<String>,
) -> (r: i128)
    ensures
        r == shared_units_spec(a@, b@, views(exempt@)),
        0 <= r <= min_len(a@.len() as int, b@.len() as int),
{
    let n = if a.len() < b.len() {
        a.len()
    } else {
        b.len()
    };
    let mut count: i128 = 0;
    let mut i: usize = 0;
    while i < n
        invariant
            i <= n,
            n as int == min_len(a@.len() as int, b@.len() as int),
            count == shared_count(a@, b@, views(exempt@), i as int),
            0 <= count <= i,
        decreases n - i,
    {
        match (&a[i], &b[i]) {
            (Some(x), Some(y)) => {
                if *x == *y && !is_exempt(exempt, x) {
                    count += 1;
                }
            },
            _ => {},
        }
        i += 1;
    }
    count
}

impl Rule {
    /// The serializable identity of this rule, for explanations.
    pub fn id(self) -> (r: RuleId)
        ensures
            r == rule_id(self),
    {
        match self {
            Rule::Rematch => RuleId::Rematch,
            Rule::CupPrequalified => RuleId::CupPrequalified,
            Rule::ByeGroup => RuleId::ByeGroup,
            Rule::AirtightGroups => RuleId::AirtightGroups,
            Rule::ScoreGap => RuleId::ScoreGap,
            Rule::FloatRepeat => RuleId::FloatRepeat,
            Rule::FloaterSelection => RuleId::FloaterSelection,
            Rule::Club => RuleId::Club,
            Rule::Nationality => RuleId::Nationality,
            Rule::Fold => RuleId::Fold,
            Rule::ByeSelection => RuleId::ByeSelection,
            Rule::EloGap => RuleId::EloGap,
        }
    }

    /// Penalty units for pairing `a` against `b` (before the multiplier).
    pub fn edge_units(self, ctx: &Ctx, a: UnitKey, b: UnitKey) -> (r: i128)
        requires
            ctx.scorable(a),
            ctx.scorable(b),
            ctx.bounded(),
            self is EloGap ==> sq(ctx.unit(a).elo - ctx.unit(b).elo) <= i128::MAX,
        ensures
            r == edge_units_spec(self, ctx, a, b),
            0 <= r,
    {
        let sa = crate::tables::unit_at(ctx.units, a);
        let sb = crate::tables::unit_at(ctx.units, b);
        match self {
            Rule::Rematch => {
                if vec_contains_key(&sa.opponents, b) {
                    1
                } else {
                    0
                }
            },
            Rule::CupPrequalified => {
                if sa.prequalified && sb.prequalified {
                    1
                } else {
                    0
                }
            },
            Rule::ByeGroup => 0,
            Rule::AirtightGroups => {
                let gap = sa.macmahon.0 as i128 - sb.macmahon.0 as i128;
                square_small(gap)
            },
            Rule::ScoreGap => {
                let gap = sa.points.0 as i128 - sb.points.0 as i128;
                square_small(gap)
            },
            Rule::FloatRepeat => {
                if sa.points.0 < sb.points.0 {
                    float_units(sa.last_ascended, ctx.round) + float_units(
                        sb.last_descended,
                        ctx.round,
                    )
                } else if sa.points.0 > sb.points.0 {
                    float_units(sa.last_descended, ctx.round) + float_units(
                        sb.last_ascended,
                        ctx.round,
                    )
                } else {
                    0
                }
            },
            Rule::FloaterSelection => {
                if sa.points.0 == sb.points.0 {
                    0
                } else if sa.points.0 > sb.points.0 {
                    floater_units(ctx, a, true) + floater_units(ctx, b, false)
                } else {
                    floater_units(ctx, b, true) + floater_units(ctx, a, false)
                }
            },
            Rule::Club => shared_affiliation_units(&sa.clubs, &sb.clubs, ctx.exempt_clubs),
            Rule::Nationality => shared_affiliation_units(
                &sa.nationalities,
                &sb.nationalities,
                ctx.exempt_nationalities,
            ),
            Rule::Fold => {
                if sa.points.0 != sb.points.0 {
                    return 0;
                }
                match (ctx.fold[a.index()], ctx.fold[b.index()]) {
                    (Some(fa), Some(fb)) => {
                        let ia = ideal_rank(fa.rank, fa.group_size) as i128;
                        let ib = ideal_rank(fb.rank, fb.group_size) as i128;
                        let da = fb.rank as i128 - ia;
                        let db = fa.rank as i128 - ib;
                        square_small(da) + square_small(db)
                    },
                    _ => 0,
                }
            },
            Rule::ByeSelection => 0,
            Rule::EloGap => {
                let gap = sa.elo as i128 - sb.elo as i128;
                assert(0 <= gap * gap) by (nonlinear_arith);
                gap * gap
            },
        }
    }

    /// Penalty units for giving `unit` the bye (before the multiplier).
    pub fn bye_units(self, ctx: &Ctx, unit: UnitKey) -> (r: i128)
        requires
            ctx.scorable(unit),
            ctx.bounded(),
            0 <= ctx.elo_rank@[unit.0 as int],
        ensures
            r == bye_units_spec(self, ctx, unit),
            0 <= r,
    {
        let s = crate::tables::unit_at(ctx.units, unit);
        match self {
            Rule::Rematch => {
                if s.had_bye {
                    1
                } else {
                    0
                }
            },
            Rule::CupPrequalified => 0,
            Rule::ByeGroup => {
                let gap = s.points.0 as i128 - ctx.min_points;
                square_small(gap)
            },
            Rule::FloatRepeat => float_units(s.last_descended, ctx.round),
            Rule::FloaterSelection => floater_units(ctx, unit, true),
            Rule::ByeSelection => ctx.elo_rank[unit.index()],
            Rule::AirtightGroups | Rule::ScoreGap | Rule::Club | Rule::Nationality | Rule::Fold
            | Rule::EloGap => 0,
        }
    }

    /// The largest units this rule can emit on one edge (or on the one bye).
    fn per_edge_units(self, ctx: &Ctx) -> (r: i128)
        requires
            ctx.bounded(),
        ensures
            r == per_edge_spec(self, ctx),
            0 <= r,
            self is EloGap || r <= 0x100_0000_0000_0000_0000_0000,
    {
        let g = if ctx.max_group - 1 > 0 {
            ctx.max_group - 1
        } else {
            0
        };
        match self {
            Rule::Rematch => 1,
            Rule::CupPrequalified => 1,
            Rule::AirtightGroups => square_small(ctx.max_mm_gap),
            Rule::ScoreGap => square_small(ctx.max_gap),
            Rule::FloatRepeat => 2 * FLOAT_BASE,
            Rule::FloaterSelection => 2 * g,
            Rule::Club | Rule::Nationality => ctx.max_boards,
            Rule::Fold => 2 * square_small(g),
            Rule::EloGap => {
                let e = ctx.max_elo_gap;
                assert(0 <= e * e) by (nonlinear_arith);
                e * e
            },
            Rule::ByeSelection => if ctx.free_count - 1 > 0 {
                ctx.free_count - 1
            } else {
                0
            },
            Rule::ByeGroup => square_small(ctx.max_gap),
        }
    }

    /// A safe upper bound on the total units this rule can emit across one
    /// round's matching.
    pub fn max_total_units(self, ctx: &Ctx) -> (r: i128)
        requires
            ctx.bounded(),
        ensures
            r == max_total_spec(self, ctx),
            0 <= r,
    {
        let per_edge = self.per_edge_units(ctx);
        // The bye-only rules fire on the one bye of the round, not per edge.
        if let Rule::ByeSelection | Rule::ByeGroup = self {
            return per_edge;
        }
        let edges = ctx.edges;
        if let Rule::EloGap = self {
            assert(per_edge * edges <= i128::MAX);
        } else {
            assert(per_edge * edges <= 0x100_0000_0000_0000_0000_0000_0000_0000) by (nonlinear_arith)
                requires
                    0 <= per_edge <= 0x100_0000_0000_0000_0000_0000,
                    0 <= edges <= 0x1_0000_0000,
            ;
        }
        assert(0 <= per_edge * edges) by (nonlinear_arith)
            requires
                0 <= per_edge,
                0 <= edges,
        ;
        per_edge * edges
    }
}

/// `x²` for a gap of at most `2^33` in magnitude.
fn square_small(x: i128) -> (r: i128)
    requires
        -0x2_0000_0000 <= x <= 0x2_0000_0000,
    ensures
        r == sq(x as int),
        0 <= r <= 0x4_0000_0000_0000_0000,
{
    assert(0 <= x * x <= 0x4_0000_0000_0000_0000) by (nonlinear_arith)
        requires
            -0x2_0000_0000 <= x <= 0x2_0000_0000,
    ;
    x * x
}

/// Whether `k` occurs in `v`.
fn vec_contains_key(v: &Vec<UnitKey>, k: UnitKey) -> (r: bool)
    ensures
        r == v@.contains(k),
{
    let mut i: usize = 0;
    while i < v.len()
        invariant
            i <= v@.len(),
            forall|j: int| 0 <= j < i ==> v@[j] != k,
        decreases v@.len() - i,
    {
        if v[i] == k {
            assert(v@[i as int] == k);
            return true;
        }
        i += 1;
    }
    false
}

/// The ladder's running sum from position `i` down: `Σ_{j≥i} mult[j]·max_total[j]`,
/// where `mult[j] = 1 + ladder_lower(max_total, j + 1)`.
pub open spec fn ladder_lower(max_total: Seq<i128>, i: int) -> int
    decreases max_total.len() - i,
{
    if i < 0 || i >= max_total.len() {
        0
    } else {
        (1 + ladder_lower(max_total, i + 1)) * max_total[i] + ladder_lower(max_total, i + 1)
    }
}

/// The multiplier of the rule at position `i`: one more than the most all
/// lower-priority rules together can ever add.
pub open spec fn ladder_mult(max_total: Seq<i128>, i: int) -> int {
    1 + ladder_lower(max_total, i + 1)
}

/// The ladder for `max_total` fits in `i128`: its largest multiplier and its
/// full sum do.
pub open spec fn ladder_fits(max_total: Seq<i128>) -> bool {
    &&& forall|i: int| 0 <= i < max_total.len() ==> 0 <= #[trigger] max_total[i]
    &&& ladder_lower(max_total, 0) <= i128::MAX
    &&& ladder_mult(max_total, 0) <= i128::MAX
}

/// `Σ_{j≥i} mult[j]·units[j]`: the scalar weight of a per-rule units vector,
/// from position `i` on.
pub open spec fn weighted_from(max_total: Seq<i128>, units: Seq<int>, i: int) -> int
    decreases max_total.len() - i,
{
    if i < 0 || i >= max_total.len() {
        0
    } else {
        ladder_mult(max_total, i) * units[i] + weighted_from(max_total, units, i + 1)
    }
}

/// The scalar weight of a whole per-rule units vector.
pub open spec fn weighted(max_total: Seq<i128>, units: Seq<int>) -> int {
    weighted_from(max_total, units, 0)
}

/// `units` is a per-rule units vector the ladder was built for: one entry per
/// rule, each between 0 and that rule's worst case.
pub open spec fn within_bounds(max_total: Seq<i128>, units: Seq<int>) -> bool {
    &&& units.len() == max_total.len()
    &&& forall|i: int| 0 <= i < units.len() ==> 0 <= #[trigger] units[i] <= max_total[i]
}

/// `u` comes strictly before `v` in priority order: at the first rule where
/// they differ, `u` has fewer units.
pub open spec fn lex_less(u: Seq<int>, v: Seq<int>) -> bool {
    exists|k: int|
        0 <= k < u.len() && k < v.len() && #[trigger] u[k] < v[k] && (forall|j: int|
            0 <= j < k ==> u[j] == v[j])
}

/// Every running sum is non-negative.
proof fn lemma_lower_nonneg(max_total: Seq<i128>, i: int)
    requires
        forall|k: int| 0 <= k < max_total.len() ==> 0 <= #[trigger] max_total[k],
    ensures
        ladder_lower(max_total, i) >= 0,
    decreases max_total.len() - i,
{
    if 0 <= i < max_total.len() {
        lemma_lower_nonneg(max_total, i + 1);
        let m = ladder_mult(max_total, i);
        let t = max_total[i] as int;
        assert(m * t >= 0) by (nonlinear_arith)
            requires
                m >= 1,
                t >= 0,
        ;
    }
}

/// The running sums only shrink going down the ladder, and stay non-negative.
proof fn lemma_lower_monotone(max_total: Seq<i128>, i: int, j: int)
    requires
        forall|k: int| 0 <= k < max_total.len() ==> 0 <= #[trigger] max_total[k],
        0 <= i <= j,
    ensures
        ladder_lower(max_total, i) >= ladder_lower(max_total, j),
        ladder_lower(max_total, j) >= 0,
    decreases j - i,
{
    lemma_lower_nonneg(max_total, j);
    if i < j && i < max_total.len() {
        lemma_lower_monotone(max_total, i + 1, j);
        lemma_lower_nonneg(max_total, i + 1);
        let m = ladder_mult(max_total, i);
        let t = max_total[i] as int;
        assert(m * t >= 0) by (nonlinear_arith)
            requires
                m >= 1,
                t >= 0,
        ;
    }
}

/// A bounded units vector weighs between 0 and the running sum of its suffix.
proof fn lemma_weighted_bounded(max_total: Seq<i128>, units: Seq<int>, i: int)
    requires
        within_bounds(max_total, units),
        0 <= i,
    ensures
        0 <= weighted_from(max_total, units, i) <= ladder_lower(max_total, i),
    decreases max_total.len() - i,
{
    if i < max_total.len() {
        lemma_weighted_bounded(max_total, units, i + 1);
        assert forall|k: int| 0 <= k < max_total.len() implies 0 <= #[trigger] max_total[k] by {
            assert(0 <= units[k] <= max_total[k]);
        }
        lemma_lower_nonneg(max_total, i + 1);
        let m = ladder_mult(max_total, i);
        let u = units[i];
        let t = max_total[i] as int;
        assert(0 <= m * u <= m * t) by (nonlinear_arith)
            requires
                m >= 1,
                0 <= u <= t,
        ;
    }
}

/// Vectors that agree from position `i` on weigh the same from `i` on.
proof fn lemma_weighted_agree(max_total: Seq<i128>, u: Seq<int>, v: Seq<int>, i: int)
    requires
        0 <= i,
        forall|j: int| i <= j < max_total.len() ==> u[j] == v[j],
    ensures
        weighted_from(max_total, u, i) == weighted_from(max_total, v, i),
    decreases max_total.len() - i,
{
    if i < max_total.len() {
        lemma_weighted_agree(max_total, u, v, i + 1);
    }
}

/// Where `u` first falls below `v` at `k` (equal before it), `u` weighs
/// strictly less from every position up to `k`.
proof fn lemma_weighted_first_difference(
    max_total: Seq<i128>,
    u: Seq<int>,
    v: Seq<int>,
    k: int,
    i: int,
)
    requires
        within_bounds(max_total, u),
        within_bounds(max_total, v),
        0 <= i <= k < u.len(),
        u[k] < v[k],
        forall|j: int| 0 <= j < k ==> u[j] == v[j],
    ensures
        weighted_from(max_total, u, i) < weighted_from(max_total, v, i),
    decreases k - i,
{
    if i < k {
        lemma_weighted_first_difference(max_total, u, v, k, i + 1);
        assert(u[i] == v[i]);
    } else {
        lemma_weighted_bounded(max_total, u, k + 1);
        lemma_weighted_bounded(max_total, v, k + 1);
        let m = ladder_mult(max_total, k);
        let a = u[k];
        let b = v[k];
        assert(m * b - m * a >= m) by (nonlinear_arith)
            requires
                m >= 1,
                a < b,
        ;
    }
}

/// From `i` on, where every earlier position agrees and a later one differs,
/// there is a first position where the two differ.
proof fn lemma_first_difference_from(u: Seq<int>, v: Seq<int>, i: int)
    requires
        u.len() == v.len(),
        0 <= i <= u.len(),
        forall|j: int| 0 <= j < i ==> u[j] == v[j],
        exists|j: int| i <= j < u.len() && u[j] != v[j],
    ensures
        exists|k: int|
            0 <= k < u.len() && #[trigger] u[k] != v[k] && (forall|j: int|
                0 <= j < k ==> u[j] == v[j]),
    decreases u.len() - i,
{
    if u[i] != v[i] {
        assert(0 <= i < u.len() && u[i] != v[i] && (forall|j: int| 0 <= j < i ==> u[j] == v[j]));
    } else {
        lemma_first_difference_from(u, v, i + 1);
    }
}

/// The ladder is an exact lexicographic encoding. For two per-rule units
/// vectors within the rules' worst cases, the one with the smaller scalar
/// weight is exactly the one with fewer units at the first
/// (highest-priority) rule where they differ, and two vectors weigh the same
/// only when they are equal: one unit of a rule outweighs everything every
/// lower-priority rule can add.
pub proof fn lemma_ladder_is_lexicographic(max_total: Seq<i128>, u: Seq<int>, v: Seq<int>)
    requires
        within_bounds(max_total, u),
        within_bounds(max_total, v),
    ensures
        weighted(max_total, u) < weighted(max_total, v) <==> lex_less(u, v),
        weighted(max_total, u) == weighted(max_total, v) <==> u == v,
{
    if u =~= v {
        lemma_weighted_agree(max_total, u, v, 0);
        assert(!lex_less(u, v));
    } else {
        assert(exists|j: int| 0 <= j < u.len() && u[j] != v[j]) by {
            if forall|j: int| 0 <= j < u.len() ==> u[j] == v[j] {
                assert(u =~= v);
            }
        }
        lemma_first_difference_from(u, v, 0);
        let k = choose|k: int|
            0 <= k < u.len() && #[trigger] u[k] != v[k] && (forall|j: int|
                0 <= j < k ==> u[j] == v[j]);
        if u[k] < v[k] {
            lemma_weighted_first_difference(max_total, u, v, k, 0);
            assert(lex_less(u, v));
        } else {
            lemma_weighted_first_difference(max_total, v, u, k, 0);
            assert forall|k2: int|
                0 <= k2 < u.len() && k2 < v.len() && #[trigger] u[k2] < v[k2] implies !(forall|
                j: int|
                0 <= j < k2 ==> u[j] == v[j]) by {
                if k2 < k {
                    assert(u[k2] == v[k2]);
                } else if k < k2 {
                    assert(u[k] != v[k]);
                }
            }
        }
    }
}

/// Derive the priority multipliers from each rule's worst-case total units,
/// given in priority order (highest first): bottom-up, `mult[i] = 1 +
/// Σ_{j>i} mult[j]·max_total[j]`.
pub fn scale_ladder(max_total: &[i128]) -> (mult: Vec<i128>)
    requires
        ladder_fits(max_total@),
    ensures
        mult@.len() == max_total@.len(),
        forall|i: int| 0 <= i < mult@.len() ==> #[trigger] mult@[i] == ladder_mult(max_total@, i),
{
    let n = max_total.len();
    let ghost mt = max_total@;
    let mut mult: Vec<i128> = Vec::new();
    let mut j: usize = 0;
    while j < n
        invariant
            j <= n,
            n == mt.len(),
            mult@.len() == j,
        decreases n - j,
    {
        mult.push(0);
        j += 1;
    }
    let mut lower: i128 = 0;
    let mut i: usize = n;
    while i > 0
        invariant
            i <= n,
            n == mt.len(),
            mt == max_total@,
            mult@.len() == n,
            ladder_fits(mt),
            lower == ladder_lower(mt, i as int),
            forall|k: int| i <= k < n ==> #[trigger] mult@[k] == ladder_mult(mt, k),
        decreases i,
    {
        i -= 1;
        proof {
            lemma_lower_monotone(mt, 0, i as int);
            lemma_lower_monotone(mt, i as int, i + 1);
            lemma_lower_monotone(mt, 1, i + 1);
            if i > 0 {
                lemma_lower_monotone(mt, 0, 1);
            }
        }
        let m = 1 + lower;
        let t = max_total[i];
        proof {
            assert(0 <= m * t) by (nonlinear_arith)
                requires
                    m >= 1,
                    t >= 0,
            ;
        }
        mult.set(i, m);
        lower = lower + m * t;
    }
    mult
}

/// [`scale_ladder`] where the ladder may not fit: `None` exactly when it
/// would overflow `i128`.
pub fn checked_scale_ladder(max_total: &[i128]) -> (r: Option<Vec<i128>>)
    requires
        forall|i: int| 0 <= i < max_total@.len() ==> 0 <= #[trigger] max_total@[i],
    ensures
        r is Some <==> ladder_fits(max_total@),
        r matches Some(mult) ==> mult@.len() == max_total@.len() && forall|i: int|
            0 <= i < mult@.len() ==> #[trigger] mult@[i] == ladder_mult(max_total@, i),
{
    let n = max_total.len();
    let ghost mt = max_total@;
    let mut lower: i128 = 0;
    let mut i: usize = n;
    while i > 0
        invariant
            i <= n,
            n == mt.len(),
            mt == max_total@,
            forall|k: int| 0 <= k < mt.len() ==> 0 <= #[trigger] mt[k],
            lower == ladder_lower(mt, i as int),
        decreases i,
    {
        i -= 1;
        proof {
            lemma_lower_monotone(mt, 0, i as int);
            lemma_lower_monotone(mt, i as int, i + 1);
            lemma_lower_monotone(mt, 1, i + 1);
            if i > 0 {
                lemma_lower_monotone(mt, 0, 1);
            }
        }
        let m = match lower.checked_add(1) {
            Some(m) => m,
            None => {
                return None;
            },
        };
        let t = max_total[i];
        proof {
            assert(m * t >= 0) by (nonlinear_arith)
                requires
                    m >= 1,
                    t >= 0,
            ;
        }
        let p = match m.checked_mul(t) {
            Some(p) => p,
            None => {
                return None;
            },
        };
        lower = match lower.checked_add(p) {
            Some(l) => l,
            None => {
                return None;
            },
        };
    }
    proof {
        lemma_lower_monotone(mt, 0, 0);
    }
    let last = lower_after_first(max_total);
    match last {
        Some(_) => Some(scale_ladder(max_total)),
        None => None,
    }
}

/// The top multiplier `1 + ladder_lower(max_total, 1)`, if it fits.
fn lower_after_first(max_total: &[i128]) -> (r: Option<i128>)
    requires
        forall|i: int| 0 <= i < max_total@.len() ==> 0 <= #[trigger] max_total@[i],
        ladder_lower(max_total@, 0) <= i128::MAX,
    ensures
        r is Some <==> ladder_mult(max_total@, 0) <= i128::MAX,
        r matches Some(m) ==> m == ladder_mult(max_total@, 0),
{
    let ghost mt = max_total@;
    proof {
        lemma_lower_monotone(mt, 0, 1);
    }
    if max_total.len() == 0 {
        return Some(1);
    }
    let n = max_total.len();
    let mut lower: i128 = 0;
    let mut i: usize = n;
    while i > 1
        invariant
            1 <= i <= n,
            n == mt.len(),
            mt == max_total@,
            forall|k: int| 0 <= k < mt.len() ==> 0 <= #[trigger] mt[k],
            ladder_lower(mt, 0) <= i128::MAX,
            lower == ladder_lower(mt, i as int),
        decreases i,
    {
        i -= 1;
        proof {
            lemma_lower_monotone(mt, 0, i as int);
            lemma_lower_monotone(mt, i as int, i + 1);
            lemma_lower_monotone(mt, 1, i + 1);
        }
        let m = match lower.checked_add(1) {
            Some(m) => m,
            None => {
                return None;
            },
        };
        let t = max_total[i];
        proof {
            assert(0 <= m * t) by (nonlinear_arith)
                requires
                    m >= 1,
                    t >= 0,
            ;
        }
        lower = lower + m * t;
    }
    lower.checked_add(1)
}

/// `Σ_{j≥i} mult[j]·units[j]`.
pub open spec fn dot_from(mult: Seq<i128>, units: Seq<int>, i: int) -> int
    decreases mult.len() - i,
{
    if i < 0 || i >= mult.len() {
        0
    } else {
        mult[i] * units[i] + dot_from(mult, units, i + 1)
    }
}

/// Every term of `Σ mult[j]·units[j]` is non-negative and the whole sum fits in
/// `i128`, so summing it in any order stays in range.
pub open spec fn dot_fits(mult: Seq<i128>, units: Seq<int>) -> bool {
    &&& units.len() == mult.len()
    &&& forall|j: int| 0 <= j < mult.len() ==> 0 <= #[trigger] (mult[j] * units[j])
    &&& dot_from(mult, units, 0) <= i128::MAX
}

/// The per-rule units of pairing `a` against `b`, in rule order.
pub open spec fn edge_units_seq(rules: Seq<Rule>, ctx: &Ctx, a: UnitKey, b: UnitKey) -> Seq<int> {
    rules.map_values(|r: Rule| edge_units_spec(r, ctx, a, b))
}

/// The per-rule units of giving `unit` the bye, in rule order.
pub open spec fn bye_units_seq(rules: Seq<Rule>, ctx: &Ctx, unit: UnitKey) -> Seq<int> {
    rules.map_values(|r: Rule| bye_units_spec(r, ctx, unit))
}

/// The per-rule worst cases of a round, in rule order.
pub open spec fn max_totals_seq(rules: Seq<Rule>, ctx: &Ctx) -> Seq<int> {
    rules.map_values(|r: Rule| max_total_spec(r, ctx))
}

/// Suffix sums of non-negative terms shrink going right and stay non-negative.
proof fn lemma_dot_suffix(mult: Seq<i128>, units: Seq<int>, i: int, j: int)
    requires
        forall|k: int| 0 <= k < mult.len() ==> 0 <= #[trigger] (mult[k] * units[k]),
        0 <= j <= i,
    ensures
        0 <= dot_from(mult, units, i) <= dot_from(mult, units, j),
    decreases mult.len() - j,
{
    if j < mult.len() {
        if j < i {
            lemma_dot_suffix(mult, units, i, j + 1);
        } else {
            lemma_dot_suffix(mult, units, i + 1, i + 1);
        }
    }
}

/// With the ladder's own multipliers, the dot product is the ladder weight, and
/// for units within the worst cases it fits whenever the ladder does.
pub proof fn lemma_ladder_weight_fits(max_total: Seq<i128>, mult: Seq<i128>, units: Seq<int>)
    requires
        ladder_fits(max_total),
        mult.len() == max_total.len(),
        forall|i: int| 0 <= i < mult.len() ==> #[trigger] mult[i] == ladder_mult(max_total, i),
        within_bounds(max_total, units),
    ensures
        dot_fits(mult, units),
        dot_from(mult, units, 0) == weighted(max_total, units),
{
    lemma_dot_is_weighted(max_total, mult, units, 0);
    lemma_weighted_bounded(max_total, units, 0);
    assert forall|j: int| 0 <= j < mult.len() implies 0 <= #[trigger] (mult[j] * units[j]) by {
        lemma_lower_nonneg(max_total, j + 1);
        let m = mult[j] as int;
        let u = units[j];
        assert(0 <= m * u) by (nonlinear_arith)
            requires
                m >= 1,
                u >= 0,
        ;
    }
}

/// The dot product with the ladder's multipliers is the ladder weight.
proof fn lemma_dot_is_weighted(max_total: Seq<i128>, mult: Seq<i128>, units: Seq<int>, i: int)
    requires
        mult.len() == max_total.len(),
        forall|k: int| 0 <= k < mult.len() ==> #[trigger] mult[k] == ladder_mult(max_total, k),
        0 <= i,
    ensures
        dot_from(mult, units, i) == weighted_from(max_total, units, i),
    decreases mult.len() - i,
{
    if i < mult.len() {
        lemma_dot_is_weighted(max_total, mult, units, i + 1);
    }
}

/// Total edge weight for pairing `a` against `b`: `Σ mult[rule]·units` over
/// the given rules.
pub fn edge_cost(ctx: &Ctx, rules: &[Rule], mult: &[i128], a: UnitKey, b: UnitKey) -> (r: i128)
    requires
        ctx.scorable(a),
        ctx.scorable(b),
        ctx.bounded(),
        rules@.len() == mult@.len(),
        dot_fits(mult@, edge_units_seq(rules@, ctx, a, b)),
        forall|i: int|
            0 <= i < rules@.len() ==> (#[trigger] rules@[i] is EloGap ==> sq(ctx.unit(a).elo - ctx.unit(b).elo) <= i128::MAX),
    ensures
        r == dot_from(mult@, edge_units_seq(rules@, ctx, a, b), 0),
{
    let ghost units = edge_units_seq(rules@, ctx, a, b);
    let mut acc: i128 = 0;
    let mut i: usize = rules.len();
    while i > 0
        invariant
            i <= rules@.len(),
            rules@.len() == mult@.len(),
            units == edge_units_seq(rules@, ctx, a, b),
            dot_fits(mult@, units),
            ctx.scorable(a),
            ctx.scorable(b),
            ctx.bounded(),
            forall|i: int|
                0 <= i < rules@.len() ==> (#[trigger] rules@[i] is EloGap ==> sq(ctx.unit(a).elo - ctx.unit(b).elo) <= i128::MAX),
            acc == dot_from(mult@, units, i as int),
        decreases i,
    {
        i -= 1;
        let u = rules[i].edge_units(ctx, a, b);
        proof {
            lemma_dot_suffix(mult@, units, i as int, 0);
            assert(units[i as int] == u);
            assert(0 <= mult@[i as int] * units[i as int]);
            lemma_dot_suffix(mult@, units, i + 1, i as int);
        }
        acc = acc + mult[i] * u;
    }
    acc
}

/// Total edge weight for giving `unit` the bye, over the given rules.
pub fn bye_cost(ctx: &Ctx, rules: &[Rule], mult: &[i128], unit: UnitKey) -> (r: i128)
    requires
        ctx.scorable(unit),
        ctx.bounded(),
        0 <= ctx.elo_rank@[unit.0 as int],
        rules@.len() == mult@.len(),
        dot_fits(mult@, bye_units_seq(rules@, ctx, unit)),
    ensures
        r == dot_from(mult@, bye_units_seq(rules@, ctx, unit), 0),
{
    let ghost units = bye_units_seq(rules@, ctx, unit);
    let mut acc: i128 = 0;
    let mut i: usize = rules.len();
    while i > 0
        invariant
            i <= rules@.len(),
            rules@.len() == mult@.len(),
            units == bye_units_seq(rules@, ctx, unit),
            dot_fits(mult@, units),
            ctx.scorable(unit),
            ctx.bounded(),
            0 <= ctx.elo_rank@[unit.0 as int],
            acc == dot_from(mult@, units, i as int),
        decreases i,
    {
        i -= 1;
        let u = rules[i].bye_units(ctx, unit);
        proof {
            lemma_dot_suffix(mult@, units, i as int, 0);
            assert(units[i as int] == u);
            lemma_dot_suffix(mult@, units, i + 1, i as int);
        }
        acc = acc + mult[i] * u;
    }
    acc
}

impl<'a> Ctx<'a> {
    /// `a` and `b` lie within the spreads the round's bounds were read off:
    /// their score and MacMahon gaps, and their board counts, are no wider than
    /// the context records, and the matching has at least one edge.
    pub open spec fn spans(&self, a: UnitKey, b: UnitKey) -> bool {
        let sa = self.unit(a);
        let sb = self.unit(b);
        &&& abs(sa.points.0 - sb.points.0) <= self.max_gap
        &&& abs(sa.macmahon.0 - sb.macmahon.0) <= self.max_mm_gap
        &&& sa.clubs@.len() <= self.max_boards && sb.clubs@.len() <= self.max_boards
        &&& sa.nationalities@.len() <= self.max_boards
        &&& sb.nationalities@.len() <= self.max_boards
        &&& 1 <= self.edges
    }

    /// The ELO gap between `a` and `b` is no wider than the context records.
    pub open spec fn spans_elo(&self, a: UnitKey, b: UnitKey) -> bool {
        abs(self.unit(a).elo - self.unit(b).elo) <= self.max_elo_gap
    }

    /// `unit` lies within the spreads the bye-only rules' bounds were read off:
    /// its score is between the lowest and the lowest plus the widest gap, and
    /// its ELO rank is below the number of free units.
    pub open spec fn spans_bye(&self, unit: UnitKey) -> bool {
        let s = self.unit(unit);
        &&& self.min_points <= s.points.0 <= self.min_points + self.max_gap
        &&& 0 <= self.elo_rank@[unit.0 as int] < self.free_count
        &&& 1 <= self.edges
    }
}

/// A float-repeat term is between 0 and [`FLOAT_BASE`].
proof fn lemma_float_units_bounded(last: Option<u32>, round: u32)
    requires
        last matches Some(k) ==> k < round,
    ensures
        0 <= float_units_spec(last, round) <= 720,
{
    if let Some(k) = last {
        let d = round - k;
        assert(0 <= 720int / d <= 720) by (nonlinear_arith)
            requires
                d >= 1,
        ;
    }
}

/// A shared-affiliation count is between 0 and the positions compared.
proof fn lemma_shared_count_bounded(
    a: Seq<Option<String>>,
    b: Seq<Option<String>>,
    exempt: Seq<Seq<char>>,
    n: int,
)
    ensures
        0 <= shared_count(a, b, exempt, n) <= if n < 0 {
            0
        } else {
            n
        },
    decreases n,
{
    if n > 0 {
        lemma_shared_count_bounded(a, b, exempt, n - 1);
    }
}

/// `x² ≤ y²` when `|x| ≤ y`.
proof fn lemma_sq_le(x: int, y: int)
    requires
        abs(x) <= y,
    ensures
        0 <= sq(x) <= sq(y),
{
    assert(0 <= x * x <= y * y) by (nonlinear_arith)
        requires
            -y <= x <= y,
    ;
}

/// The worst case each rule's ladder tier reserves really is a worst case: for
/// two scorable units within the round's spreads, the units a rule emits on
/// their edge are between 0 and the rule's per-edge bound, and hence within the
/// rule's whole-round total.
pub proof fn lemma_edge_units_within_worst_case(rule: Rule, ctx: &Ctx, a: UnitKey, b: UnitKey)
    requires
        ctx.scorable(a),
        ctx.scorable(b),
        ctx.bounded(),
        ctx.spans(a, b),
        rule is EloGap ==> ctx.spans_elo(a, b),
    ensures
        0 <= edge_units_spec(rule, ctx, a, b) <= per_edge_spec(rule, ctx),
        0 <= edge_units_spec(rule, ctx, a, b) <= max_total_spec(rule, ctx),
{
    let sa = ctx.unit(a);
    let sb = ctx.unit(b);
    let g: int = if ctx.max_group >= 1 {
        ctx.max_group - 1
    } else {
        0
    };
    match rule {
        Rule::AirtightGroups => {
            lemma_sq_le(sa.macmahon.0 - sb.macmahon.0, ctx.max_mm_gap as int);
        },
        Rule::ScoreGap => {
            lemma_sq_le(sa.points.0 - sb.points.0, ctx.max_gap as int);
        },
        Rule::FloatRepeat => {
            lemma_float_units_bounded(sa.last_ascended, ctx.round);
            lemma_float_units_bounded(sa.last_descended, ctx.round);
            lemma_float_units_bounded(sb.last_ascended, ctx.round);
            lemma_float_units_bounded(sb.last_descended, ctx.round);
        },
        Rule::FloaterSelection => {
            lemma_floater_units_bounded(ctx, a, true);
            lemma_floater_units_bounded(ctx, a, false);
            lemma_floater_units_bounded(ctx, b, true);
            lemma_floater_units_bounded(ctx, b, false);
        },
        Rule::Club => {
            lemma_shared_count_bounded(
                sa.clubs@,
                sb.clubs@,
                views(ctx.exempt_clubs@),
                min_len(sa.clubs@.len() as int, sb.clubs@.len() as int),
            );
        },
        Rule::Nationality => {
            lemma_shared_count_bounded(
                sa.nationalities@,
                sb.nationalities@,
                views(ctx.exempt_nationalities@),
                min_len(sa.nationalities@.len() as int, sb.nationalities@.len() as int),
            );
        },
        Rule::Fold => {
            if sa.points.0 == sb.points.0 {
                if let (Some(fa), Some(fb)) = (ctx.fold@[a.0 as int], ctx.fold@[b.0 as int]) {
                    let ia = ideal_rank_spec(fa.rank as int, fa.group_size as int);
                    let ib = ideal_rank_spec(fb.rank as int, fb.group_size as int);
                    lemma_sq_le(fb.rank - ia, g);
                    lemma_sq_le(fa.rank - ib, g);
                }
            }
        },
        Rule::EloGap => {
            lemma_sq_le(sa.elo - sb.elo, ctx.max_elo_gap as int);
        },
        _ => {},
    }
    let e = edge_units_spec(rule, ctx, a, b);
    let p = per_edge_spec(rule, ctx);
    let n = ctx.edges as int;
    assert(p <= p * n) by (nonlinear_arith)
        requires
            0 <= p,
            1 <= n,
    ;
    if let Rule::Fold = rule {
        lemma_sq_le(g, g);
    }
}

/// A floater term is between 0 and one less than the largest group.
proof fn lemma_floater_units_bounded(ctx: &Ctx, id: UnitKey, descending: bool)
    requires
        ctx.scorable(id),
        ctx.bounded(),
    ensures
        0 <= floater_units_spec(ctx, id, descending) <= if ctx.max_group >= 1 {
            ctx.max_group - 1
        } else {
            0
        },
{
}

/// Likewise for the bye: for a scorable unit within the round's spreads, the
/// units a rule emits on its bye are between 0 and the rule's worst case.
pub proof fn lemma_bye_units_within_worst_case(rule: Rule, ctx: &Ctx, unit: UnitKey)
    requires
        ctx.scorable(unit),
        ctx.bounded(),
        ctx.spans_bye(unit),
    ensures
        0 <= bye_units_spec(rule, ctx, unit) <= per_edge_spec(rule, ctx),
        0 <= bye_units_spec(rule, ctx, unit) <= max_total_spec(rule, ctx),
{
    let s = ctx.unit(unit);
    let g: int = if ctx.max_group >= 1 {
        ctx.max_group - 1
    } else {
        0
    };
    match rule {
        Rule::ByeGroup => {
            lemma_sq_le(s.points.0 - ctx.min_points, ctx.max_gap as int);
        },
        Rule::FloatRepeat => {
            lemma_float_units_bounded(s.last_descended, ctx.round);
        },
        Rule::FloaterSelection => {
            lemma_floater_units_bounded(ctx, unit, true);
        },
        Rule::AirtightGroups => {
            lemma_sq_le(0, ctx.max_mm_gap as int);
        },
        Rule::ScoreGap => {
            lemma_sq_le(0, ctx.max_gap as int);
        },
        Rule::Fold => {
            lemma_sq_le(0, g);
        },
        Rule::EloGap => {
            lemma_sq_le(0, ctx.max_elo_gap as int);
        },
        _ => {},
    }
    let p = per_edge_spec(rule, ctx);
    let n = ctx.edges as int;
    assert(p <= p * n) by (nonlinear_arith)
        requires
            0 <= p,
            1 <= n,
    ;
}

/// `j` sorts ahead of `k` in a fold group: higher fold rating first, ties by
/// key.
pub open spec fn fold_before(units: Seq<PairingUnit>, j: UnitKey, k: UnitKey) -> bool {
    let rj = fold_rating_of(units[j.0 as int]);
    let rk = fold_rating_of(units[k.0 as int]);
    rj > rk || (rj == rk && j.0 < k.0)
}

/// How many of the first `n` free units share `k`'s points.
pub open spec fn group_count(units: Seq<PairingUnit>, free: Seq<UnitKey>, k: UnitKey, n: int) -> int
    decreases n,
{
    if n <= 0 {
        0
    } else {
        group_count(units, free, k, n - 1) + if units[free[n - 1].0 as int].points
            == units[k.0 as int].points {
            1int
        } else {
            0int
        }
    }
}

/// How many of the first `n` free units share `k`'s points and sort ahead of
/// it.
pub open spec fn ahead_count(units: Seq<PairingUnit>, free: Seq<UnitKey>, k: UnitKey, n: int) -> int
    decreases n,
{
    if n <= 0 {
        0
    } else {
        ahead_count(units, free, k, n - 1) + if units[free[n - 1].0 as int].points
            == units[k.0 as int].points && fold_before(units, free[n - 1], k) {
            1int
        } else {
            0int
        }
    }
}

/// The fold placement of `k` among the `free` units: its rank within its score
/// group and the group's size, or `None` when it is not free.
pub open spec fn fold_info_of(units: Seq<PairingUnit>, free: Seq<UnitKey>, k: UnitKey) -> Option<
    FoldInfo,
> {
    if free.contains(k) {
        Some(
            FoldInfo {
                rank: ahead_count(units, free, k, free.len() as int) as usize,
                group_size: group_count(units, free, k, free.len() as int) as usize,
            },
        )
    } else {
        None
    }
}

/// The counts never exceed the units looked at, and `k` itself, once seen,
/// counts in its group but not ahead of itself.
pub proof fn lemma_fold_counts(units: Seq<PairingUnit>, free: Seq<UnitKey>, k: UnitKey, n: int)
    requires
        0 <= n <= free.len(),
    ensures
        0 <= ahead_count(units, free, k, n) <= group_count(units, free, k, n) <= n,
        free.subrange(0, n).contains(k) ==> ahead_count(units, free, k, n) < group_count(
            units,
            free,
            k,
            n,
        ),
    decreases n,
{
    if n > 0 {
        lemma_fold_counts(units, free, k, n - 1);
        if free.subrange(0, n).contains(k) {
            let i = choose|i: int| 0 <= i < n && #[trigger] free.subrange(0, n)[i] == k;
            if i < n - 1 {
                assert(free.subrange(0, n - 1)[i] == k);
            }
        }
    }
}

/// Fold ranks for the `free` units, grouped by points and ranked within each
/// group by fold rating (descending; unrated = 1), ties broken by unit key.
pub fn fold_ranks(units: &TiVec<UnitKey, PairingUnit>, free: &[UnitKey]) -> (r: Vec<Option<FoldInfo>>)
    requires
        free@.no_duplicates(),
        forall|i: int| 0 <= i < free@.len() ==> (#[trigger] free@[i].0 as int) < unit_rows(
            *units,
        ).len(),
    ensures
        r@.len() == unit_rows(*units).len(),
        forall|k: UnitKey|
            (k.0 as int) < r@.len() ==> #[trigger] r@[k.0 as int] == fold_info_of(
                unit_rows(*units),
                free@,
                k,
            ),
        forall|k: UnitKey|
            #[trigger] free@.contains(k) ==> (r@[k.0 as int] matches Some(f) && f.rank
                < f.group_size && f.group_size <= free@.len()),
{
    let ghost rows = unit_rows(*units);
    let n = unit_count(units);
    let mut info: Vec<Option<FoldInfo>> = Vec::new();
    let mut i: usize = 0;
    while i < n
        invariant
            i <= n,
            n == rows.len(),
            info@.len() == i,
            forall|j: int| 0 <= j < i ==> info@[j] is None,
        decreases n - i,
    {
        info.push(None);
        i += 1;
    }
    let mut idx: usize = 0;
    while idx < free.len()
        invariant
            idx <= free@.len(),
            n == rows.len(),
            rows == unit_rows(*units),
            info@.len() == n,
            free@.no_duplicates(),
            forall|i: int| 0 <= i < free@.len() ==> (#[trigger] free@[i].0 as int) < rows.len(),
            forall|k: UnitKey|
                (k.0 as int) < n ==> #[trigger] info@[k.0 as int] == if free@.subrange(
                    0,
                    idx as int,
                ).contains(k) {
                    fold_info_of(rows, free@, k)
                } else {
                    None
                },
        decreases free@.len() - idx,
    {
        let k = free[idx];
        let sk = unit_at(units, k);
        let rk = sk.fold_rating();
        let mut group: usize = 0;
        let mut ahead: usize = 0;
        let mut j: usize = 0;
        while j < free.len()
            invariant
                j <= free@.len(),
                rows == unit_rows(*units),
                *sk == rows[k.0 as int],
                rk == fold_rating_of(rows[k.0 as int]),
                forall|i: int| 0 <= i < free@.len() ==> (#[trigger] free@[i].0 as int) < rows.len(),
                group == group_count(rows, free@, k, j as int),
                ahead == ahead_count(rows, free@, k, j as int),
            decreases free@.len() - j,
        {
            proof {
                lemma_fold_counts(rows, free@, k, j as int);
            }
            let kj = free[j];
            let sj = unit_at(units, kj);
            if sj.points.0 == sk.points.0 {
                group += 1;
                let rj = sj.fold_rating();
                if rj > rk || (rj == rk && kj.0 < k.0) {
                    ahead += 1;
                }
            }
            j += 1;
        }
        let ghost before = info@;
        info.set(k.index(), Some(FoldInfo { rank: ahead, group_size: group }));
        proof {
            assert(free@.contains(k)) by {
                assert(free@[idx as int] == k);
            }
            assert forall|k2: UnitKey| (k2.0 as int) < n implies #[trigger] info@[k2.0 as int]
                == if free@.subrange(0, idx + 1).contains(k2) {
                fold_info_of(rows, free@, k2)
            } else {
                None
            } by {
                if k2 == k {
                    assert(free@.subrange(0, idx + 1)[idx as int] == k);
                } else {
                    assert(info@[k2.0 as int] == before[k2.0 as int]);
                    if free@.subrange(0, idx + 1).contains(k2) {
                        let p = choose|p: int| 0 <= p < idx + 1 && #[trigger] free@.subrange(0, idx + 1)[p] == k2;
                        assert(p < idx);
                        assert(free@.subrange(0, idx as int)[p] == k2);
                    }
                    if free@.subrange(0, idx as int).contains(k2) {
                        let p = choose|p: int| 0 <= p < idx && #[trigger] free@.subrange(0, idx as int)[p] == k2;
                        assert(free@.subrange(0, idx + 1)[p] == k2);
                    }
                }
            }
        }
        idx += 1;
    }
    proof {
        assert(free@.subrange(0, free@.len() as int) =~= free@);
        assert forall|k: UnitKey| #[trigger] free@.contains(k) implies (info@[k.0 as int] matches Some(
            f,
        ) && f.rank < f.group_size && f.group_size <= free@.len()) by {
            let p = choose|p: int| 0 <= p < free@.len() && #[trigger] free@[p] == k;
            assert(free@[p] == k);
            lemma_fold_counts(rows, free@, k, free@.len() as int);
        }
    }
    info
}

/// Two scoring contexts read alike: the same units and per-round quantities,
/// the same fold placement and ELO rank at every key inside the table, and
/// the same exemptions.
pub open spec fn reads_alike(c1: &Ctx, c2: &Ctx) -> bool {
    let n = unit_rows(*c1.units).len();
    &&& unit_rows(*c1.units) == unit_rows(*c2.units)
    &&& forall|k: UnitKey|
        (k.0 as int) < n ==> #[trigger] c1.fold@[k.0 as int] == c2.fold@[k.0 as int] && c1.elo_rank@[k.0 as int]
            == c2.elo_rank@[k.0 as int]
    &&& c1.round == c2.round
    &&& c1.floater_style == c2.floater_style
    &&& views(c1.exempt_clubs@) == views(c2.exempt_clubs@)
    &&& views(c1.exempt_nationalities@) == views(c2.exempt_nationalities@)
    &&& c1.edges == c2.edges
    &&& c1.max_gap == c2.max_gap
    &&& c1.min_points == c2.min_points
    &&& c1.max_mm_gap == c2.max_mm_gap
    &&& c1.max_group == c2.max_group
    &&& c1.free_count == c2.free_count
    &&& c1.max_boards == c2.max_boards
    &&& c1.max_elo_gap == c2.max_elo_gap
}

/// Contexts that read alike score every in-table edge and bye alike, and
/// bound every rule alike.
pub proof fn lemma_alike_contexts_score_alike(c1: &Ctx, c2: &Ctx)
    requires
        reads_alike(c1, c2),
    ensures
        forall|rules: Seq<Rule>, a: UnitKey, b: UnitKey|
            (a.0 as int) < unit_rows(*c1.units).len() && (b.0 as int) < unit_rows(*c1.units).len() ==> #[trigger] edge_units_seq(
                rules,
                c1,
                a,
                b,
            ) == edge_units_seq(rules, c2, a, b),
        forall|rules: Seq<Rule>, u: UnitKey|
            (u.0 as int) < unit_rows(*c1.units).len() ==> #[trigger] bye_units_seq(rules, c1, u) == bye_units_seq(
                rules,
                c2,
                u,
            ),
        forall|rules: Seq<Rule>| #[trigger] max_totals_seq(rules, c1) == max_totals_seq(rules, c2),
{
    let n = unit_rows(*c1.units).len();
    assert forall|rules: Seq<Rule>, a: UnitKey, b: UnitKey|
        (a.0 as int) < n && (b.0 as int) < n implies #[trigger] edge_units_seq(rules, c1, a, b) == edge_units_seq(
        rules,
        c2,
        a,
        b,
    ) by {
        assert(c1.fold@[a.0 as int] == c2.fold@[a.0 as int]);
        assert(c1.fold@[b.0 as int] == c2.fold@[b.0 as int]);
        assert forall|i: int| 0 <= i < rules.len() implies edge_units_spec(rules[i], c1, a, b) == edge_units_spec(
            rules[i],
            c2,
            a,
            b,
        ) by {
            assert(floater_units_spec(c1, a, true) == floater_units_spec(c2, a, true));
            assert(floater_units_spec(c1, a, false) == floater_units_spec(c2, a, false));
            assert(floater_units_spec(c1, b, true) == floater_units_spec(c2, b, true));
            assert(floater_units_spec(c1, b, false) == floater_units_spec(c2, b, false));
        }
        assert(edge_units_seq(rules, c1, a, b) =~= edge_units_seq(rules, c2, a, b));
    }
    assert forall|rules: Seq<Rule>, u: UnitKey|
        (u.0 as int) < n implies #[trigger] bye_units_seq(rules, c1, u) == bye_units_seq(rules, c2, u) by {
        assert(c1.fold@[u.0 as int] == c2.fold@[u.0 as int]);
        assert(floater_units_spec(c1, u, true) == floater_units_spec(c2, u, true));
        assert(bye_units_seq(rules, c1, u) =~= bye_units_seq(rules, c2, u));
    }
    assert forall|rules: Seq<Rule>| #[trigger] max_totals_seq(rules, c1) == max_totals_seq(rules, c2) by {
        assert(max_totals_seq(rules, c1) =~= max_totals_seq(rules, c2));
    }
}

/// Aligned clashes are counted alike from either side.
proof fn lemma_shared_count_symmetric(a: Seq<Option<String>>, b: Seq<Option<String>>, exempt: Seq<Seq<char>>, n: int)
    ensures
        shared_count(a, b, exempt, n) == shared_count(b, a, exempt, n),
    decreases n,
{
    if n > 0 {
        lemma_shared_count_symmetric(a, b, exempt, n - 1);
    }
}

/// Every rule scores an edge the same whichever of its two units comes
/// first, given that each lists the other as an opponent exactly when the
/// other does.
pub proof fn lemma_edge_units_symmetric(rule: Rule, ctx: &Ctx, a: UnitKey, b: UnitKey)
    requires
        ctx.unit(a).opponents@.contains(b) == ctx.unit(b).opponents@.contains(a),
    ensures
        edge_units_spec(rule, ctx, a, b) == edge_units_spec(rule, ctx, b, a),
{
    let sa = ctx.unit(a);
    let sb = ctx.unit(b);
    match rule {
        Rule::Club => {
            lemma_shared_count_symmetric(sa.clubs@, sb.clubs@, views(ctx.exempt_clubs@), min_len(sa.clubs@.len() as int, sb.clubs@.len() as int));
            assert(min_len(sa.clubs@.len() as int, sb.clubs@.len() as int) == min_len(sb.clubs@.len() as int, sa.clubs@.len() as int));
        },
        Rule::Nationality => {
            lemma_shared_count_symmetric(
                sa.nationalities@,
                sb.nationalities@,
                views(ctx.exempt_nationalities@),
                min_len(sa.nationalities@.len() as int, sb.nationalities@.len() as int),
            );
            assert(min_len(sa.nationalities@.len() as int, sb.nationalities@.len() as int) == min_len(
                sb.nationalities@.len() as int,
                sa.nationalities@.len() as int,
            ));
        },
        Rule::AirtightGroups => {
            assert(sq(sa.macmahon.0 - sb.macmahon.0) == sq(sb.macmahon.0 - sa.macmahon.0)) by (nonlinear_arith);
        },
        Rule::ScoreGap => {
            assert(sq(sa.points.0 - sb.points.0) == sq(sb.points.0 - sa.points.0)) by (nonlinear_arith);
        },
        Rule::EloGap => {
            assert(sq(sa.elo - sb.elo) == sq(sb.elo - sa.elo)) by (nonlinear_arith);
        },
        _ => {},
    }
}

/// The cup rule charges a board exactly when both its players are
/// pre-qualified — one unit then, none as soon as either side still has to
/// qualify — and never charges a bye.
pub proof fn lemma_cup_rule_charges_only_two_prequalified(ctx: &Ctx, a: UnitKey, b: UnitKey)
    ensures
        (ctx.unit(a).prequalified && ctx.unit(b).prequalified) ==> edge_units_spec(Rule::CupPrequalified, ctx, a, b) == 1,
        (!ctx.unit(a).prequalified || !ctx.unit(b).prequalified) ==> edge_units_spec(Rule::CupPrequalified, ctx, a, b) == 0,
        bye_units_spec(Rule::CupPrequalified, ctx, a) == 0,
{
}

/// What each rule charges a board between `a` and `b`: a rematch one unit
/// exactly when they have met; the score rules the square of the gap they
/// measure (MacMahon start for airtight groups, score for the score gap,
/// ELO for the ELO gap), so nothing between equals; the float and floater
/// rules nothing between equal scores, and the fold nothing between
/// different scores; the bye-only rules nothing on a board.
pub proof fn lemma_rules_charge_what_they_measure(ctx: &Ctx, a: UnitKey, b: UnitKey)
    ensures
        edge_units_spec(Rule::Rematch, ctx, a, b) == (if ctx.unit(a).opponents@.contains(b) { 1int } else { 0int }),
        edge_units_spec(Rule::ScoreGap, ctx, a, b) == (ctx.unit(a).points.0 - ctx.unit(b).points.0) * (
        ctx.unit(a).points.0 - ctx.unit(b).points.0),
        edge_units_spec(Rule::AirtightGroups, ctx, a, b) == (ctx.unit(a).macmahon.0 - ctx.unit(b).macmahon.0) * (
        ctx.unit(a).macmahon.0 - ctx.unit(b).macmahon.0),
        edge_units_spec(Rule::EloGap, ctx, a, b) == (ctx.unit(a).elo - ctx.unit(b).elo) * (ctx.unit(a).elo
            - ctx.unit(b).elo),
        ctx.unit(a).points.0 == ctx.unit(b).points.0 ==> edge_units_spec(Rule::FloatRepeat, ctx, a, b) == 0
            && edge_units_spec(Rule::FloaterSelection, ctx, a, b) == 0 && edge_units_spec(Rule::ScoreGap, ctx, a, b) == 0,
        ctx.unit(a).points.0 != ctx.unit(b).points.0 ==> edge_units_spec(Rule::Fold, ctx, a, b) == 0
            && edge_units_spec(Rule::ScoreGap, ctx, a, b) > 0,
        edge_units_spec(Rule::ByeGroup, ctx, a, b) == 0,
        edge_units_spec(Rule::ByeSelection, ctx, a, b) == 0,
{
    let d = ctx.unit(a).points.0 - ctx.unit(b).points.0;
    if d != 0 {
        assert(d * d > 0) by (nonlinear_arith)
            requires
                d != 0,
        ;
    }
}

/// What each rule charges giving `u` the bye: a rematch one unit exactly
/// when `u` already had a bye; the bye group the squared distance of `u`'s
/// score from the lowest; the float rule a repeated downfloat; the ELO bye
/// rule `u`'s ascending ELO rank (so the weakest is cheapest); every rule
/// that only weighs boards nothing.
pub proof fn lemma_bye_rules_charge_what_they_measure(ctx: &Ctx, u: UnitKey)
    ensures
        bye_units_spec(Rule::Rematch, ctx, u) == (if ctx.unit(u).had_bye { 1int } else { 0int }),
        bye_units_spec(Rule::ByeGroup, ctx, u) == (ctx.unit(u).points.0 - ctx.min_points) * (ctx.unit(u).points.0
            - ctx.min_points),
        bye_units_spec(Rule::FloatRepeat, ctx, u) == float_units_spec(ctx.unit(u).last_descended, ctx.round),
        bye_units_spec(Rule::ByeSelection, ctx, u) == ctx.elo_rank@[u.0 as int],
        bye_units_spec(Rule::CupPrequalified, ctx, u) == 0,
        bye_units_spec(Rule::AirtightGroups, ctx, u) == 0,
        bye_units_spec(Rule::ScoreGap, ctx, u) == 0,
        bye_units_spec(Rule::Club, ctx, u) == 0,
        bye_units_spec(Rule::Nationality, ctx, u) == 0,
        bye_units_spec(Rule::Fold, ctx, u) == 0,
        bye_units_spec(Rule::EloGap, ctx, u) == 0,
{
}

/// A float-repeat term: nothing for a unit that never floated that way, and
/// otherwise a penalty that starts at 720 for a float in the previous round
/// and shrinks as the float recedes.
pub proof fn lemma_float_penalty_decays(k: u32, j: u32, round: u32)
    requires
        k < round,
        j <= k,
    ensures
        float_units_spec(None, round) == 0,
        k + 1 == round ==> float_units_spec(Some(k), round) == 720,
        float_units_spec(Some(j), round) <= float_units_spec(Some(k), round),
        float_units_spec(Some(k), round) > 0 ==> float_units_spec(Some(k), round) <= 720,
{
    let dk = round - k;
    let dj = round - j;
    assert(dk >= 1 && dj >= dk);
    assert(720int / 1 == 720);
    assert(720int / dj <= 720int / dk) by (nonlinear_arith)
        requires
            dj >= dk >= 1,
    ;
    assert(720int / dk <= 720) by (nonlinear_arith)
        requires
            dk >= 1,
    ;
}

/// The priority order of the rules: never a rematch comes first; the bye
/// group and airtight groups outrank the score gap; the float rules come
/// next; club protection outranks nationality protection (so when only one
/// can be honoured, the club clash is the one avoided); the fold weighs
/// least. ELO pairing keeps the rematch, cup and bye rules ahead of the ELO
/// gap.
pub proof fn lemma_rule_priorities()
    ensures
        swiss_rules().len() == 10,
        swiss_rules()[0] == Rule::Rematch,
        swiss_rules()[1] == Rule::CupPrequalified,
        swiss_rules()[2] == Rule::ByeGroup,
        swiss_rules()[3] == Rule::AirtightGroups,
        swiss_rules()[4] == Rule::ScoreGap,
        swiss_rules()[5] == Rule::FloatRepeat,
        swiss_rules()[6] == Rule::FloaterSelection,
        swiss_rules()[7] == Rule::Club,
        swiss_rules()[8] == Rule::Nationality,
        swiss_rules()[9] == Rule::Fold,
        elo_rules() == seq![Rule::Rematch, Rule::CupPrequalified, Rule::ByeSelection, Rule::EloGap],
{
}

/// The affiliation rules count aligned clashes: at most one per board
/// position; nothing where a side's affiliation is unknown; and on a single
/// board, a clash exactly when both sides name the same affiliation and it
/// is not exempt.
pub proof fn lemma_affiliation_clashes(a: Seq<Option<String>>, b: Seq<Option<String>>, exempt: Seq<Seq<char>>, x: String, y: String)
    ensures
        0 <= shared_units_spec(a, b, exempt) <= min_len(a.len() as int, b.len() as int),
        (forall|i: int| 0 <= i < a.len() ==> #[trigger] a[i] is None) ==> shared_units_spec(a, b, exempt) == 0,
        shared_units_spec(seq![Some(x)], seq![Some(y)], exempt) == (if x@ == y@ && !exempt.contains(x@) { 1int } else { 0int }),
        shared_units_spec(seq![Some(x)], seq![None::<String>], exempt) == 0,
{
    lemma_shared_count_bounds(a, b, exempt, min_len(a.len() as int, b.len() as int));
    let one = seq![Some(x)];
    let other = seq![Some(y)];
    assert(shared_count(one, other, exempt, 0) == 0);
    assert(shared_count(one, seq![None::<String>], exempt, 0) == 0);
}

/// Between 0 and `n` clashes over the first `n` positions, none where `a`
/// names nothing.
proof fn lemma_shared_count_bounds(a: Seq<Option<String>>, b: Seq<Option<String>>, exempt: Seq<Seq<char>>, n: int)
    requires
        n <= a.len(),
    ensures
        0 <= shared_count(a, b, exempt, n) <= if n > 0 { n } else { 0 },
        (forall|i: int| 0 <= i < a.len() ==> #[trigger] a[i] is None) ==> shared_count(a, b, exempt, n) == 0,
    decreases n,
{
    if n > 0 {
        lemma_shared_count_bounds(a, b, exempt, n - 1);
    }
}

/// The fold pairs the top half of a score group against the bottom half:
/// rank `r` of a group of `g` ideally meets rank `r + g/2` in the top half
/// and `r − g/2` in the bottom; on an even group the two ideals mirror each
/// other, and a board between mirrored ranks costs the fold nothing.
pub proof fn lemma_fold_pairs_top_half_with_bottom(r: int, g: int, ctx: &Ctx, a: UnitKey, b: UnitKey)
    requires
        0 <= r < g,
    ensures
        r < g / 2 ==> ideal_rank_spec(r, g) == r + g / 2,
        r >= g / 2 ==> ideal_rank_spec(r, g) == r - g / 2,
        g % 2 == 0 ==> ideal_rank_spec(ideal_rank_spec(r, g), g) == r,
        (ctx.unit(a).points.0 == ctx.unit(b).points.0 && ctx.fold@[a.0 as int] is Some && ctx.fold@[b.0 as int] is Some
            && ctx.fold@[b.0 as int]->Some_0.rank == ideal_rank_spec(
            ctx.fold@[a.0 as int]->Some_0.rank as int,
            ctx.fold@[a.0 as int]->Some_0.group_size as int,
        ) && ctx.fold@[a.0 as int]->Some_0.rank == ideal_rank_spec(
            ctx.fold@[b.0 as int]->Some_0.rank as int,
            ctx.fold@[b.0 as int]->Some_0.group_size as int,
        )) ==> edge_units_spec(Rule::Fold, ctx, a, b) == 0,
{
    assert(sq(0) == 0);
}

/// Which unit a score group should float: classic Swiss sends down its
/// weakest and up its strongest, median Swiss the middle of the group either
/// way; the floater rule costs nothing exactly for that unit, and one unit
/// more per rank away from it.
pub proof fn lemma_floater_choice(ctx: &Ctx, id: UnitKey, descending: bool)
    requires
        ctx.fold@[id.0 as int] is Some,
    ensures
        ({
            let f = ctx.fold@[id.0 as int]->Some_0;
            let ideal: int = match ctx.floater_style {
                FloaterStyle::Classic => if descending { f.group_size - 1 } else { 0 },
                FloaterStyle::Median => f.group_size as int / 2,
            };
            f.group_size >= 1 ==> floater_units_spec(ctx, id, descending) == if f.rank >= ideal {
                f.rank - ideal
            } else {
                ideal - f.rank
            }
        }),
{
}

/// Within a score group the fold ranks by rating, strongest first (ties by
/// key): a unit that sorts ahead of another in the same group gets a
/// strictly smaller rank.
pub proof fn lemma_fold_ranks_follow_rating(units: Seq<PairingUnit>, free: Seq<UnitKey>, j: UnitKey, k: UnitKey)
    requires
        free.contains(j),
        free.contains(k),
        units[j.0 as int].points == units[k.0 as int].points,
        fold_before(units, j, k),
        free.len() < usize::MAX,
    ensures
        fold_info_of(units, free, j)->Some_0.rank < fold_info_of(units, free, k)->Some_0.rank,
        fold_info_of(units, free, j)->Some_0.group_size == fold_info_of(units, free, k)->Some_0.group_size,
{
    lemma_ahead_counts(units, free, j, k, free.len() as int);
    lemma_group_counts_same(units, free, j, k, free.len() as int);
    lemma_fold_counts(units, free, j, free.len() as int);
    lemma_fold_counts(units, free, k, free.len() as int);
    assert(free.subrange(0, free.len() as int) =~= free);
}

/// Every unit ahead of `j` is ahead of `k`, and so is `j` itself.
proof fn lemma_ahead_counts(units: Seq<PairingUnit>, free: Seq<UnitKey>, j: UnitKey, k: UnitKey, n: int)
    requires
        0 <= n <= free.len(),
        units[j.0 as int].points == units[k.0 as int].points,
        fold_before(units, j, k),
    ensures
        ahead_count(units, free, k, n) >= ahead_count(units, free, j, n) + if free.subrange(0, n).contains(j) {
            1int
        } else {
            0int
        },
    decreases n,
{
    if n > 0 {
        lemma_ahead_counts(units, free, j, k, n - 1);
        let x = free[n - 1];
        let pre = free.subrange(0, n - 1);
        let now = free.subrange(0, n);
        assert(now == pre.push(x));
        if now.contains(j) && !pre.contains(j) {
            let i = choose|i: int| 0 <= i < now.len() && now[i] == j;
            if i < n - 1 {
                assert(pre[i] == j);
            }
        }
        if pre.contains(j) {
            let i = choose|i: int| 0 <= i < pre.len() && pre[i] == j;
            assert(now[i] == j);
        }
    }
}

/// Units of one score group count the same group.
proof fn lemma_group_counts_same(units: Seq<PairingUnit>, free: Seq<UnitKey>, j: UnitKey, k: UnitKey, n: int)
    requires
        units[j.0 as int].points == units[k.0 as int].points,
    ensures
        group_count(units, free, j, n) == group_count(units, free, k, n),
    decreases n,
{
    if n > 0 {
        lemma_group_counts_same(units, free, j, k, n - 1);
    }
}

} // verus!
