//! What the engine is handed, and the per-round model it derives from it.

use vstd::prelude::*;

use typed_index_collections::TiVec;

use crate::player::Player;
use crate::round::Round;
use crate::scoring::{
    compute_scores, estimate_at, lemma_replayed_points_fit, replay_fits, replayed, start_base,
    start_fits, start_halves, tid_of, PlayerScore,
};
use crate::settings::{
    airtight_active, club_active, exempt_clubs_of, exempt_nationalities_of, floater_style_of,
    mm_from_estimate, nationality_active, views, wiel_of, FloaterStyle, TournamentSettings,
};
use crate::tables::{score_rows, unit_at, unit_count, unit_rows, unit_table};
use crate::text::{lowercase, trim};
use crate::units::{HalfPoints, TournamentId, UnitKey};

use super::rules::{
    active_rules, bye_cost, bye_units_seq, bye_units_spec, checked_scale_ladder, edge_cost,
    edge_units_seq, edge_units_spec, elo_rules, floats_predate, fold_info_of, fold_ranks,
    group_count, ladder_fits, ladder_mult, lemma_bye_units_within_worst_case,
    lemma_edge_units_within_worst_case, lemma_fold_counts, lemma_ladder_weight_fits,
    lemma_alike_contexts_score_alike, max_total_spec, max_totals_seq, reads_alike, swiss_rules,
    sq, weighted, within_bounds, Ctx, FoldInfo, Rule,
};

verus! {

/// Everything the engine needs to know about one pairable unit: a player in
/// an individual tournament, a team in a team one.
#[derive(Debug, Clone)]
pub struct PairingUnit {
    /// Total score entering the round.
    pub points: HalfPoints,
    /// MacMahon starting points alone (the airtight-groups rule's quantity).
    pub macmahon: HalfPoints,
    /// Units faced so far, one entry per game.
    pub opponents: Vec<UnitKey>,
    /// Whether this unit has already had a bye (or a no-show's free point).
    pub had_bye: bool,
    /// Round of the most recent up / down float, `None` if never.
    pub last_ascended: Option<u32>,
    pub last_descended: Option<u32>,
    /// What the fold sorts on; `None` for unrated (sorts as rating 1).
    pub rating: Option<u32>,
    /// Normalized clubs in board order (one per board).
    pub clubs: Vec<Option<String>>,
    /// Normalized nationalities in board order (one per board).
    pub nationalities: Vec<Option<String>>,
    /// Whether this unit is a pre-qualified cup entrant this round.
    pub prequalified: bool,
    /// (ELO mode) Rounded live ELO estimate; zero in every other mode.
    pub elo: i64,
}

/// What the fold sorts by: the rating, with unrated as 1.
pub open spec fn fold_rating_of(u: PairingUnit) -> u32 {
    match u.rating {
        Some(r) => r,
        None => 1,
    }
}

impl PairingUnit {
    /// A unit with nothing recorded — what a table gap holds.
    pub fn blank() -> (r: PairingUnit)
        ensures
            r.points.0 == 0 && r.macmahon.0 == 0 && r.opponents@.len() == 0 && !r.had_bye
                && r.last_ascended is None && r.last_descended is None && r.rating is None
                && r.clubs@.len() == 0 && r.nationalities@.len() == 0 && !r.prequalified && r.elo
                == 0,
    {
        PairingUnit {
            points: HalfPoints(0),
            macmahon: HalfPoints(0),
            opponents: Vec::new(),
            had_bye: false,
            last_ascended: None,
            last_descended: None,
            rating: None,
            clubs: Vec::new(),
            nationalities: Vec::new(),
            prequalified: false,
            elo: 0,
        }
    }

    /// What the fold sorts by: the rating, with unrated as 1 so it sorts last.
    pub fn fold_rating(&self) -> (r: u32)
        ensures
            r == fold_rating_of(*self),
    {
        match self.rating {
            Some(r) => r,
            None => 1,
        }
    }
}

/// `v` is the least of `vals` (or `empty` when there are none).
pub open spec fn lowest(vals: Seq<int>, v: int, empty: int) -> bool {
    if vals.len() == 0 {
        v == empty
    } else {
        &&& forall|i: int| 0 <= i < vals.len() ==> v <= #[trigger] vals[i]
        &&& exists|i: int| 0 <= i < vals.len() && #[trigger] vals[i] == v
    }
}

/// `v` is the greatest of `vals` (or `empty` when there are none).
pub open spec fn highest(vals: Seq<int>, v: int, empty: int) -> bool {
    if vals.len() == 0 {
        v == empty
    } else {
        &&& forall|i: int| 0 <= i < vals.len() ==> #[trigger] vals[i] <= v
        &&& exists|i: int| 0 <= i < vals.len() && #[trigger] vals[i] == v
    }
}

/// The points of the `free` units, in order.
pub open spec fn points_of(rows: Seq<PairingUnit>, free: Seq<UnitKey>) -> Seq<int> {
    free.map_values(|k: UnitKey| rows[k.0 as int].points.0 as int)
}

/// The MacMahon points of the `free` units, in order.
pub open spec fn macmahon_of(rows: Seq<PairingUnit>, free: Seq<UnitKey>) -> Seq<int> {
    free.map_values(|k: UnitKey| rows[k.0 as int].macmahon.0 as int)
}

/// The ELO estimates of the `free` units, in order.
pub open spec fn elos_of(rows: Seq<PairingUnit>, free: Seq<UnitKey>) -> Seq<int> {
    free.map_values(|k: UnitKey| rows[k.0 as int].elo as int)
}

/// The board counts of the `free` units, in order.
pub open spec fn boards_of(rows: Seq<PairingUnit>, free: Seq<UnitKey>) -> Seq<int> {
    free.map_values(|k: UnitKey| rows[k.0 as int].clubs@.len() as int)
}

/// `j` ranks below `k` by ELO: lower estimate, ties by key.
pub open spec fn elo_below(rows: Seq<PairingUnit>, j: UnitKey, k: UnitKey) -> bool {
    rows[j.0 as int].elo < rows[k.0 as int].elo || (rows[j.0 as int].elo == rows[k.0 as int].elo
        && j.0 < k.0)
}

/// How many of the first `n` free units rank below `k` by ELO.
pub open spec fn below_count(rows: Seq<PairingUnit>, free: Seq<UnitKey>, k: UnitKey, n: int) -> int
    decreases n,
{
    if n <= 0 {
        0
    } else {
        below_count(rows, free, k, n - 1) + if elo_below(rows, free[n - 1], k) {
            1int
        } else {
            0int
        }
    }
}

/// The ascending ELO rank of `k` among the free units (0 = weakest); 0 for a
/// unit that is not free.
pub open spec fn elo_rank_of(rows: Seq<PairingUnit>, free: Seq<UnitKey>, k: UnitKey) -> int {
    if free.contains(k) {
        below_count(rows, free, k, free.len() as int)
    } else {
        0
    }
}

/// Whether `rule` can contribute anything this round: its window or
/// protection is on, there are pre-qualified units for the cup rule, and a bye
/// is in play for the bye-only rules.
pub open spec fn in_play(
    rule: Rule,
    settings: TournamentSettings,
    number: u32,
    rows: Seq<PairingUnit>,
    free: Seq<UnitKey>,
    need_phantom: bool,
) -> bool {
    match rule {
        Rule::AirtightGroups => airtight_active(settings, number),
        Rule::Club => club_active(settings, number),
        Rule::Nationality => nationality_active(settings, number),
        Rule::CupPrequalified => exists|i: int|
            0 <= i < free.len() && #[trigger] rows[free[i].0 as int].prequalified,
        Rule::ByeGroup | Rule::ByeSelection => need_phantom,
        _ => true,
    }
}

/// The rules in effect this round, highest priority first.
pub open spec fn rules_in_play(
    settings: TournamentSettings,
    number: u32,
    rows: Seq<PairingUnit>,
    free: Seq<UnitKey>,
    need_phantom: bool,
) -> Seq<Rule> {
    let all = if settings.pairing is Elo {
        elo_rules()
    } else {
        swiss_rules()
    };
    all.filter(in_play_pred(settings, number, rows, free, need_phantom))
}

/// [`in_play`] as a predicate over rules.
pub open spec fn in_play_pred(
    settings: TournamentSettings,
    number: u32,
    rows: Seq<PairingUnit>,
    free: Seq<UnitKey>,
    need_phantom: bool,
) -> spec_fn(Rule) -> bool {
    |r: Rule| in_play(r, settings, number, rows, free, need_phantom)
}

/// One round's scoring context, built once and reused for pairing,
/// explanation and the counterfactuals.
pub struct PairingModel<'u> {
    pub units: &'u TiVec<UnitKey, PairingUnit>,
    pub fold: Vec<Option<FoldInfo>>,
    pub exempt_clubs: Vec<String>,
    pub exempt_nationalities: Vec<String>,
    pub elo_rank: Vec<i128>,
    pub round: u32,
    pub floater_style: FloaterStyle,
    pub edges: i128,
    pub max_gap: i128,
    pub min_points: i128,
    pub max_mm_gap: i128,
    pub max_group: i128,
    pub free_count: i128,
    pub max_boards: i128,
    pub max_elo_gap: i128,
    pub rules: Vec<Rule>,
    pub mult: Vec<i128>,
    /// Each rule's worst-case units over the round, the ladder's input.
    pub max_total: Vec<i128>,
    /// The units the matching pairs.
    pub free: Ghost<Seq<UnitKey>>,
    /// Whether a bye vertex takes part.
    pub need_phantom: bool,
    /// Whether the ELO rule set is the one in effect.
    pub elo_mode: bool,
}

impl<'u> PairingModel<'u> {
    /// The scoring context this model lends.
    pub open spec fn model_ctx(&self) -> Ctx<'_> {
        Ctx {
            units: self.units,
            fold: &self.fold,
            round: self.round,
            floater_style: self.floater_style,
            exempt_clubs: &self.exempt_clubs,
            exempt_nationalities: &self.exempt_nationalities,
            edges: self.edges,
            max_gap: self.max_gap,
            min_points: self.min_points,
            max_mm_gap: self.max_mm_gap,
            max_group: self.max_group,
            free_count: self.free_count,
            max_boards: self.max_boards,
            elo_rank: &self.elo_rank,
            max_elo_gap: self.max_elo_gap,
        }
    }

    /// `k` is one of the units the matching pairs.
    pub open spec fn is_free(&self, k: UnitKey) -> bool {
        self.free@.contains(k)
    }

    /// The model is internally consistent: every free unit is scorable and
    /// within the round's spreads, every rule's worst case is its bound under
    /// this context, and the multipliers are the ladder over those worst cases.
    pub open spec fn wf(&self) -> bool {
        let ctx = self.model_ctx();
        &&& self.wf_base()
        &&& self.rules@.len() == self.mult@.len()
        &&& self.rules@.len() == self.max_total@.len()
        &&& forall|i: int|
            0 <= i < self.rules@.len() ==> #[trigger] self.max_total@[i] == max_total_spec(
                self.rules@[i],
                &ctx,
            )
        &&& ladder_fits(self.max_total@)
        &&& forall|i: int|
            0 <= i < self.mult@.len() ==> #[trigger] self.mult@[i] == ladder_mult(
                self.max_total@,
                i,
            )
    }

    /// What [`Self::wf`] asks of everything but the ladder.
    pub open spec fn wf_base(&self) -> bool {
        let ctx = self.model_ctx();
        &&& ctx.bounded()
        &&& forall|k: UnitKey| #[trigger] self.is_free(k) ==> ctx.scorable(k)
        &&& forall|a: UnitKey, b: UnitKey|
            #[trigger] self.is_free(a) && #[trigger] self.is_free(b) && a != b ==> ctx.spans(a, b)
        &&& self.elo_mode ==> forall|a: UnitKey, b: UnitKey|
            #[trigger] self.is_free(a) && #[trigger] self.is_free(b) ==> ctx.spans_elo(a, b)
        &&& forall|i: int|
            0 <= i < self.rules@.len() ==> (#[trigger] self.rules@[i] is EloGap ==> self.elo_mode)
        &&& self.need_phantom ==> forall|k: UnitKey| #[trigger] self.is_free(k) ==> ctx.spans_bye(k)
    }

    /// A scoring context borrowing this model's data.
    pub fn ctx(&self) -> (c: Ctx<'_>)
        ensures
            c == self.model_ctx(),
    {
        Ctx {
            units: self.units,
            fold: &self.fold,
            round: self.round,
            floater_style: self.floater_style,
            exempt_clubs: &self.exempt_clubs,
            exempt_nationalities: &self.exempt_nationalities,
            edges: self.edges,
            max_gap: self.max_gap,
            min_points: self.min_points,
            max_mm_gap: self.max_mm_gap,
            max_group: self.max_group,
            free_count: self.free_count,
            max_boards: self.max_boards,
            elo_rank: &self.elo_rank,
            max_elo_gap: self.max_elo_gap,
        }
    }

    /// The rules in effect, highest priority first.
    pub fn rules(&self) -> (r: &[Rule])
        ensures
            r@ == self.rules@,
    {
        self.rules.as_slice()
    }

    /// The per-rule units of an edge between two distinct free units are
    /// within the rules' worst cases.
    pub proof fn lemma_edge_within(&self, a: UnitKey, b: UnitKey)
        requires
            self.wf(),
            self.is_free(a),
            self.is_free(b),
            a != b,
        ensures
            within_bounds(self.max_total@, edge_units_seq(self.rules@, &self.model_ctx(), a, b)),
    {
        let ctx = self.model_ctx();
        let u = edge_units_seq(self.rules@, &ctx, a, b);
        assert forall|i: int| 0 <= i < u.len() implies 0 <= #[trigger] u[i] <= self.max_total@[i] by {
            let r = self.rules@[i];
            assert(r is EloGap ==> self.elo_mode);
            lemma_edge_units_within_worst_case(r, &ctx, a, b);
        }
    }

    /// The per-rule units of a free unit's bye are within the rules' worst
    /// cases.
    pub proof fn lemma_bye_within(&self, k: UnitKey)
        requires
            self.wf(),
            self.need_phantom,
            self.is_free(k),
        ensures
            within_bounds(self.max_total@, bye_units_seq(self.rules@, &self.model_ctx(), k)),
    {
        let ctx = self.model_ctx();
        let u = bye_units_seq(self.rules@, &ctx, k);
        assert forall|i: int| 0 <= i < u.len() implies 0 <= #[trigger] u[i] <= self.max_total@[i] by {
            lemma_bye_units_within_worst_case(self.rules@[i], &ctx, k);
        }
    }

    /// Scalar edge weight for pairing free unit `a` against free unit `b`: the
    /// ladder weight of their per-rule units.
    pub fn edge_cost(&self, a: UnitKey, b: UnitKey) -> (r: i128)
        requires
            self.wf(),
            self.is_free(a),
            self.is_free(b),
            a != b,
        ensures
            r == weighted(self.max_total@, edge_units_seq(self.rules@, &self.model_ctx(), a, b)),
    {
        let ctx = self.ctx();
        proof {
            self.lemma_edge_within(a, b);
            lemma_ladder_weight_fits(
                self.max_total@,
                self.mult@,
                edge_units_seq(self.rules@, &ctx, a, b),
            );
            assert forall|i: int| 0 <= i < self.rules@.len() implies (#[trigger] self.rules@[i] is EloGap
                ==> sq(ctx.unit(a).elo - ctx.unit(b).elo) <= i128::MAX) by {
                if self.rules@[i] is EloGap {
                    assert(self.elo_mode);
                    assert(ctx.spans_elo(a, b));
                    let d = ctx.unit(a).elo - ctx.unit(b).elo;
                    let g = ctx.max_elo_gap as int;
                    assert(sq(d) <= sq(g)) by (nonlinear_arith)
                        requires
                            -g <= d <= g,
                    ;
                }
            }
        }
        edge_cost(&ctx, &self.rules, &self.mult, a, b)
    }

    /// Scalar edge weight for giving free unit `unit` the bye.
    pub fn bye_cost(&self, unit: UnitKey) -> (r: i128)
        requires
            self.wf(),
            self.need_phantom,
            self.is_free(unit),
        ensures
            r == weighted(self.max_total@, bye_units_seq(self.rules@, &self.model_ctx(), unit)),
    {
        let ctx = self.ctx();
        proof {
            self.lemma_bye_within(unit);
            lemma_ladder_weight_fits(
                self.max_total@,
                self.mult@,
                bye_units_seq(self.rules@, &ctx, unit),
            );
        }
        bye_cost(&ctx, &self.rules, &self.mult, unit)
    }

    /// Per-rule penalty units for pairing `a` against `b`, in rule order.
    pub fn edge_units(&self, a: UnitKey, b: UnitKey) -> (r: Vec<i128>)
        requires
            self.wf(),
            self.is_free(a),
            self.is_free(b),
        ensures
            r@.len() == self.rules@.len(),
            forall|i: int|
                0 <= i < r@.len() ==> #[trigger] r@[i] == edge_units_seq(
                    self.rules@,
                    &self.model_ctx(),
                    a,
                    b,
                )[i],
    {
        let ctx = self.ctx();
        let mut out: Vec<i128> = Vec::new();
        let mut i: usize = 0;
        while i < self.rules.len()
            invariant
                i <= self.rules@.len(),
                out@.len() == i,
                ctx == self.model_ctx(),
                ctx.scorable(a),
                ctx.scorable(b),
                ctx.bounded(),
                self.wf(),
                self.is_free(a),
                self.is_free(b),
                forall|j: int|
                    0 <= j < i ==> #[trigger] out@[j] == edge_units_seq(self.rules@, &ctx, a, b)[j],
            decreases self.rules@.len() - i,
        {
            proof {
                if self.rules@[i as int] is EloGap {
                    assert(self.elo_mode);
                    assert(ctx.spans_elo(a, b));
                    let d = ctx.unit(a).elo - ctx.unit(b).elo;
                    let g = ctx.max_elo_gap as int;
                    assert(sq(d) <= sq(g)) by (nonlinear_arith)
                        requires
                            -g <= d <= g,
                    ;
                }
            }
            out.push(self.rules[i].edge_units(&ctx, a, b));
            i += 1;
        }
        out
    }

    /// Per-rule penalty units for giving `unit` the bye, in rule order.
    pub fn bye_units(&self, unit: UnitKey) -> (r: Vec<i128>)
        requires
            self.wf(),
            self.need_phantom,
            self.is_free(unit),
        ensures
            r@.len() == self.rules@.len(),
            forall|i: int|
                0 <= i < r@.len() ==> #[trigger] r@[i] == bye_units_seq(
                    self.rules@,
                    &self.model_ctx(),
                    unit,
                )[i],
    {
        let ctx = self.ctx();
        let mut out: Vec<i128> = Vec::new();
        let mut i: usize = 0;
        while i < self.rules.len()
            invariant
                i <= self.rules@.len(),
                out@.len() == i,
                ctx == self.model_ctx(),
                ctx.scorable(unit),
                ctx.bounded(),
                0 <= ctx.elo_rank@[unit.0 as int],
                forall|j: int|
                    0 <= j < i ==> #[trigger] out@[j] == bye_units_seq(self.rules@, &ctx, unit)[j],
            decreases self.rules@.len() - i,
        {
            out.push(self.rules[i].bye_units(&ctx, unit));
            i += 1;
        }
        out
    }
}

impl<'u> PairingModel<'u> {
    /// Every field is what the round's inputs call for: the fold, ELO ranks
    /// and exemptions, each spread read off the free units, and the rules in
    /// play with their worst cases.
    pub open spec fn derived_from(
        &self,
        number: u32,
        settings: TournamentSettings,
        units: &TiVec<UnitKey, PairingUnit>,
        free: Seq<UnitKey>,
        need_phantom: bool,
    ) -> bool {
        let ctx = self.model_ctx();
        &&& self.derived_base(number, settings, units, free, need_phantom)
        &&& self.max_total@.len() == self.rules@.len()
        &&& forall|i: int|
            0 <= i < self.rules@.len() ==> #[trigger] self.max_total@[i] == max_total_spec(
                self.rules@[i],
                &ctx,
            )
    }

    /// What [`Self::derived_from`] asks of everything but the worst cases.
    pub open spec fn derived_base(
        &self,
        number: u32,
        settings: TournamentSettings,
        units: &TiVec<UnitKey, PairingUnit>,
        free: Seq<UnitKey>,
        need_phantom: bool,
    ) -> bool {
        let rows = unit_rows(*units);
        &&& *self.units == *units
        &&& self.free@ == free
        &&& self.need_phantom == need_phantom
        &&& self.elo_mode == settings.pairing is Elo
        &&& self.round == number
        &&& self.floater_style == floater_style_of(settings)
        &&& views(self.exempt_clubs@) == exempt_clubs_of(settings)
        &&& views(self.exempt_nationalities@) == exempt_nationalities_of(settings)
        &&& self.fold@.len() == rows.len()
        &&& forall|k: UnitKey|
            (k.0 as int) < rows.len() ==> #[trigger] self.fold@[k.0 as int] == fold_info_of(
                rows,
                free,
                k,
            )
        &&& self.elo_rank@.len() == rows.len()
        &&& forall|k: UnitKey|
            (k.0 as int) < rows.len() ==> #[trigger] self.elo_rank@[k.0 as int] == if self.elo_mode {
                elo_rank_of(rows, free, k)
            } else {
                0
            }
        &&& self.edges == (free.len() + if need_phantom {
            1int
        } else {
            0int
        }) / 2
        &&& self.free_count == free.len()
        &&& exists|lo: int, hi: int|
            lowest(points_of(rows, free), lo, u32::MAX as int) && highest(points_of(rows, free), hi, 0)
                && self.min_points == lo && self.max_gap == if hi > lo {
                hi - lo
            } else {
                0
            }
        &&& exists|lo: int, hi: int|
            lowest(macmahon_of(rows, free), lo, u32::MAX as int) && highest(
                macmahon_of(rows, free),
                hi,
                0,
            ) && self.max_mm_gap == if hi > lo {
                hi - lo
            } else {
                0
            }
        &&& (self.elo_mode ==> exists|lo: int, hi: int|
            lowest(elos_of(rows, free), lo, i64::MAX as int) && highest(
                elos_of(rows, free),
                hi,
                i64::MIN as int,
            ) && self.max_elo_gap == if hi > lo {
                hi - lo
            } else {
                0
            })
        &&& (!self.elo_mode ==> self.max_elo_gap == 0)
        &&& highest(
            free.map_values(|k: UnitKey| group_count(rows, free, k, free.len() as int)),
            self.max_group as int,
            0,
        )
        &&& highest(boards_of(rows, free), self.max_boards as int, 0)
        &&& self.rules@ == rules_in_play(settings, number, rows, free, need_phantom)
    }
}

/// The lowest and highest points and MacMahon points among the free units.
fn score_spread(units: &TiVec<UnitKey, PairingUnit>, free: &[UnitKey]) -> (r: (u32, u32, u32, u32))
    requires
        forall|i: int| 0 <= i < free@.len() ==> (#[trigger] free@[i].0 as int) < unit_rows(
            *units,
        ).len(),
    ensures
        lowest(points_of(unit_rows(*units), free@), r.0 as int, u32::MAX as int),
        highest(points_of(unit_rows(*units), free@), r.1 as int, 0),
        lowest(macmahon_of(unit_rows(*units), free@), r.2 as int, u32::MAX as int),
        highest(macmahon_of(unit_rows(*units), free@), r.3 as int, 0),
{
    let ghost rows = unit_rows(*units);
    let ghost ps = points_of(rows, free@);
    let ghost ms = macmahon_of(rows, free@);
    let mut lo: u32 = u32::MAX;
    let mut hi: u32 = 0;
    let mut mm_lo: u32 = u32::MAX;
    let mut mm_hi: u32 = 0;
    let mut i: usize = 0;
    while i < free.len()
        invariant
            i <= free@.len(),
            rows == unit_rows(*units),
            ps == points_of(rows, free@),
            ms == macmahon_of(rows, free@),
            forall|j: int| 0 <= j < free@.len() ==> (#[trigger] free@[j].0 as int) < rows.len(),
            forall|j: int| 0 <= j < i ==> lo <= #[trigger] ps[j] && ps[j] <= hi,
            forall|j: int| 0 <= j < i ==> mm_lo <= #[trigger] ms[j] && ms[j] <= mm_hi,
            i == 0 ==> lo == u32::MAX && hi == 0 && mm_lo == u32::MAX && mm_hi == 0,
            i > 0 ==> exists|j: int| 0 <= j < i && #[trigger] ps[j] == lo,
            i > 0 ==> exists|j: int| 0 <= j < i && #[trigger] ps[j] == hi,
            i > 0 ==> exists|j: int| 0 <= j < i && #[trigger] ms[j] == mm_lo,
            i > 0 ==> exists|j: int| 0 <= j < i && #[trigger] ms[j] == mm_hi,
        decreases free@.len() - i,
    {
        let s = unit_at(units, free[i]);
        let p = s.points.0;
        let m = s.macmahon.0;
        assert(ps[i as int] == p);
        assert(ms[i as int] == m);
        if i == 0 || p < lo {
            lo = p;
        }
        if i == 0 || p > hi {
            hi = p;
        }
        if i == 0 || m < mm_lo {
            mm_lo = m;
        }
        if i == 0 || m > mm_hi {
            mm_hi = m;
        }
        i += 1;
    }
    (lo, hi, mm_lo, mm_hi)
}

/// Below-counts never exceed the units looked at, and `k`, once seen, does not
/// rank below itself.
proof fn lemma_below_counts(rows: Seq<PairingUnit>, free: Seq<UnitKey>, k: UnitKey, n: int)
    requires
        0 <= n <= free.len(),
    ensures
        0 <= below_count(rows, free, k, n) <= n,
        free.subrange(0, n).contains(k) ==> below_count(rows, free, k, n) < n,
    decreases n,
{
    if n > 0 {
        lemma_below_counts(rows, free, k, n - 1);
        if free.subrange(0, n).contains(k) {
            let i = choose|i: int| 0 <= i < n && #[trigger] free.subrange(0, n)[i] == k;
            if i < n - 1 {
                assert(free.subrange(0, n - 1)[i] == k);
            } else {
                assert(free[n - 1] == k);
            }
        }
    }
}

/// (ELO mode) Each unit's ascending ELO rank among the free units (0 for any
/// other unit), and the widest ELO gap among the free units.
fn elo_ranks(units: &TiVec<UnitKey, PairingUnit>, free: &[UnitKey]) -> (r: (Vec<i128>, i128))
    requires
        free@.no_duplicates(),
        forall|i: int| 0 <= i < free@.len() ==> (#[trigger] free@[i].0 as int) < unit_rows(
            *units,
        ).len(),
    ensures
        r.0@.len() == unit_rows(*units).len(),
        forall|k: UnitKey|
            (k.0 as int) < r.0@.len() ==> #[trigger] r.0@[k.0 as int] == elo_rank_of(
                unit_rows(*units),
                free@,
                k,
            ),
        forall|k: UnitKey| #[trigger] free@.contains(k) ==> r.0@[k.0 as int] < free@.len(),
        exists|lo: int, hi: int|
            lowest(elos_of(unit_rows(*units), free@), lo, i64::MAX as int) && highest(
                elos_of(unit_rows(*units), free@),
                hi,
                i64::MIN as int,
            ) && r.1 == if hi > lo {
                hi - lo
            } else {
                0
            },
        0 <= r.1,
{
    let ghost rows = unit_rows(*units);
    let n = unit_count(units);
    let mut rank: Vec<i128> = Vec::new();
    let mut i: usize = 0;
    while i < n
        invariant
            i <= n,
            n == rows.len(),
            rank@.len() == i,
            forall|j: int| 0 <= j < i ==> rank@[j] == 0,
        decreases n - i,
    {
        rank.push(0);
        i += 1;
    }
    let mut idx: usize = 0;
    while idx < free.len()
        invariant
            idx <= free@.len(),
            n == rows.len(),
            rows == unit_rows(*units),
            rank@.len() == n,
            free@.no_duplicates(),
            forall|i: int| 0 <= i < free@.len() ==> (#[trigger] free@[i].0 as int) < rows.len(),
            forall|k: UnitKey|
                (k.0 as int) < n ==> #[trigger] rank@[k.0 as int] == if free@.subrange(
                    0,
                    idx as int,
                ).contains(k) {
                    elo_rank_of(rows, free@, k)
                } else {
                    0
                },
        decreases free@.len() - idx,
    {
        let k = free[idx];
        let ek = unit_at(units, k).elo;
        let mut below: i128 = 0;
        let mut j: usize = 0;
        while j < free.len()
            invariant
                j <= free@.len(),
                rows == unit_rows(*units),
                ek == rows[k.0 as int].elo,
                forall|i: int| 0 <= i < free@.len() ==> (#[trigger] free@[i].0 as int) < rows.len(),
                below == below_count(rows, free@, k, j as int),
            decreases free@.len() - j,
        {
            proof {
                lemma_below_counts(rows, free@, k, j as int);
            }
            let kj = free[j];
            let ej = unit_at(units, kj).elo;
            if ej < ek || (ej == ek && kj.0 < k.0) {
                below += 1;
            }
            j += 1;
        }
        let ghost before = rank@;
        proof {
            assert(free@.contains(k)) by {
                assert(free@[idx as int] == k);
            }
        }
        rank.set(k.index(), below);
        proof {
            assert forall|k2: UnitKey| (k2.0 as int) < n implies #[trigger] rank@[k2.0 as int]
                == if free@.subrange(0, idx + 1).contains(k2) {
                elo_rank_of(rows, free@, k2)
            } else {
                0
            } by {
                if k2 == k {
                    assert(free@.subrange(0, idx + 1)[idx as int] == k);
                } else {
                    assert(rank@[k2.0 as int] == before[k2.0 as int]);
                    if free@.subrange(0, idx + 1).contains(k2) {
                        let p = choose|p: int|
                            0 <= p < idx + 1 && #[trigger] free@.subrange(0, idx + 1)[p] == k2;
                        assert(free@.subrange(0, idx as int)[p] == k2);
                    }
                    if free@.subrange(0, idx as int).contains(k2) {
                        let p = choose|p: int|
                            0 <= p < idx && #[trigger] free@.subrange(0, idx as int)[p] == k2;
                        assert(free@.subrange(0, idx + 1)[p] == k2);
                    }
                }
            }
        }
        idx += 1;
    }
    proof {
        assert(free@.subrange(0, free@.len() as int) =~= free@);
        assert forall|k: UnitKey| #[trigger] free@.contains(k) implies rank@[k.0 as int] < free@.len() by {
            let p = choose|p: int| 0 <= p < free@.len() && #[trigger] free@[p] == k;
            lemma_below_counts(rows, free@, k, free@.len() as int);
        }
    }
    let ghost es = elos_of(rows, free@);
    let mut lo: i64 = i64::MAX;
    let mut hi: i64 = i64::MIN;
    let mut i: usize = 0;
    while i < free.len()
        invariant
            i <= free@.len(),
            rows == unit_rows(*units),
            es == elos_of(rows, free@),
            forall|j: int| 0 <= j < free@.len() ==> (#[trigger] free@[j].0 as int) < rows.len(),
            forall|j: int| 0 <= j < i ==> lo <= #[trigger] es[j] && es[j] <= hi,
            i == 0 ==> lo == i64::MAX && hi == i64::MIN,
            i > 0 ==> lo <= hi,
            i > 0 ==> exists|j: int| 0 <= j < i && #[trigger] es[j] == lo,
            i > 0 ==> exists|j: int| 0 <= j < i && #[trigger] es[j] == hi,
        decreases free@.len() - i,
    {
        let e = unit_at(units, free[i]).elo;
        assert(es[i as int] == e);
        if i == 0 || e < lo {
            lo = e;
        }
        if i == 0 || e > hi {
            hi = e;
        }
        i += 1;
    }
    let gap: i128 = if free.len() > 0 && hi > lo {
        hi as i128 - lo as i128
    } else {
        0
    };
    assert(lowest(es, lo as int, i64::MAX as int) && highest(es, hi as int, i64::MIN as int));
    (rank, gap)
}

/// The largest score group among the free units.
fn largest_group(fold: &Vec<Option<FoldInfo>>, free: &[UnitKey], Ghost(rows): Ghost<Seq<PairingUnit>>) -> (r: usize)
    requires
        forall|i: int| 0 <= i < free@.len() ==> (#[trigger] free@[i].0 as int) < fold@.len(),
        forall|k: UnitKey|
            (k.0 as int) < fold@.len() ==> #[trigger] fold@[k.0 as int] == fold_info_of(rows, free@, k),
    ensures
        highest(
            free@.map_values(|k: UnitKey| group_count(rows, free@, k, free@.len() as int)),
            r as int,
            0,
        ),
        r <= free@.len(),
{
    let ghost gs = free@.map_values(|k: UnitKey| group_count(rows, free@, k, free@.len() as int));
    let mut best: usize = 0;
    let mut i: usize = 0;
    while i < free.len()
        invariant
            i <= free@.len(),
            gs == free@.map_values(|k: UnitKey| group_count(rows, free@, k, free@.len() as int)),
            forall|j: int| 0 <= j < free@.len() ==> (#[trigger] free@[j].0 as int) < fold@.len(),
            forall|k: UnitKey|
                (k.0 as int) < fold@.len() ==> #[trigger] fold@[k.0 as int] == fold_info_of(
                    rows,
                    free@,
                    k,
                ),
            forall|j: int| 0 <= j < i ==> #[trigger] gs[j] <= best,
            best <= free@.len(),
            i == 0 ==> best == 0,
            i > 0 ==> exists|j: int| 0 <= j < i && #[trigger] gs[j] == best,
        decreases free@.len() - i,
    {
        let k = free[i];
        proof {
            assert(free@.contains(k)) by {
                assert(free@[i as int] == k);
            }
            lemma_fold_counts(rows, free@, k, free@.len() as int);
        }
        match fold[k.index()] {
            Some(f) => {
                assert(gs[i as int] == f.group_size);
                if i == 0 || f.group_size > best {
                    best = f.group_size;
                }
            },
            None => {},
        }
        i += 1;
    }
    best
}

/// The most board positions any free unit has.
fn most_boards(units: &TiVec<UnitKey, PairingUnit>, free: &[UnitKey]) -> (r: usize)
    requires
        forall|i: int| 0 <= i < free@.len() ==> (#[trigger] free@[i].0 as int) < unit_rows(
            *units,
        ).len(),
    ensures
        highest(boards_of(unit_rows(*units), free@), r as int, 0),
{
    let ghost rows = unit_rows(*units);
    let ghost bs = boards_of(rows, free@);
    let mut best: usize = 0;
    let mut i: usize = 0;
    while i < free.len()
        invariant
            i <= free@.len(),
            rows == unit_rows(*units),
            bs == boards_of(rows, free@),
            forall|j: int| 0 <= j < free@.len() ==> (#[trigger] free@[j].0 as int) < rows.len(),
            forall|j: int| 0 <= j < i ==> #[trigger] bs[j] <= best,
            i == 0 ==> best == 0,
            i > 0 ==> exists|j: int| 0 <= j < i && #[trigger] bs[j] == best,
        decreases free@.len() - i,
    {
        let b = unit_at(units, free[i]).clubs.len();
        assert(bs[i as int] == b);
        if i == 0 || b > best {
            best = b;
        }
        i += 1;
    }
    best
}

/// Whether any free unit is a pre-qualified cup entrant.
fn any_prequalified(units: &TiVec<UnitKey, PairingUnit>, free: &[UnitKey]) -> (r: bool)
    requires
        forall|i: int| 0 <= i < free@.len() ==> (#[trigger] free@[i].0 as int) < unit_rows(
            *units,
        ).len(),
    ensures
        r == exists|i: int|
            0 <= i < free@.len() && #[trigger] unit_rows(*units)[free@[i].0 as int].prequalified,
{
    let mut i: usize = 0;
    while i < free.len()
        invariant
            i <= free@.len(),
            forall|j: int| 0 <= j < free@.len() ==> (#[trigger] free@[j].0 as int) < unit_rows(
                *units,
            ).len(),
            forall|j: int| 0 <= j < i ==> !#[trigger] unit_rows(*units)[free@[j].0 as int].prequalified,
        decreases free@.len() - i,
    {
        if unit_at(units, free[i]).prequalified {
            return true;
        }
        i += 1;
    }
    false
}

/// The active rules minus the round's no-ops, highest priority first.
fn select_rules(
    number: u32,
    settings: &TournamentSettings,
    units: &TiVec<UnitKey, PairingUnit>,
    free: &[UnitKey],
    need_phantom: bool,
) -> (r: Vec<Rule>)
    requires
        forall|i: int| 0 <= i < free@.len() ==> (#[trigger] free@[i].0 as int) < unit_rows(
            *units,
        ).len(),
    ensures
        r@ == rules_in_play(*settings, number, unit_rows(*units), free@, need_phantom),
{
    let ghost rows = unit_rows(*units);
    let club_on = settings.club_protection_active(number);
    let nationality_on = settings.nationality_protection_active(number);
    let airtight_on = settings.airtight_groups_active(number);
    let cup_on = any_prequalified(units, free);
    let all = active_rules(settings);
    let ghost pred = in_play_pred(*settings, number, rows, free@, need_phantom);
    let mut out: Vec<Rule> = Vec::new();
    let mut i: usize = 0;
    while i < all.len()
        invariant
            i <= all@.len(),
            out@ == all@.subrange(0, i as int).filter(pred),
            pred == in_play_pred(*settings, number, rows, free@, need_phantom),
            rows == unit_rows(*units),
            all@ == if settings.pairing is Elo {
                elo_rules()
            } else {
                swiss_rules()
            },
            club_on == club_active(*settings, number),
            nationality_on == nationality_active(*settings, number),
            airtight_on == airtight_active(*settings, number),
            cup_on == exists|j: int| 0 <= j < free@.len() && #[trigger] rows[free@[j].0 as int].prequalified,
        decreases all@.len() - i,
    {
        let r = all[i];
        let keep = match r {
            Rule::AirtightGroups => airtight_on,
            Rule::Club => club_on,
            Rule::Nationality => nationality_on,
            Rule::CupPrequalified => cup_on,
            Rule::ByeGroup | Rule::ByeSelection => need_phantom,
            _ => true,
        };
        proof {
            assert(keep == pred(r));
            let s = all@.subrange(0, i + 1);
            assert(s.drop_last() =~= all@.subrange(0, i as int));
            assert(s.last() == r);
            reveal(Seq::filter);
        }
        if keep {
            out.push(r);
        }
        i += 1;
    }
    proof {
        assert(all@.subrange(0, all@.len() as int) =~= all@);
    }
    out
}

/// Each rule's worst-case units over the round, in rule order.
fn max_totals(rules: &Vec<Rule>, ctx: &Ctx) -> (r: Vec<i128>)
    requires
        ctx.bounded(),
    ensures
        r@.len() == rules@.len(),
        forall|i: int| 0 <= i < r@.len() ==> #[trigger] r@[i] == max_total_spec(rules@[i], ctx),
        forall|i: int| 0 <= i < r@.len() ==> 0 <= #[trigger] r@[i],
{
    let mut out: Vec<i128> = Vec::new();
    let mut i: usize = 0;
    while i < rules.len()
        invariant
            i <= rules@.len(),
            ctx.bounded(),
            out@.len() == i,
            forall|j: int| 0 <= j < i ==> #[trigger] out@[j] == max_total_spec(rules@[j], ctx),
            forall|j: int| 0 <= j < i ==> 0 <= #[trigger] out@[j],
        decreases rules@.len() - i,
    {
        out.push(rules[i].max_total_units(ctx));
        i += 1;
    }
    out
}

impl<'u> PairingModel<'u> {
    /// Build the model for the given `free` set (the units the matching will
    /// pair); `need_phantom` is whether a bye vertex takes part. `None` when
    /// the round's worst cases are too large for the exact ladder to fit in
    /// `i128`.
    pub fn build(
        number: u32,
        settings: &TournamentSettings,
        units: &'u TiVec<UnitKey, PairingUnit>,
        free: &[UnitKey],
        need_phantom: bool,
    ) -> (r: Option<PairingModel<'u>>)
        requires
            free@.no_duplicates(),
            free@.len() < u32::MAX,
            forall|i: int| 0 <= i < free@.len() ==> (#[trigger] free@[i].0 as int) < unit_rows(
                *units,
            ).len(),
            forall|i: int|
                0 <= i < free@.len() ==> floats_predate(
                    #[trigger] unit_rows(*units)[free@[i].0 as int],
                    number,
                ),
            forall|i: int|
                0 <= i < free@.len() ==> #[trigger] unit_rows(*units)[free@[i].0 as int].clubs@.len()
                    == unit_rows(*units)[free@[i].0 as int].nationalities@.len(),
            forall|i: int|
                0 <= i < free@.len() ==> #[trigger] unit_rows(*units)[free@[i].0 as int].clubs@.len()
                    <= u32::MAX,
        ensures
            match r {
                Some(m) => m.wf() && m.derived_from(number, *settings, units, free@, need_phantom),
                None => !elo_spread_fits(*settings, unit_rows(*units), free@, need_phantom) || exists|m: PairingModel|
                    m.derived_from(number, *settings, units, free@, need_phantom) && !ladder_fits(
                        m.max_total@,
                    ),
            },
            r is Some <==> elo_spread_fits(*settings, unit_rows(*units), free@, need_phantom) && forall|m: PairingModel|
                #[trigger] m.derived_from(number, *settings, units, free@, need_phantom) ==> ladder_fits(
                    m.max_total@,
                ),
    {
        let ghost rows = unit_rows(*units);
        let fold = fold_ranks(units, free);
        let (lo, hi, mm_lo, mm_hi) = score_spread(units, free);
        let exempt_clubs = settings.exempt_clubs_normalized();
        let exempt_nationalities = settings.exempt_nationalities_normalized();
        let elo_mode = settings.elo_estimate_needed();
        let (elo_rank, max_elo_gap) = if elo_mode {
            elo_ranks(units, free)
        } else {
            let n = unit_count(units);
            let mut zeros: Vec<i128> = Vec::new();
            let mut i: usize = 0;
            while i < n
                invariant
                    i <= n,
                    zeros@.len() == i,
                    forall|j: int| 0 <= j < i ==> zeros@[j] == 0,
                decreases n - i,
            {
                zeros.push(0);
                i += 1;
            }
            (zeros, 0)
        };
        let k = free.len();
        let vcount = if need_phantom {
            k + 1
        } else {
            k
        };
        let edges = (vcount / 2) as i128;
        let spread_fits = match max_elo_gap.checked_mul(max_elo_gap) {
            Some(g2) => g2.checked_mul(edges).is_some(),
            None => false,
        };
        proof {
            lemma_elo_spread(*settings, rows, free@, need_phantom, max_elo_gap as int, spread_fits);
        }
        if !spread_fits {
            return None;
        }
        let max_group = largest_group(&fold, free, Ghost(rows));
        let max_boards = most_boards(units, free);
        let rules = select_rules(number, settings, units, free, need_phantom);
        let max_gap: i128 = if hi > lo {
            hi as i128 - lo as i128
        } else {
            0
        };
        let max_mm_gap: i128 = if mm_hi > mm_lo {
            mm_hi as i128 - mm_lo as i128
        } else {
            0
        };
        let floater_style = settings.floater_style();
        let totals = {
            let ctx = Ctx {
                units,
                fold: &fold,
                round: number,
                floater_style,
                exempt_clubs: &exempt_clubs,
                exempt_nationalities: &exempt_nationalities,
                edges,
                max_gap,
                min_points: lo as i128,
                max_mm_gap,
                max_group: max_group as i128,
                free_count: k as i128,
                max_boards: max_boards as i128,
                elo_rank: &elo_rank,
                max_elo_gap,
            };
            max_totals(&rules, &ctx)
        };
        let ladder = checked_scale_ladder(&totals);
        let fits = ladder.is_some();
        let mult = match ladder {
            Some(m) => m,
            None => Vec::new(),
        };
        let model = PairingModel {
            units,
            fold,
            exempt_clubs,
            exempt_nationalities,
            elo_rank,
            round: number,
            floater_style,
            edges,
            max_gap,
            min_points: lo as i128,
            max_mm_gap,
            max_group: max_group as i128,
            free_count: k as i128,
            max_boards: max_boards as i128,
            max_elo_gap,
            rules,
            mult,
            max_total: totals,
            free: Ghost(free@),
            need_phantom,
            elo_mode,
        };
        proof {
            assert(model.derived_base(number, *settings, units, free@, need_phantom));
            model.lemma_built(number, *settings, units, free@, need_phantom);
            assert(model.derived_from(number, *settings, units, free@, need_phantom));
            assert forall|m: PairingModel| #[trigger] m.derived_from(number, *settings, units, free@, need_phantom)
                implies ladder_fits(m.max_total@) == ladder_fits(model.max_total@) by {
                lemma_derived_models_agree(&m, &model, number, *settings, units, free@, need_phantom);
            }
        }
        if fits {
            Some(model)
        } else {
            None
        }
    }
}

impl<'u> PairingModel<'u> {
    /// A model derived from valid inputs is well-formed apart from its ladder:
    /// every free unit is scorable and within the spreads read off the field.
    pub proof fn lemma_built(
        &self,
        number: u32,
        settings: TournamentSettings,
        units: &TiVec<UnitKey, PairingUnit>,
        free: Seq<UnitKey>,
        need_phantom: bool,
    )
        requires
            self.derived_base(number, settings, units, free, need_phantom),
            free.no_duplicates(),
            free.len() < u32::MAX,
            forall|i: int| 0 <= i < free.len() ==> (#[trigger] free[i].0 as int) < unit_rows(
                *units,
            ).len(),
            forall|i: int|
                0 <= i < free.len() ==> floats_predate(
                    #[trigger] unit_rows(*units)[free[i].0 as int],
                    number,
                ),
            elo_spread_fits(settings, unit_rows(*units), free, need_phantom),
            forall|i: int|
                0 <= i < free.len() ==> #[trigger] unit_rows(*units)[free[i].0 as int].clubs@.len()
                    == unit_rows(*units)[free[i].0 as int].nationalities@.len(),
            forall|i: int|
                0 <= i < free.len() ==> #[trigger] unit_rows(*units)[free[i].0 as int].clubs@.len()
                    <= u32::MAX,
        ensures
            self.wf_base(),
    {
        let rows = unit_rows(*units);
        let ctx = self.model_ctx();
        let ps = points_of(rows, free);
        let ms = macmahon_of(rows, free);
        let es = elos_of(rows, free);
        let bs = boards_of(rows, free);
        let gs = free.map_values(|k: UnitKey| group_count(rows, free, k, free.len() as int));
        let (lo, hi) = choose|lo: int, hi: int|
            lowest(points_of(rows, free), lo, u32::MAX as int) && highest(points_of(rows, free), hi, 0)
                && self.min_points == lo && self.max_gap == if hi > lo {
                hi - lo
            } else {
                0
            };
        let (mlo, mhi) = choose|lo: int, hi: int|
            lowest(macmahon_of(rows, free), lo, u32::MAX as int) && highest(
                macmahon_of(rows, free),
                hi,
                0,
            ) && self.max_mm_gap == if hi > lo {
                hi - lo
            } else {
                0
            };
        // The spreads' own bounds.
        if free.len() > 0 {
            let j = choose|j: int| 0 <= j < free.len() && #[trigger] bs[j] == self.max_boards;
            assert(bs[j] == rows[free[j].0 as int].clubs@.len());
            let j2 = choose|j: int| 0 <= j < free.len() && #[trigger] gs[j] == self.max_group;
            lemma_fold_counts(rows, free, free[j2], free.len() as int);
            let j3 = choose|j: int| 0 <= j < ps.len() && #[trigger] ps[j] == lo;
            let j4 = choose|j: int| 0 <= j < ps.len() && #[trigger] ps[j] == hi;
            let j5 = choose|j: int| 0 <= j < ms.len() && #[trigger] ms[j] == mlo;
            let j6 = choose|j: int| 0 <= j < ms.len() && #[trigger] ms[j] == mhi;
        }
        assert(self.edges == edge_count(free.len() as int, need_phantom));
        let g = self.max_elo_gap as int;
        lemma_elo_spread(
            settings,
            rows,
            free,
            need_phantom,
            g,
            sq(g) <= i128::MAX && sq(g) * edge_count(free.len() as int, need_phantom) <= i128::MAX,
        );
        assert(ctx.bounded());
        assert forall|k: UnitKey| #[trigger] self.is_free(k) implies ctx.scorable(k) by {
            let j = choose|j: int| 0 <= j < free.len() && #[trigger] free[j] == k;
            lemma_fold_counts(rows, free, k, free.len() as int);
            assert(free.subrange(0, free.len() as int) =~= free);
            assert(gs[j] <= self.max_group);
            assert(floats_predate(rows[free[j].0 as int], number));
        }
        assert forall|a: UnitKey, b: UnitKey|
            #[trigger] self.is_free(a) && #[trigger] self.is_free(b) && a != b implies ctx.spans(
            a,
            b,
        ) by {
            let ia = choose|j: int| 0 <= j < free.len() && #[trigger] free[j] == a;
            let ib = choose|j: int| 0 <= j < free.len() && #[trigger] free[j] == b;
            assert(ps[ia] == rows[a.0 as int].points.0);
            assert(ps[ib] == rows[b.0 as int].points.0);
            assert(ms[ia] == rows[a.0 as int].macmahon.0);
            assert(ms[ib] == rows[b.0 as int].macmahon.0);
            assert(bs[ia] == rows[a.0 as int].clubs@.len());
            assert(bs[ib] == rows[b.0 as int].clubs@.len());
            assert(rows[free[ia].0 as int].clubs@.len() == rows[free[ia].0 as int].nationalities@.len());
            assert(rows[free[ib].0 as int].clubs@.len() == rows[free[ib].0 as int].nationalities@.len());
            assert(ia != ib);
        }
        if self.elo_mode {
            assert forall|a: UnitKey, b: UnitKey|
                #[trigger] self.is_free(a) && #[trigger] self.is_free(b) implies ctx.spans_elo(
                a,
                b,
            ) by {
                let ia = choose|j: int| 0 <= j < free.len() && #[trigger] free[j] == a;
                let ib = choose|j: int| 0 <= j < free.len() && #[trigger] free[j] == b;
                let (elo, ehi) = choose|lo: int, hi: int|
                    lowest(elos_of(rows, free), lo, i64::MAX as int) && highest(
                        elos_of(rows, free),
                        hi,
                        i64::MIN as int,
                    ) && self.max_elo_gap == if hi > lo {
                        hi - lo
                    } else {
                        0
                    };
                assert(es[ia] == rows[a.0 as int].elo);
                assert(es[ib] == rows[b.0 as int].elo);
            }
        }
        let all = if settings.pairing is Elo {
            elo_rules()
        } else {
            swiss_rules()
        };
        assert forall|i: int|
            0 <= i < self.rules@.len() implies (#[trigger] self.rules@[i] is EloGap ==> self.elo_mode) by {
            let pred = in_play_pred(settings, number, rows, free, need_phantom);
            all.lemma_filter_contains_rev(pred, self.rules@[i]);
            if !self.elo_mode && self.rules@[i] is EloGap {
                let j = choose|j: int| 0 <= j < all.len() && all[j] == self.rules@[i];
                assert(all[j] !is EloGap);
            }
        }
        if need_phantom {
            assert forall|k: UnitKey| #[trigger] self.is_free(k) implies ctx.spans_bye(k) by {
                let j = choose|j: int| 0 <= j < free.len() && #[trigger] free[j] == k;
                assert(ps[j] == rows[k.0 as int].points.0);
                lemma_below_counts(rows, free, k, free.len() as int);
                assert(free.subrange(0, free.len() as int) =~= free);
            }
        }
    }
}

/// The normalized form of an optional affiliation.
pub open spec fn normalized_opt(x: Option<String>) -> Option<Seq<char>> {
    match x {
        Some(s) => Some(lowercase(trim(s@))),
        None => None,
    }
}

/// An optional affiliation read as its characters.
pub open spec fn opt_view(x: Option<String>) -> Option<Seq<char>> {
    match x {
        Some(s) => Some(s@),
        None => None,
    }
}

/// The ELO estimate a player's unit pairs on: the one handed in under ELO
/// pairing, zero otherwise.
pub open spec fn elo_for(settings: TournamentSettings, elo_estimates: Option<&[i64]>, i: int) -> i64 {
    if settings.pairing is Elo {
        match elo_estimates {
            Some(e) => e@[i],
            None => 0,
        }
    } else {
        0
    }
}

/// `u` is the pairing unit of a player numbered `t` with score `s`.
pub open spec fn unit_of_player(u: PairingUnit, p: Player, s: PlayerScore, prequalified: bool, elo: i64) -> bool {
    &&& u.points.0 == s.macmahon.0 + s.victories.0
    &&& u.macmahon == s.macmahon
    &&& u.opponents@ == s.opponents@.map_values(|o: TournamentId| UnitKey(o.0))
    &&& u.had_bye == s.had_bye
    &&& u.last_ascended == s.last_ascended
    &&& u.last_descended == s.last_descended
    &&& u.rating == p.rating
    &&& u.clubs@.len() == 1 && opt_view(u.clubs@[0]) == normalized_opt(p.club)
    &&& u.nationalities@.len() == 1 && opt_view(u.nationalities@[0]) == normalized_opt(p.nationality)
    &&& u.prequalified == prequalified
    &&& u.elo == elo
}

/// The normalized affiliation, if there is one.
fn normalize_opt(x: &Option<String>, club: bool) -> (r: Option<String>)
    ensures
        opt_view(r) == normalized_opt(*x),
{
    match x {
        Some(s) => if club {
            Some(TournamentSettings::normalize_club(s.as_str()))
        } else {
            Some(TournamentSettings::normalize_nationality(s.as_str()))
        },
        None => None,
    }
}

/// Whether `t` is in `list`.
fn listed(list: &[TournamentId], t: TournamentId) -> (r: bool)
    ensures
        r == list@.contains(t),
{
    let mut i: usize = 0;
    while i < list.len()
        invariant
            i <= list@.len(),
            forall|j: int| 0 <= j < i ==> list@[j] != t,
        decreases list@.len() - i,
    {
        if list[i] == t {
            assert(list@[i as int] == t);
            return true;
        }
        i += 1;
    }
    false
}

/// The opponents as unit keys.
fn opponent_keys(opponents: &Vec<TournamentId>) -> (r: Vec<UnitKey>)
    ensures
        r@ == opponents@.map_values(|o: TournamentId| UnitKey(o.0)),
{
    let mut out: Vec<UnitKey> = Vec::new();
    let mut i: usize = 0;
    while i < opponents.len()
        invariant
            i <= opponents@.len(),
            out@ == opponents@.subrange(0, i as int).map_values(|o: TournamentId| UnitKey(o.0)),
        decreases opponents@.len() - i,
    {
        out.push(UnitKey::from_tid(opponents[i]));
        proof {
            assert(out@ =~= opponents@.subrange(0, i + 1).map_values(|o: TournamentId| UnitKey(o.0)));
        }
        i += 1;
    }
    assert(opponents@.subrange(0, opponents@.len() as int) =~= opponents@);
    out
}

/// Build the engine's input for an individual tournament: one unit per
/// player, keyed by their tournament number, from the replayed scores plus
/// the registration data the rules read and the round's cup and ELO context.
/// Numbers no player holds keep a blank unit. `mm_estimates` are the rounded
/// live estimates the MacMahon start may be drawn from, `elo_estimates` those
/// ELO pairing pairs on (both in player order).
pub fn player_units(
    players: &[Player],
    settings: &TournamentSettings,
    completed_rounds: &[Round],
    prequalified: &[TournamentId],
    mm_estimates: Option<&[u32]>,
    elo_estimates: Option<&[i64]>,
) -> (r: TiVec<UnitKey, PairingUnit>)
    requires
        forall|i: int| 0 <= i < players@.len() ==> (#[trigger] players@[i]).tournament_id is Some,
        forall|i: int, j: int| 0 <= i < j < players@.len() ==> tid_of(#[trigger] players@[i]) != tid_of(#[trigger] players@[j]),
        forall|i: int| 0 <= i < players@.len() ==> (tid_of(#[trigger] players@[i]).0 as int) < usize::MAX,
        mm_from_estimate(*settings) ==> (mm_estimates matches Some(e) && e@.len() == players@.len()),
        settings.pairing is Elo ==> (elo_estimates matches Some(e) && e@.len() == players@.len()),
        forall|i: int| 0 <= i < players@.len() ==> start_fits(start_base(*settings, #[trigger] players@[i], estimate_at(mm_estimates, i), completed_rounds@), players@[i].adjustments@),
        forall|i: int| 0 <= i < players@.len() ==> replay_fits(completed_rounds@, wiel_of(settings.handicap_policy), tid_of(#[trigger] players@[i]), start_halves(start_base(*settings, players@[i], estimate_at(mm_estimates, i), completed_rounds@), players@[i].adjustments@)),
    ensures
        forall|i: int| 0 <= i < players@.len() ==> (tid_of(#[trigger] players@[i]).0 as int) < unit_rows(r).len(),
        forall|i: int| 0 <= i < players@.len() ==> {
            let p = #[trigger] players@[i];
            let t = tid_of(p);
            exists|s: PlayerScore| {
                &&& replayed(s, completed_rounds@, wiel_of(settings.handicap_policy), t, start_halves(start_base(*settings, p, estimate_at(mm_estimates, i), completed_rounds@), p.adjustments@))
                &&& #[trigger] unit_of_player(unit_rows(r)[t.0 as int], p, s, prequalified@.contains(t), elo_for(*settings, elo_estimates, i))
            }
        },
{
    let scores = compute_scores(players, settings, completed_rounds, mm_estimates);
    let cap = scores.tid_capacity();
    let elo_mode = settings.elo_estimate_needed();
    let mut rows: Vec<PairingUnit> = Vec::new();
    let mut k: usize = 0;
    while k < cap
        invariant
            k <= cap,
            rows@.len() == k,
        decreases cap - k,
    {
        rows.push(PairingUnit::blank());
        k += 1;
    }
    let mut i: usize = 0;
    while i < players.len()
        invariant
            i <= players@.len(),
            rows@.len() == cap,
            cap == score_rows(scores.by_tid).len(),
            elo_mode == settings.pairing is Elo,
            settings.pairing is Elo ==> (elo_estimates matches Some(e) && e@.len() == players@.len()),
            forall|j: int| 0 <= j < players@.len() ==> (#[trigger] players@[j]).tournament_id is Some,
            forall|a: int, b: int| 0 <= a < b < players@.len() ==> tid_of(#[trigger] players@[a]) != tid_of(#[trigger] players@[b]),
            forall|j: int| 0 <= j < players@.len() ==> (tid_of(#[trigger] players@[j]).0 as int) < cap,
            forall|j: int| 0 <= j < players@.len() ==> {
                let p = #[trigger] players@[j];
                let t = tid_of(p);
                replayed(score_rows(scores.by_tid)[t.0 as int], completed_rounds@, wiel_of(settings.handicap_policy), t, start_halves(start_base(*settings, p, estimate_at(mm_estimates, j), completed_rounds@), p.adjustments@))
            },
            forall|j: int| 0 <= j < players@.len() ==> replay_fits(completed_rounds@, wiel_of(settings.handicap_policy), tid_of(#[trigger] players@[j]), start_halves(start_base(*settings, players@[j], estimate_at(mm_estimates, j), completed_rounds@), players@[j].adjustments@)),
            forall|j: int| 0 <= j < i ==> {
                let p = #[trigger] players@[j];
                let t = tid_of(p);
                unit_of_player(rows@[t.0 as int], p, score_rows(scores.by_tid)[t.0 as int], prequalified@.contains(t), elo_for(*settings, elo_estimates, j))
            },
        decreases players@.len() - i,
    {
        let p = &players[i];
        let t = match p.tournament_id {
            Some(t) => t,
            None => TournamentId(0),
        };
        let s = scores.get_tid(t);
        proof {
            assert(replayed(score_rows(scores.by_tid)[t.0 as int], completed_rounds@, wiel_of(settings.handicap_policy), t, start_halves(start_base(*settings, players@[i as int], estimate_at(mm_estimates, i as int), completed_rounds@), players@[i as int].adjustments@)));
            let st = start_halves(start_base(*settings, players@[i as int], estimate_at(mm_estimates, i as int), completed_rounds@), players@[i as int].adjustments@);
            assert(replay_fits(completed_rounds@, wiel_of(settings.handicap_policy), t, st));
            lemma_replayed_points_fit(*s, completed_rounds@, wiel_of(settings.handicap_policy), t);
        }
        let elo: i64 = if elo_mode {
            match elo_estimates {
                Some(e) => e[i],
                None => 0,
            }
        } else {
            0
        };
        let club = normalize_opt(&p.club, true);
        let nationality = normalize_opt(&p.nationality, false);
        let unit = PairingUnit {
            points: s.points(),
            macmahon: s.macmahon,
            opponents: opponent_keys(&s.opponents),
            had_bye: s.had_bye,
            last_ascended: s.last_ascended,
            last_descended: s.last_descended,
            rating: p.rating,
            clubs: vec![club],
            nationalities: vec![nationality],
            prequalified: listed(prequalified, t),
            elo,
        };
        let ghost before = rows@;
        rows.set(t.index(), unit);
        proof {
            assert forall|j: int| 0 <= j < i + 1 implies {
                let q = #[trigger] players@[j];
                let u = tid_of(q);
                unit_of_player(rows@[u.0 as int], q, score_rows(scores.by_tid)[u.0 as int], prequalified@.contains(u), elo_for(*settings, elo_estimates, j))
            } by {
                if j < i {
                    assert(tid_of(players@[j]) != tid_of(players@[i as int]));
                    assert(rows@[tid_of(players@[j]).0 as int] == before[tid_of(players@[j]).0 as int]);
                }
            }
        }
        i += 1;
    }
    let table = unit_table(rows);
    proof {
        assert forall|i: int| 0 <= i < players@.len() implies {
            let p = #[trigger] players@[i];
            let t = tid_of(p);
            exists|s: PlayerScore| {
                &&& replayed(s, completed_rounds@, wiel_of(settings.handicap_policy), t, start_halves(start_base(*settings, p, estimate_at(mm_estimates, i), completed_rounds@), p.adjustments@))
                &&& #[trigger] unit_of_player(unit_rows(table)[t.0 as int], p, s, prequalified@.contains(t), elo_for(*settings, elo_estimates, i))
            }
        } by {
            let p = players@[i];
            let t = tid_of(p);
            let s = score_rows(scores.by_tid)[t.0 as int];
            assert(unit_of_player(unit_rows(table)[t.0 as int], p, s, prequalified@.contains(t), elo_for(*settings, elo_estimates, i)));
        }
    }
    table
}

/// At most one value is the lowest of `vals`.
proof fn lemma_lowest_unique(vals: Seq<int>, v: int, w: int, empty: int)
    requires
        lowest(vals, v, empty),
        lowest(vals, w, empty),
    ensures
        v == w,
{
    if vals.len() > 0 {
        let i = choose|i: int| 0 <= i < vals.len() && #[trigger] vals[i] == v;
        let j = choose|j: int| 0 <= j < vals.len() && #[trigger] vals[j] == w;
        assert(v <= vals[j] && w <= vals[i]);
    }
}

/// At most one value is the highest of `vals`.
proof fn lemma_highest_unique(vals: Seq<int>, v: int, w: int, empty: int)
    requires
        highest(vals, v, empty),
        highest(vals, w, empty),
    ensures
        v == w,
{
    if vals.len() > 0 {
        let i = choose|i: int| 0 <= i < vals.len() && #[trigger] vals[i] == v;
        let j = choose|j: int| 0 <= j < vals.len() && #[trigger] vals[j] == w;
        assert(vals[j] <= v && vals[i] <= w);
    }
}

/// A round's model is fixed by the round's inputs: two models derived from
/// the same inputs pair the same units under the same rules and worst cases,
/// and score every edge and bye alike.
pub proof fn lemma_derived_models_agree(
    m1: &PairingModel,
    m2: &PairingModel,
    number: u32,
    settings: TournamentSettings,
    units: &TiVec<UnitKey, PairingUnit>,
    free: Seq<UnitKey>,
    need_phantom: bool,
)
    requires
        m1.derived_from(number, settings, units, free, need_phantom),
        m2.derived_from(number, settings, units, free, need_phantom),
    ensures
        m1.free@ == m2.free@,
        m1.need_phantom == m2.need_phantom,
        m1.rules@ == m2.rules@,
        m1.max_total@ == m2.max_total@,
        reads_alike(&m1.model_ctx(), &m2.model_ctx()),
{
    let rows = unit_rows(*units);
    let (c1, c2) = (m1.model_ctx(), m2.model_ctx());
    let (lo1, hi1) = choose|lo: int, hi: int|
        lowest(points_of(rows, free), lo, u32::MAX as int) && highest(points_of(rows, free), hi, 0)
            && m1.min_points == lo && m1.max_gap == if hi > lo { hi - lo } else { 0 };
    let (lo2, hi2) = choose|lo: int, hi: int|
        lowest(points_of(rows, free), lo, u32::MAX as int) && highest(points_of(rows, free), hi, 0)
            && m2.min_points == lo && m2.max_gap == if hi > lo { hi - lo } else { 0 };
    lemma_lowest_unique(points_of(rows, free), lo1, lo2, u32::MAX as int);
    lemma_highest_unique(points_of(rows, free), hi1, hi2, 0);
    let (ml1, mh1) = choose|lo: int, hi: int|
        lowest(macmahon_of(rows, free), lo, u32::MAX as int) && highest(macmahon_of(rows, free), hi, 0)
            && m1.max_mm_gap == if hi > lo { hi - lo } else { 0 };
    let (ml2, mh2) = choose|lo: int, hi: int|
        lowest(macmahon_of(rows, free), lo, u32::MAX as int) && highest(macmahon_of(rows, free), hi, 0)
            && m2.max_mm_gap == if hi > lo { hi - lo } else { 0 };
    lemma_lowest_unique(macmahon_of(rows, free), ml1, ml2, u32::MAX as int);
    lemma_highest_unique(macmahon_of(rows, free), mh1, mh2, 0);
    if m1.elo_mode {
        let (el1, eh1) = choose|lo: int, hi: int|
            lowest(elos_of(rows, free), lo, i64::MAX as int) && highest(elos_of(rows, free), hi, i64::MIN as int)
                && m1.max_elo_gap == if hi > lo { hi - lo } else { 0 };
        let (el2, eh2) = choose|lo: int, hi: int|
            lowest(elos_of(rows, free), lo, i64::MAX as int) && highest(elos_of(rows, free), hi, i64::MIN as int)
                && m2.max_elo_gap == if hi > lo { hi - lo } else { 0 };
        lemma_lowest_unique(elos_of(rows, free), el1, el2, i64::MAX as int);
        lemma_highest_unique(elos_of(rows, free), eh1, eh2, i64::MIN as int);
    }
    lemma_highest_unique(
        free.map_values(|k: UnitKey| group_count(rows, free, k, free.len() as int)),
        m1.max_group as int,
        m2.max_group as int,
        0,
    );
    lemma_highest_unique(boards_of(rows, free), m1.max_boards as int, m2.max_boards as int, 0);
    assert forall|k: UnitKey| (k.0 as int) < rows.len() implies #[trigger] c1.fold@[k.0 as int] == c2.fold@[k.0 as int]
        && c1.elo_rank@[k.0 as int] == c2.elo_rank@[k.0 as int] by {
        assert(m1.fold@[k.0 as int] == fold_info_of(rows, free, k));
        assert(m2.fold@[k.0 as int] == fold_info_of(rows, free, k));
    }
    assert(reads_alike(&c1, &c2));
    lemma_alike_contexts_score_alike(&c1, &c2);
    assert forall|i: int| 0 <= i < m1.max_total@.len() implies m1.max_total@[i] == m2.max_total@[i] by {
        assert(max_totals_seq(m1.rules@, &c1)[i] == max_total_spec(m1.rules@[i], &c1));
        assert(max_totals_seq(m2.rules@, &c2)[i] == max_total_spec(m2.rules@[i], &c2));
    }
    assert(m1.max_total@ =~= m2.max_total@);
}

/// The number of edges in a perfect matching over `n` units, plus the phantom
/// when a bye takes part.
pub open spec fn edge_count(n: int, need_phantom: bool) -> int {
    (n + if need_phantom {
        1int
    } else {
        0int
    }) / 2
}

/// (ELO mode) Every squared ELO gap between two free units, alone and summed
/// over every edge of the round, stays within `i128` — what the ELO rule's
/// worst case needs. Always true in any other mode.
pub open spec fn elo_spread_fits(settings: TournamentSettings, rows: Seq<PairingUnit>, free: Seq<UnitKey>, need_phantom: bool) -> bool {
    settings.pairing is Elo ==> forall|i: int, j: int|
        0 <= i < free.len() && 0 <= j < free.len() ==> {
            let g = sq(#[trigger] rows[free[i].0 as int].elo - #[trigger] rows[free[j].0 as int].elo);
            g <= i128::MAX && g * edge_count(free.len() as int, need_phantom) <= i128::MAX
        }
}

/// The build's check on the widest ELO gap decides [`elo_spread_fits`].
proof fn lemma_elo_spread(
    settings: TournamentSettings,
    rows: Seq<PairingUnit>,
    free: Seq<UnitKey>,
    need_phantom: bool,
    gap: int,
    fits: bool,
)
    requires
        settings.pairing is Elo ==> exists|lo: int, hi: int|
            lowest(elos_of(rows, free), lo, i64::MAX as int) && highest(elos_of(rows, free), hi, i64::MIN as int)
                && gap == if hi > lo {
                hi - lo
            } else {
                0
            },
        !(settings.pairing is Elo) ==> gap == 0,
        fits == (sq(gap) <= i128::MAX && sq(gap) * edge_count(free.len() as int, need_phantom) <= i128::MAX),
    ensures
        fits == elo_spread_fits(settings, rows, free, need_phantom),
{
    let e = edge_count(free.len() as int, need_phantom);
    let es = elos_of(rows, free);
    assert(0 <= e);
    if settings.pairing is Elo {
        let (lo, hi) = choose|lo: int, hi: int|
            lowest(elos_of(rows, free), lo, i64::MAX as int) && highest(elos_of(rows, free), hi, i64::MIN as int)
                && gap == if hi > lo {
                hi - lo
            } else {
                0
            };
        if fits {
            assert forall|i: int, j: int| 0 <= i < free.len() && 0 <= j < free.len() implies {
                let g = sq(#[trigger] rows[free[i].0 as int].elo - #[trigger] rows[free[j].0 as int].elo);
                g <= i128::MAX && g * e <= i128::MAX
            } by {
                let d = rows[free[i].0 as int].elo - rows[free[j].0 as int].elo;
                assert(es[i] == rows[free[i].0 as int].elo && es[j] == rows[free[j].0 as int].elo);
                assert(lo <= es[i] <= hi && lo <= es[j] <= hi);
                assert(-gap <= d <= gap);
                assert(0 <= sq(d) <= sq(gap)) by (nonlinear_arith)
                    requires
                        -gap <= d <= gap,
                ;
                assert(sq(d) * e <= sq(gap) * e) by (nonlinear_arith)
                    requires
                        0 <= sq(d) <= sq(gap),
                        0 <= e,
                ;
            }
        } else if free.len() > 0 {
            let i = choose|i: int| 0 <= i < es.len() && #[trigger] es[i] == hi;
            let j = choose|j: int| 0 <= j < es.len() && #[trigger] es[j] == lo;
            assert(es[i] == rows[free[i].0 as int].elo && es[j] == rows[free[j].0 as int].elo);
            if hi > lo {
                assert(sq(rows[free[i].0 as int].elo - rows[free[j].0 as int].elo) == sq(gap));
            } else {
                assert(sq(gap) == 0);
            }
        } else {
            assert(gap == 0);
        }
    } else {
        assert(sq(gap) == 0);
    }
}

/// ELO ranks ascend with the estimate (ties by key): a free unit with a
/// lower estimate gets a strictly lower rank, so the weakest takes rank 0
/// and the cheapest bye.
pub proof fn lemma_elo_ranks_follow_estimates(rows: Seq<PairingUnit>, free: Seq<UnitKey>, j: UnitKey, k: UnitKey)
    requires
        free.contains(j),
        free.contains(k),
        elo_below(rows, j, k),
    ensures
        elo_rank_of(rows, free, j) < elo_rank_of(rows, free, k),
        elo_rank_of(rows, free, j) >= 0,
{
    lemma_below_counts_grow(rows, free, j, k, free.len() as int);
    lemma_below_nonneg(rows, free, j, free.len() as int);
    assert(free.subrange(0, free.len() as int) =~= free);
}

/// Every unit below `j` is below `k`, and so is `j` itself.
proof fn lemma_below_counts_grow(rows: Seq<PairingUnit>, free: Seq<UnitKey>, j: UnitKey, k: UnitKey, n: int)
    requires
        0 <= n <= free.len(),
        elo_below(rows, j, k),
    ensures
        below_count(rows, free, k, n) >= below_count(rows, free, j, n) + if free.subrange(0, n).contains(j) {
            1int
        } else {
            0int
        },
    decreases n,
{
    if n > 0 {
        lemma_below_counts_grow(rows, free, j, k, n - 1);
        let x = free[n - 1];
        let pre = free.subrange(0, n - 1);
        let now = free.subrange(0, n);
        assert(now == pre.push(x));
        if now.contains(j) && !pre.contains(j) {
            let i = choose|i: int| 0 <= i < now.len() && now[i] == j;
            if i < n - 1 {
                assert(pre[i] == j);
            }
        }
        if pre.contains(j) {
            let i = choose|i: int| 0 <= i < pre.len() && pre[i] == j;
            assert(now[i] == j);
        }
    }
}

/// A count is never negative.
proof fn lemma_below_nonneg(rows: Seq<PairingUnit>, free: Seq<UnitKey>, k: UnitKey, n: int)
    ensures
        below_count(rows, free, k, n) >= 0,
    decreases n,
{
    if n > 0 {
        lemma_below_nonneg(rows, free, k, n - 1);
    }
}

} // verus!
