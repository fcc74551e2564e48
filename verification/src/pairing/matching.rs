//! The matching step: build the scored cost matrix a minimum-weight perfect
//! matching solver is handed, and turn its answer back into a round's pairs
//! and bye.
//!
//! The weights come from [`super::rules`]; what lives here is the vertex
//! set (the canonical, seed-ordered free units plus the bye's phantom), the
//! matrix, the choice of the narrowest weight type the solver can run in, and
//! the reading of the solver's mate array.

use vstd::prelude::*;

use typed_index_collections::TiVec;

use crate::round::PairingSource;
use crate::settings::TournamentSettings;
use crate::tables::{unit_at, unit_count, unit_rows};
use crate::units::UnitKey;

use super::model::{elo_spread_fits, PairingModel, PairingUnit};
use super::rules::{bye_units_seq, edge_units_seq, floats_predate, ladder_fits, weighted};

verus! {

/// The narrowest weight type a cost matrix fits in with the solver's
/// headroom (`MAX / 16`, for its internal scaling and "infinity" sentinel).
#[derive(Debug, Clone, Copy, PartialEq, Eq, Structural)]
pub enum MatchingWidth {
    I32,
    I64,
    I128,
}

/// The largest entry of `cost` (0 when empty).
pub open spec fn max_entry(cost: Seq<i128>) -> int
    decreases cost.len(),
{
    if cost.len() == 0 {
        0
    } else if cost.len() == 1 {
        cost.last() as int
    } else {
        let rest = max_entry(cost.drop_last());
        if cost.last() > rest {
            cost.last() as int
        } else {
            rest
        }
    }
}

/// The width the solver runs a matrix whose largest entry is `max` in:
/// `None` past the `i128` headroom.
pub open spec fn width_for(max: int) -> Option<MatchingWidth> {
    if max <= i32::MAX / 16 {
        Some(MatchingWidth::I32)
    } else if max <= i64::MAX / 16 {
        Some(MatchingWidth::I64)
    } else if max <= i128::MAX / 16 {
        Some(MatchingWidth::I128)
    } else {
        None
    }
}

/// Pick the narrowest weight type that comfortably fits the cost matrix:
/// most tournaments' ladders fit in `i32` or `i64`, which the solver runs
/// faster in; `None` when even `i128` lacks the headroom.
pub fn matching_width(cost: &[i128]) -> (r: Option<MatchingWidth>)
    ensures
        r == width_for(max_entry(cost@)),
{
    let mut max: i128 = 0;
    let mut i: usize = 0;
    while i < cost.len()
        invariant
            i <= cost@.len(),
            max == max_entry(cost@.subrange(0, i as int)),
        decreases cost@.len() - i,
    {
        proof {
            let s = cost@.subrange(0, i + 1);
            assert(s.drop_last() =~= cost@.subrange(0, i as int));
            assert(s.last() == cost@[i as int]);
        }
        if i == 0 || cost[i] > max {
            max = cost[i];
        }
        i += 1;
    }
    proof {
        assert(cost@.subrange(0, cost@.len() as int) =~= cost@);
    }
    if max <= 0x7fff_ffff / 16 {
        Some(MatchingWidth::I32)
    } else if max <= 0x7fff_ffff_ffff_ffff / 16 {
        Some(MatchingWidth::I64)
    } else if max <= 0x7fff_ffff_ffff_ffff_ffff_ffff_ffff_ffff / 16 {
        Some(MatchingWidth::I128)
    } else {
        None
    }
}

/// One matched pair, with the facts of the pairing the boards must carry.
#[derive(Debug, Clone, Copy, PartialEq, Eq, Structural)]
pub struct PairedUnits {
    pub a: UnitKey,
    pub b: UnitKey,
    /// How the pairing was decided (engine or referee).
    pub source: PairingSource,
    /// `points(a) − points(b)` at pairing time.
    pub points_diff: i32,
}

/// One round's pairing in unit terms: who plays whom, and who sits out.
#[derive(Debug, Clone, PartialEq, Eq)]
pub struct UnitPairing {
    /// The referee's forced pairs first (in draft order), then the engine's.
    pub pairs: Vec<PairedUnits>,
    /// The bye the engine chose, if the free field was left odd.
    pub swiss_bye: Option<UnitKey>,
}

/// What the solver is handed for one round, and what reading its answer
/// back needs.
pub struct RoundInstance<'u> {
    /// The units being paired, indexed by key.
    pub units: &'u TiVec<UnitKey, PairingUnit>,
    /// The matching's real vertices: the free units in ascending key order.
    pub free: Vec<UnitKey>,
    /// Whether a phantom vertex (index `free.len()`) absorbs the bye.
    pub need_phantom: bool,
    /// The number of vertices.
    pub vcount: usize,
    /// The `vcount × vcount` cost matrix, row by row: each real edge in the
    /// upper triangle, the phantom's edges in both its row and its column,
    /// zero elsewhere.
    pub cost: Vec<Vec<i128>>,
    /// The referee's forced pairs, in draft order.
    pub forced: Vec<PairedUnits>,
    /// The round's scoring model (absent when nothing is left to pair).
    pub model: Option<PairingModel<'u>>,
}

/// `k` is taken out of the pool by a forced pair or a forced bye.
pub open spec fn placed(forced_pairs: Seq<(UnitKey, UnitKey)>, forced_byes: Seq<UnitKey>, k: UnitKey) -> bool {
    (exists|i: int| 0 <= i < forced_pairs.len() && ((#[trigger] forced_pairs[i]).0 == k || forced_pairs[i].1 == k))
        || forced_byes.contains(k)
}

/// `k` is present and left for the engine to pair.
pub open spec fn eligible(
    present: Seq<UnitKey>,
    forced_pairs: Seq<(UnitKey, UnitKey)>,
    forced_byes: Seq<UnitKey>,
    k: UnitKey,
) -> bool {
    present.contains(k) && !placed(forced_pairs, forced_byes, k)
}

/// `s` is in strictly ascending key order.
pub open spec fn ascending(s: Seq<UnitKey>) -> bool {
    forall|i: int, j: int| 0 <= i < j < s.len() ==> (#[trigger] s[i]).0 < (#[trigger] s[j]).0
}

/// `points(a) − points(b)`.
pub open spec fn points_diff_of(rows: Seq<PairingUnit>, a: UnitKey, b: UnitKey) -> int {
    rows[a.0 as int].points.0 - rows[b.0 as int].points.0
}

/// The entry `(i, j)` of a round's cost matrix.
pub open spec fn cost_entry(m: &PairingModel, free: Seq<UnitKey>, need_phantom: bool, i: int, j: int) -> int {
    let k = free.len() as int;
    if 0 <= i < j < k {
        weighted(m.max_total@, edge_units_seq(m.rules@, &m.model_ctx(), free[i], free[j]))
    } else if need_phantom && 0 <= i < k && j == k {
        weighted(m.max_total@, bye_units_seq(m.rules@, &m.model_ctx(), free[i]))
    } else if need_phantom && 0 <= j < k && i == k {
        weighted(m.max_total@, bye_units_seq(m.rules@, &m.model_ctx(), free[j]))
    } else {
        0
    }
}

/// Whether `k` is taken out by a forced pair or bye.
fn is_placed(forced_pairs: &[(UnitKey, UnitKey)], forced_byes: &[UnitKey], k: UnitKey) -> (r: bool)
    ensures
        r == placed(forced_pairs@, forced_byes@, k),
{
    let mut i: usize = 0;
    while i < forced_pairs.len()
        invariant
            i <= forced_pairs@.len(),
            forall|j: int| 0 <= j < i ==> !((#[trigger] forced_pairs@[j]).0 == k || forced_pairs@[j].1 == k),
        decreases forced_pairs@.len() - i,
    {
        let (a, b) = forced_pairs[i];
        if a == k || b == k {
            return true;
        }
        i += 1;
    }
    let mut j: usize = 0;
    while j < forced_byes.len()
        invariant
            j <= forced_byes@.len(),
            forall|l: int| 0 <= l < forced_pairs@.len() ==> !((#[trigger] forced_pairs@[l]).0 == k || forced_pairs@[l].1 == k),
            forall|l: int| 0 <= l < j ==> forced_byes@[l] != k,
        decreases forced_byes@.len() - j,
    {
        if forced_byes[j] == k {
            assert(forced_byes@[j as int] == k);
            return true;
        }
        j += 1;
    }
    false
}

/// The units left for the engine: the present ones no forced pair or bye
/// took, in ascending key order, so which of several equally good pairings
/// the solver returns depends only on tournament state.
pub fn canonical_free(
    present: &[UnitKey],
    forced_pairs: &[(UnitKey, UnitKey)],
    forced_byes: &[UnitKey],
) -> (r: Vec<UnitKey>)
    ensures
        ascending(r@),
        forall|k: UnitKey| r@.contains(k) <==> eligible(present@, forced_pairs@, forced_byes@, k),
{
    let mut free: Vec<UnitKey> = Vec::new();
    let mut have_last = false;
    let mut last: u32 = 0;
    loop
        invariant
            ascending(free@),
            forall|i: int| 0 <= i < free@.len() ==> eligible(present@, forced_pairs@, forced_byes@, #[trigger] free@[i]),
            have_last ==> free@.len() > 0 && free@.last().0 == last,
            !have_last ==> free@.len() == 0,
            forall|k: UnitKey|
                eligible(present@, forced_pairs@, forced_byes@, k) && have_last && k.0 <= last ==> #[trigger] free@.contains(k),
        ensures
            ascending(free@),
            forall|k: UnitKey| #[trigger] free@.contains(k) <==> eligible(present@, forced_pairs@, forced_byes@, k),
        decreases (if have_last {
            u32::MAX - last
        } else {
            u32::MAX + 1
        }),
    {
        let mut found = false;
        let mut best: u32 = 0;
        let mut i: usize = 0;
        while i < present.len()
            invariant
                i <= present@.len(),
                found ==> (!have_last || best > last) && eligible(present@, forced_pairs@, forced_byes@, UnitKey(best)),
                forall|j: int|
                    0 <= j < i && (!have_last || present@[j].0 > last) && !placed(forced_pairs@, forced_byes@, #[trigger] present@[j])
                        ==> found && best <= present@[j].0,
            decreases present@.len() - i,
        {
            let k = present[i];
            if (!have_last || k.0 > last) && !is_placed(forced_pairs, forced_byes, k) && (!found || k.0 < best) {
                assert(present@.contains(k)) by {
                    assert(present@[i as int] == k);
                }
                found = true;
                best = k.0;
            }
            i += 1;
        }
        if !found {
            assert forall|k: UnitKey| eligible(present@, forced_pairs@, forced_byes@, k) implies #[trigger] free@.contains(k) by {
                let j = choose|j: int| 0 <= j < present@.len() && present@[j] == k;
                assert(present@[j] == k);
            }
            assert forall|k: UnitKey| #[trigger] free@.contains(k) implies eligible(present@, forced_pairs@, forced_byes@, k) by {
                let p = choose|p: int| 0 <= p < free@.len() && free@[p] == k;
                assert(eligible(present@, forced_pairs@, forced_byes@, free@[p]));
            }
            break;
        }
        let ghost old_free = free@;
        proof {
            assert forall|k: UnitKey|
                eligible(present@, forced_pairs@, forced_byes@, k) && k.0 <= best implies #[trigger] old_free.push(UnitKey(best)).contains(k) by {
                if k.0 == best {
                    assert(old_free.push(UnitKey(best))[old_free.len() as int] == k);
                } else {
                    let j = choose|j: int| 0 <= j < present@.len() && present@[j] == k;
                    assert(present@[j] == k);
                    assert(old_free.contains(k));
                    let p = choose|p: int| 0 <= p < old_free.len() && old_free[p] == k;
                    assert(old_free.push(UnitKey(best))[p] == k);
                }
            }
        }
        free.push(UnitKey(best));
        last = best;
        have_last = true;
    }
    free
}

/// An ascending sequence drawn from `present` is no longer than it.
pub proof fn lemma_free_len(free: Seq<UnitKey>, present: Seq<UnitKey>)
    requires
        ascending(free),
        forall|k: UnitKey| free.contains(k) ==> present.contains(k),
    ensures
        free.len() <= present.len(),
        free.no_duplicates(),
{
    broadcast use vstd::seq_lib::seq_to_set_is_finite;

    assert(free.no_duplicates()) by {
        assert forall|i: int, j: int| 0 <= i < free.len() && 0 <= j < free.len() && i != j implies free[i] != free[j] by {
            if i < j {
                assert(free[i].0 < free[j].0);
            } else {
                assert(free[j].0 < free[i].0);
            }
        }
    }
    free.unique_seq_to_set();
    present.lemma_cardinality_of_set();
    assert(free.to_set().subset_of(present.to_set())) by {
        assert forall|k: UnitKey| free.to_set().contains(k) implies present.to_set().contains(k) by {
            assert(free.contains(k));
        }
    }
    vstd::set_lib::lemma_len_subset(free.to_set(), present.to_set());
}

/// What pairing needs of a present or forced unit: inside the table, its
/// floats predating the round, one club and one nationality per board, and
/// its points small enough for the frozen points difference.
pub open spec fn pairable(rows: Seq<PairingUnit>, k: UnitKey, number: u32) -> bool {
    &&& (k.0 as int) < rows.len()
    &&& floats_predate(rows[k.0 as int], number)
    &&& rows[k.0 as int].clubs@.len() == rows[k.0 as int].nationalities@.len()
    &&& rows[k.0 as int].clubs@.len() <= u32::MAX
    &&& rows[k.0 as int].points.0 <= i32::MAX
}

/// `points(a) − points(b)`, as frozen onto a board.
fn points_diff(units: &TiVec<UnitKey, PairingUnit>, a: UnitKey, b: UnitKey) -> (r: i32)
    requires
        (a.0 as int) < unit_rows(*units).len(),
        (b.0 as int) < unit_rows(*units).len(),
        unit_rows(*units)[a.0 as int].points.0 <= i32::MAX,
        unit_rows(*units)[b.0 as int].points.0 <= i32::MAX,
    ensures
        r == points_diff_of(unit_rows(*units), a, b),
{
    let pa = unit_at(units, a).points.0;
    let pb = unit_at(units, b).points.0;
    pa as i32 - pb as i32
}

/// The forced pairs as pairs of the round.
pub open spec fn forced_of(rows: Seq<PairingUnit>, forced_pairs: Seq<(UnitKey, UnitKey)>) -> Seq<PairedUnits> {
    forced_pairs.map_values(|p: (UnitKey, UnitKey)| PairedUnits {
        a: p.0,
        b: p.1,
        source: PairingSource::Forced,
        points_diff: points_diff_of(rows, p.0, p.1) as i32,
    })
}

impl<'u> RoundInstance<'u> {
    /// The instance is the one the round's inputs call for: the canonical free
    /// set, the forced pairs, and a matrix of the model's ladder weights.
    pub open spec fn prepared_from(
        &self,
        number: u32,
        settings: TournamentSettings,
        units: &TiVec<UnitKey, PairingUnit>,
        present: Seq<UnitKey>,
        forced_pairs: Seq<(UnitKey, UnitKey)>,
        forced_byes: Seq<UnitKey>,
    ) -> bool {
        let rows = unit_rows(*units);
        let k = self.free@.len() as int;
        &&& *self.units == *units
        &&& ascending(self.free@)
        &&& forall|u: UnitKey| #[trigger] self.free@.contains(u) <==> eligible(present, forced_pairs, forced_byes, u)
        &&& self.need_phantom == (k % 2 == 1)
        &&& self.vcount == k + if self.need_phantom { 1int } else { 0int }
        &&& self.forced@ == forced_of(rows, forced_pairs)
        &&& (self.vcount >= 2 <==> self.model is Some)
        &&& (self.model matches Some(m) ==> {
            &&& m.wf()
            &&& m.derived_from(number, settings, units, self.free@, self.need_phantom)
            &&& self.cost@.len() == self.vcount
            &&& forall|i: int| 0 <= i < self.vcount ==> (#[trigger] self.cost@[i])@.len() == self.vcount
            &&& forall|i: int, j: int|
                0 <= i < self.vcount && 0 <= j < self.vcount ==> #[trigger] self.cost@[i]@[j] == cost_entry(&m, self.free@, self.need_phantom, i, j)
        })
        &&& (self.model is None ==> self.cost@.len() == 0)
    }
}

/// Whether the round's costs leave `i128`: over the canonical pool (the
/// present units not forced, non-empty), either the ELO spread does not fit
/// or the derived model's ladder does not.
pub open spec fn round_overflows(
    number: u32,
    settings: TournamentSettings,
    units: &TiVec<UnitKey, PairingUnit>,
    present: Seq<UnitKey>,
    forced_pairs: Seq<(UnitKey, UnitKey)>,
    forced_byes: Seq<UnitKey>,
) -> bool {
    exists|free: Seq<UnitKey>|
        ascending(free) && (forall|u: UnitKey| #[trigger] free.contains(u) <==> eligible(present, forced_pairs, forced_byes, u))
            && free.len() > 0 && (!elo_spread_fits(settings, unit_rows(*units), free, free.len() % 2 == 1)
            || exists|m: PairingModel| m.derived_from(number, settings, units, free, free.len() % 2 == 1)
            && !ladder_fits(m.max_total@))
}

/// Every present unit, and both sides of every forced pair, is [`pairable`].
pub open spec fn all_pairable(
    rows: Seq<PairingUnit>,
    present: Seq<UnitKey>,
    forced_pairs: Seq<(UnitKey, UnitKey)>,
    number: u32,
) -> bool {
    &&& forall|i: int| 0 <= i < present.len() ==> pairable(rows, #[trigger] present[i], number)
    &&& forall|i: int|
        0 <= i < forced_pairs.len() ==> pairable(rows, (#[trigger] forced_pairs[i]).0, number)
            && pairable(rows, forced_pairs[i].1, number)
}

/// Set up one round's matching: take the forced pairs and byes out of the
/// pool, order the rest canonically, add a phantom vertex when they are odd,
/// and score every edge with the round's model. `None` when the round's costs
/// would leave `i128` (see [`round_overflows`]).
pub fn prepare_round<'u>(
    number: u32,
    settings: &TournamentSettings,
    units: &'u TiVec<UnitKey, PairingUnit>,
    present: &[UnitKey],
    forced_pairs: &[(UnitKey, UnitKey)],
    forced_byes: &[UnitKey],
) -> (r: Option<RoundInstance<'u>>)
    requires
        present@.len() < u32::MAX,
        forall|i: int| 0 <= i < present@.len() ==> pairable(unit_rows(*units), #[trigger] present@[i], number),
        forall|i: int|
            0 <= i < forced_pairs@.len() ==> pairable(unit_rows(*units), (#[trigger] forced_pairs@[i]).0, number)
                && pairable(unit_rows(*units), forced_pairs@[i].1, number),
    ensures
        r matches Some(inst) ==> inst.prepared_from(number, *settings, units, present@, forced_pairs@, forced_byes@),
        r is None <==> round_overflows(number, *settings, units, present@, forced_pairs@, forced_byes@),
{
    let ghost rows = unit_rows(*units);
    let mut forced: Vec<PairedUnits> = Vec::new();
    let mut i: usize = 0;
    while i < forced_pairs.len()
        invariant
            i <= forced_pairs@.len(),
            rows == unit_rows(*units),
            forall|j: int|
                0 <= j < forced_pairs@.len() ==> pairable(rows, (#[trigger] forced_pairs@[j]).0, number)
                    && pairable(rows, forced_pairs@[j].1, number),
            forced@ == forced_of(rows, forced_pairs@).subrange(0, i as int),
        decreases forced_pairs@.len() - i,
    {
        let (a, b) = forced_pairs[i];
        assert(pairable(rows, forced_pairs@[i as int].0, number));
        let d = points_diff(units, a, b);
        forced.push(PairedUnits { a, b, source: PairingSource::Forced, points_diff: d });
        proof {
            assert(forced@ =~= forced_of(rows, forced_pairs@).subrange(0, i + 1));
        }
        i += 1;
    }
    proof {
        assert(forced@ =~= forced_of(rows, forced_pairs@));
    }
    let free = canonical_free(present, forced_pairs, forced_byes);
    proof {
        assert forall|k: UnitKey| free@.contains(k) implies present@.contains(k) by {
            assert(eligible(present@, forced_pairs@, forced_byes@, k));
        }
        lemma_free_len(free@, present@);
    }
    let k = free.len();
    let need_phantom = k % 2 == 1;
    let vcount = if need_phantom { k + 1 } else { k };
    proof {
        assert forall|f: Seq<UnitKey>|
            ascending(f) && (forall|u: UnitKey| #[trigger] f.contains(u) <==> eligible(present@, forced_pairs@, forced_byes@, u))
            implies f == free@ by {
            assert forall|u: UnitKey| #[trigger] f.contains(u) <==> free@.contains(u) by {
                assert(f.contains(u) <==> eligible(present@, forced_pairs@, forced_byes@, u));
            }
            lemma_ascending_same_keys(f, free@);
        }
    }
    if vcount < 2 {
        return Some(RoundInstance { units, free, need_phantom, vcount, cost: Vec::new(), forced, model: None });
    }
    proof {
        assert forall|j: int| 0 <= j < free@.len() implies pairable(rows, #[trigger] free@[j], number) by {
            assert(free@.contains(free@[j]));
            let p = choose|p: int| 0 <= p < present@.len() && present@[p] == free@[j];
            assert(pairable(rows, present@[p], number));
        }
    }
    let model = match PairingModel::build(number, settings, units, free.as_slice(), need_phantom) {
        Some(m) => m,
        None => {
            return None;
        },
    };
    let mut cost: Vec<Vec<i128>> = Vec::new();
    let mut i: usize = 0;
    while i < vcount
        invariant
            i <= vcount,
            k == free@.len(),
            vcount == k + if need_phantom { 1int } else { 0int },
            model.wf(),
            model.free@ == free@,
            model.need_phantom == need_phantom,
            ascending(free@),
            cost@.len() == i,
            forall|r: int| 0 <= r < i ==> (#[trigger] cost@[r])@.len() == vcount,
            forall|r: int, c: int|
                0 <= r < i && 0 <= c < vcount ==> #[trigger] cost@[r]@[c] == cost_entry(&model, free@, need_phantom, r, c),
        decreases vcount - i,
    {
        let mut row: Vec<i128> = Vec::new();
        let mut j: usize = 0;
        while j < vcount
            invariant
                i < vcount,
                j <= vcount,
                k == free@.len(),
                vcount == k + if need_phantom { 1int } else { 0int },
                model.wf(),
                model.free@ == free@,
                model.need_phantom == need_phantom,
                ascending(free@),
                row@.len() == j,
                forall|c: int| 0 <= c < j ==> #[trigger] row@[c] == cost_entry(&model, free@, need_phantom, i as int, c),
            decreases vcount - j,
        {
            let c: i128 = if i < j && j < k {
                proof {
                    assert(free@.contains(free@[i as int]));
                    assert(free@.contains(free@[j as int]));
                    assert(free@[i as int].0 < free@[j as int].0);
                }
                model.edge_cost(free[i], free[j])
            } else if need_phantom && i < k && j == k {
                assert(free@.contains(free@[i as int]));
                model.bye_cost(free[i])
            } else if need_phantom && j < k && i == k {
                assert(free@.contains(free@[j as int]));
                model.bye_cost(free[j])
            } else {
                0
            };
            row.push(c);
            j += 1;
        }
        cost.push(row);
        i += 1;
    }
    Some(RoundInstance { units, free, need_phantom, vcount, cost, forced, model: Some(model) })
}

/// `mate` is a perfect matching on `n` vertices: every vertex is matched to
/// another, and the relation is symmetric.
pub open spec fn perfect_matching(mate: Seq<usize>, n: int) -> bool {
    &&& mate.len() == n
    &&& forall|i: int| 0 <= i < n ==> (#[trigger] mate[i]) < n && mate[i] != i && mate[mate[i] as int] == i
}

/// The engine's pairs read off the first `n` vertices of a matching: one per
/// matched couple, taken at its lower vertex, leaving out the phantom's.
pub open spec fn engine_pairs(
    rows: Seq<PairingUnit>,
    free: Seq<UnitKey>,
    need_phantom: bool,
    mate: Seq<usize>,
    n: int,
) -> Seq<PairedUnits>
    decreases n,
{
    if n <= 0 {
        Seq::empty()
    } else {
        let i = n - 1;
        let j = mate[i] as int;
        let k = free.len() as int;
        let rest = engine_pairs(rows, free, need_phantom, mate, n - 1);
        if i < j && !(need_phantom && (i == k || j == k)) {
            rest.push(
                PairedUnits {
                    a: free[i],
                    b: free[j],
                    source: PairingSource::Swiss,
                    points_diff: points_diff_of(rows, free[i], free[j]) as i32,
                },
            )
        } else {
            rest
        }
    }
}

impl<'u> RoundInstance<'u> {
    /// Read the solver's answer back: `mate[i]` is the vertex matched to
    /// vertex `i`. The pairs are the forced ones followed by the engine's, in
    /// vertex order; the unit matched to the phantom takes the bye. `None` when
    /// `mate` is not a perfect matching on the instance's vertices.
    pub fn finish(&self, mate: &[usize]) -> (r: Option<UnitPairing>)
        requires
            forall|i: int| 0 <= i < self.free@.len() ==> (#[trigger] self.free@[i].0 as int) < unit_rows(*self.units).len()
                && unit_rows(*self.units)[self.free@[i].0 as int].points.0 <= i32::MAX,
            self.vcount == self.free@.len() + if self.need_phantom { 1int } else { 0int },
        ensures
            r is Some <==> perfect_matching(mate@, self.vcount as int),
            r matches Some(p) ==> {
                &&& p.pairs@ == self.forced@ + engine_pairs(
                    unit_rows(*self.units),
                    self.free@,
                    self.need_phantom,
                    mate@,
                    self.vcount as int,
                )
                &&& p.swiss_bye == if self.need_phantom {
                    Some(self.free@[mate@[self.free@.len() as int] as int])
                } else {
                    None::<UnitKey>
                }
            },
    {
        let ghost rows = unit_rows(*self.units);
        let n = self.vcount;
        if mate.len() != n {
            return None;
        }
        let mut i: usize = 0;
        while i < n
            invariant
                i <= n,
                mate@.len() == n,
                forall|j: int| 0 <= j < i ==> (#[trigger] mate@[j]) < n && mate@[j] != j && mate@[mate@[j] as int] == j,
            decreases n - i,
        {
            let j = mate[i];
            if j >= n || j == i || mate[j] != i {
                return None;
            }
            i += 1;
        }
        let k = self.free.len();
        let mut pairs: Vec<PairedUnits> = Vec::new();
        let mut f: usize = 0;
        while f < self.forced.len()
            invariant
                f <= self.forced@.len(),
                pairs@ == self.forced@.subrange(0, f as int),
            decreases self.forced@.len() - f,
        {
            pairs.push(self.forced[f]);
            proof {
                assert(pairs@ =~= self.forced@.subrange(0, f + 1));
            }
            f += 1;
        }
        proof {
            assert(pairs@ =~= self.forced@ + engine_pairs(rows, self.free@, self.need_phantom, mate@, 0));
        }
        let mut bye: Option<UnitKey> = None;
        let mut i: usize = 0;
        while i < n
            invariant
                i <= n,
                n == self.vcount,
                k == self.free@.len(),
                n == k + if self.need_phantom { 1int } else { 0int },
                rows == unit_rows(*self.units),
                forall|j: int| 0 <= j < k ==> (#[trigger] self.free@[j].0 as int) < rows.len() && rows[self.free@[j].0 as int].points.0 <= i32::MAX,
                perfect_matching(mate@, n as int),
                pairs@ == self.forced@ + engine_pairs(rows, self.free@, self.need_phantom, mate@, i as int),
                bye == if self.need_phantom && (mate@[k as int] as int) < i {
                    Some(self.free@[mate@[k as int] as int])
                } else {
                    None::<UnitKey>
                },
            decreases n - i,
        {
            let j = mate[i];
            if i < j {
                if self.need_phantom && (i == k || j == k) {
                    let sits = if i == k { j } else { i };
                    bye = Some(self.free[sits]);
                } else {
                    let d = points_diff(self.units, self.free[i], self.free[j]);
                    pairs.push(PairedUnits { a: self.free[i], b: self.free[j], source: PairingSource::Swiss, points_diff: d });
                }
            }
            proof {
                assert(pairs@ =~= self.forced@ + engine_pairs(rows, self.free@, self.need_phantom, mate@, i + 1));
            }
            i += 1;
        }
        Some(UnitPairing { pairs, swiss_bye: bye })
    }
}

/// Two ascending key sequences with the same elements are equal.
pub(crate) proof fn lemma_ascending_same_keys(s: Seq<UnitKey>, c: Seq<UnitKey>)
    requires
        ascending(s),
        ascending(c),
        forall|u: UnitKey| s.contains(u) <==> c.contains(u),
    ensures
        s == c,
    decreases s.len() + c.len(),
{
    if s.len() == 0 || c.len() == 0 {
        if s.len() > 0 {
            assert(s.contains(s[0]));
        }
        if c.len() > 0 {
            assert(c.contains(c[0]));
        }
        assert(s =~= c);
    } else {
        let ls = s.last();
        let lc = c.last();
        assert(s.contains(ls));
        assert(c.contains(lc));
        let i = choose|i: int| 0 <= i < c.len() && c[i] == ls;
        let j = choose|j: int| 0 <= j < s.len() && s[j] == lc;
        if ls != lc {
            if i < c.len() - 1 {
                assert(c[i].0 < c[c.len() - 1].0);
            }
            if j < s.len() - 1 {
                assert(s[j].0 < s[s.len() - 1].0);
            }
        }
        let s2 = s.drop_last();
        let c2 = c.drop_last();
        assert forall|u: UnitKey| s2.contains(u) <==> c2.contains(u) by {
            if s2.contains(u) {
                let p = choose|p: int| 0 <= p < s2.len() && s2[p] == u;
                assert(s[p].0 < s[s.len() - 1].0);
                assert(c.contains(u));
                let q = choose|q: int| 0 <= q < c.len() && c[q] == u;
                assert(q != c.len() - 1);
                assert(c2[q] == u);
            }
            if c2.contains(u) {
                let p = choose|p: int| 0 <= p < c2.len() && c2[p] == u;
                assert(c[p].0 < c[c.len() - 1].0);
                assert(s.contains(u));
                let q = choose|q: int| 0 <= q < s.len() && s[q] == u;
                assert(q != s.len() - 1);
                assert(s2[q] == u);
            }
        }
        assert forall|x: int, y: int| 0 <= x < y < s2.len() implies (#[trigger] s2[x]).0 < (#[trigger] s2[y]).0 by {
            assert(s[x].0 < s[y].0);
        }
        assert forall|x: int, y: int| 0 <= x < y < c2.len() implies (#[trigger] c2[x]).0 < (#[trigger] c2[y]).0 by {
            assert(c[x].0 < c[y].0);
        }
        lemma_ascending_same_keys(s2, c2);
        assert(s =~= s2.push(ls));
        assert(c =~= c2.push(lc));
    }
}

/// The units the engine pairs, and so the shape of the matching, depend on
/// which units are present, not on the order they were listed in: two
/// instances prepared from present lists holding the same keys (and the same
/// forced pairs and byes) pair the same units in the same vertex order, with
/// the same phantom.
pub proof fn lemma_free_order_ignores_present_order<'u>(
    a: RoundInstance<'u>,
    b: RoundInstance<'u>,
    number: u32,
    settings: TournamentSettings,
    units: &'u TiVec<UnitKey, PairingUnit>,
    present_a: Seq<UnitKey>,
    present_b: Seq<UnitKey>,
    forced_pairs: Seq<(UnitKey, UnitKey)>,
    forced_byes: Seq<UnitKey>,
)
    requires
        a.prepared_from(number, settings, units, present_a, forced_pairs, forced_byes),
        b.prepared_from(number, settings, units, present_b, forced_pairs, forced_byes),
        forall|u: UnitKey| present_a.contains(u) <==> present_b.contains(u),
    ensures
        a.free@ == b.free@,
        a.need_phantom == b.need_phantom,
        a.vcount == b.vcount,
        a.forced@ == b.forced@,
{
    assert forall|u: UnitKey| a.free@.contains(u) <==> b.free@.contains(u) by {
        assert(a.free@.contains(u) <==> eligible(present_a, forced_pairs, forced_byes, u));
        assert(b.free@.contains(u) <==> eligible(present_b, forced_pairs, forced_byes, u));
    }
    lemma_ascending_same_keys(a.free@, b.free@);
}

/// Whether `key` names a unit pairing can score in round `number`.
pub fn is_pairable(units: &TiVec<UnitKey, PairingUnit>, key: UnitKey, number: u32) -> (r: bool)
    ensures
        r == pairable(unit_rows(*units), key, number),
{
    if key.index() >= unit_count(units) {
        return false;
    }
    let u = unit_at(units, key);
    let ascended = match u.last_ascended {
        Some(k) => k < number,
        None => true,
    };
    let descended = match u.last_descended {
        Some(k) => k < number,
        None => true,
    };
    ascended && descended && u.clubs.len() == u.nationalities.len() && u.clubs.len() <= u32::MAX as usize
        && u.points.0 <= i32::MAX as u32
}

/// Why a round could not be set up.
#[derive(Debug, Clone, Copy, PartialEq, Eq)]
pub enum RoundSetupError {
    /// More present units than a round can number.
    FieldTooLarge,
    /// A present or forced unit pairing cannot score (the first found).
    NotPairable(UnitKey),
    /// The round's costs would leave `i128`.
    Overflow,
}

/// [`prepare_round`] on inputs not yet checked: first the field's size, then
/// that every present unit and both sides of every forced pair are
/// [`pairable`], then the round itself.
pub fn try_prepare_round<'u>(
    number: u32,
    settings: &TournamentSettings,
    units: &'u TiVec<UnitKey, PairingUnit>,
    present: &[UnitKey],
    forced_pairs: &[(UnitKey, UnitKey)],
    forced_byes: &[UnitKey],
) -> (r: Result<RoundInstance<'u>, RoundSetupError>)
    ensures
        (r == Err::<RoundInstance<'u>, RoundSetupError>(RoundSetupError::FieldTooLarge)) <==> present@.len() >= u32::MAX,
        (r matches Err(RoundSetupError::NotPairable(_))) <==> present@.len() < u32::MAX && !all_pairable(
            unit_rows(*units),
            present@,
            forced_pairs@,
            number,
        ),
        r matches Err(RoundSetupError::NotPairable(k)) ==> !pairable(unit_rows(*units), k, number) && (present@.contains(k)
            || exists|i: int| 0 <= i < forced_pairs@.len() && (#[trigger] forced_pairs@[i].0 == k || forced_pairs@[i].1 == k)),
        (r == Err::<RoundInstance<'u>, RoundSetupError>(RoundSetupError::Overflow)) <==> present@.len() < u32::MAX
            && all_pairable(unit_rows(*units), present@, forced_pairs@, number)
            && round_overflows(number, *settings, units, present@, forced_pairs@, forced_byes@),
        r matches Ok(inst) ==> inst.prepared_from(number, *settings, units, present@, forced_pairs@, forced_byes@),
{
    if present.len() >= u32::MAX as usize {
        return Err(RoundSetupError::FieldTooLarge);
    }
    let ghost rows = unit_rows(*units);
    let mut i: usize = 0;
    while i < present.len()
        invariant
            i <= present@.len(),
            present@.len() < u32::MAX,
            rows == unit_rows(*units),
            forall|j: int| 0 <= j < i ==> pairable(rows, #[trigger] present@[j], number),
        decreases present@.len() - i,
    {
        if !is_pairable(units, present[i], number) {
            assert(present@.contains(present@[i as int]));
            return Err(RoundSetupError::NotPairable(present[i]));
        }
        i += 1;
    }
    let mut i: usize = 0;
    while i < forced_pairs.len()
        invariant
            i <= forced_pairs@.len(),
            present@.len() < u32::MAX,
            rows == unit_rows(*units),
            forall|j: int| 0 <= j < present@.len() ==> pairable(rows, #[trigger] present@[j], number),
            forall|j: int|
                0 <= j < i ==> pairable(rows, (#[trigger] forced_pairs@[j]).0, number) && pairable(rows, forced_pairs@[j].1, number),
        decreases forced_pairs@.len() - i,
    {
        let (a, b) = forced_pairs[i];
        if !is_pairable(units, a, number) {
            assert(forced_pairs@[i as int].0 == a);
            return Err(RoundSetupError::NotPairable(a));
        }
        if !is_pairable(units, b, number) {
            assert(forced_pairs@[i as int].1 == b);
            return Err(RoundSetupError::NotPairable(b));
        }
        i += 1;
    }
    match prepare_round(number, settings, units, present, forced_pairs, forced_byes) {
        Some(inst) => Ok(inst),
        None => Err(RoundSetupError::Overflow),
    }
}

/// How many of `pairs` have `u` on one side.
pub open spec fn pairs_with(pairs: Seq<PairedUnits>, u: UnitKey) -> nat
    decreases pairs.len(),
{
    if pairs.len() == 0 {
        0
    } else {
        pairs_with(pairs.drop_last(), u) + if pairs.last().a == u || pairs.last().b == u {
            1nat
        } else {
            0nat
        }
    }
}

/// The engine's pairs read off the first `m` vertices hold vertex `t` once
/// for its own couple, if that couple is read by then and is not the bye.
proof fn lemma_engine_pairs_prefix(
    rows: Seq<PairingUnit>,
    free: Seq<UnitKey>,
    need_phantom: bool,
    mate: Seq<usize>,
    t: int,
    m: int,
)
    requires
        perfect_matching(mate, free.len() + if need_phantom { 1int } else { 0int }),
        free.no_duplicates(),
        0 <= t < free.len(),
        0 <= m <= mate.len(),
    ensures
        pairs_with(engine_pairs(rows, free, need_phantom, mate, m), free[t]) == if need_phantom
            && mate[t] as int == free.len() {
            0int
        } else if (t < m && t < mate[t]) || ((mate[t] as int) < m && (mate[t] as int) < t) {
            1int
        } else {
            0int
        },
    decreases m,
{
    let k = free.len() as int;
    if m > 0 {
        lemma_engine_pairs_prefix(rows, free, need_phantom, mate, t, m - 1);
        let i = m - 1;
        let j = mate[i] as int;
        let rest = engine_pairs(rows, free, need_phantom, mate, m - 1);
        assert(mate[j] as int == i);
        assert(mate[t] < mate.len() && mate[mate[t] as int] as int == t);
        if i < j && !(need_phantom && (i == k || j == k)) {
            let p = PairedUnits {
                a: free[i],
                b: free[j],
                source: PairingSource::Swiss,
                points_diff: points_diff_of(rows, free[i], free[j]) as i32,
            };
            assert(engine_pairs(rows, free, need_phantom, mate, m) == rest.push(p));
            assert(rest.push(p).drop_last() == rest);
            assert(i < k && j < k);
            assert(free[i] == free[t] <==> i == t);
            assert(free[j] == free[t] <==> j == t);
        }
    }
}

/// In a perfect matching read back by [`RoundInstance::finish`], every free
/// unit sits in exactly one of the engine's pairs, except the one matched to
/// the phantom, which sits in none and takes the bye.
pub proof fn lemma_engine_pairs_cover(
    rows: Seq<PairingUnit>,
    free: Seq<UnitKey>,
    need_phantom: bool,
    mate: Seq<usize>,
    t: int,
)
    requires
        perfect_matching(mate, free.len() + if need_phantom { 1int } else { 0int }),
        free.no_duplicates(),
        0 <= t < free.len(),
    ensures
        pairs_with(engine_pairs(rows, free, need_phantom, mate, mate.len() as int), free[t]) == if need_phantom
            && mate[free.len() as int] as int == t {
            0int
        } else {
            1int
        },
{
    let k = free.len() as int;
    lemma_engine_pairs_prefix(rows, free, need_phantom, mate, t, mate.len() as int);
    if need_phantom {
        assert(mate[k] < mate.len() && mate[mate[k] as int] as int == k);
        assert(mate[t] < mate.len() && mate[mate[t] as int] as int == t);
    }
}

/// The points difference frozen on a board reads from its first side: it is
/// positive when the first side has more points, the negation of the
/// difference read from the other side, and zero between equal scores.
pub proof fn lemma_points_difference_reads_from_side_one(rows: Seq<PairingUnit>, a: UnitKey, b: UnitKey)
    ensures
        points_diff_of(rows, a, b) == -points_diff_of(rows, b, a),
        (points_diff_of(rows, a, b) > 0) == (rows[a.0 as int].points.0 > rows[b.0 as int].points.0),
        rows[a.0 as int].points == rows[b.0 as int].points ==> points_diff_of(rows, a, b) == 0,
{
}

} // verus!
