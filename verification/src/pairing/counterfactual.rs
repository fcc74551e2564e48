//! "Why not pair A and B?" — and its mirror, "why *did* you pair A and B?".
//!
//! Both answers are produced the same way: re-solve the round with the probed
//! edge forced in (or forbidden), tie-broken toward the pairing the referee is
//! looking at so the alternative differs in as few boards as it can, then diff
//! the two matchings into the rings of players that had to move and the net
//! per-rule cost of moving them. A matching is a list of normalized edges
//! (lower key first); the bye is an edge to the phantom key 0.

use vstd::prelude::*;

use typed_index_collections::TiVec;

use crate::settings::TournamentSettings;
use crate::tables::unit_rows;
use crate::units::UnitKey;

use super::explain::{
    board_sides, engine_free, explained_free, lemma_board_sides, ledger, ledger_of, ledger_parts,
    BoardLedger,
};
use super::matching::{is_pairable, pairable};
use super::model::{elo_spread_fits, lemma_derived_models_agree, PairingModel, PairingUnit};
use super::matching::ascending;
use super::rules::{
    bye_units_seq, edge_units_seq, lemma_alike_contexts_score_alike, reads_alike, rule_id, weighted, Rule,
    RuleId,
};

verus! {

/// Why a probed player is out of the engine's hands.
#[derive(Debug, Clone, Copy, PartialEq, Eq, Structural)]
pub enum ScopeReason {
    /// The player's board was fixed by the referee.
    Forced,
    /// The player's board comes from the cup bracket.
    Cup,
    /// The player is finishing a long game carried from the previous round.
    MidLongGame,
    /// The player sat this round out.
    Absent,
}

/// One board's share of a rule's change: the units that rule scores on it,
/// positive for a board the counterfactual adds, negative for one it takes
/// away. `player2` is `None` for a bye.
#[derive(Debug, Clone, Copy, PartialEq, Eq, Structural)]
pub struct BoardDelta {
    pub player1: UnitKey,
    pub player2: Option<UnitKey>,
    pub units: i64,
}

/// One rule's net change between the confirmed pairing and the
/// counterfactual, and the boards it came from.
#[derive(Debug, Clone, PartialEq, Eq)]
pub struct RuleDelta {
    pub rule: RuleId,
    pub units: i64,
    pub boards: Vec<BoardDelta>,
}

/// A ring of players who must reshuffle to honour the probe.
#[derive(Debug, Clone, PartialEq, Eq)]
pub struct AffectedCycle {
    pub players: Vec<UnitKey>,
}

/// The consequence of a probe: which boards change, the rings of affected
/// players, and the net per-rule cost.
#[derive(Debug, Clone, PartialEq, Eq)]
pub struct Counterfactual {
    /// Set when the probe can't be reasoned about; the other fields are then
    /// empty.
    pub scoped_out: Option<ScopeReason>,
    /// Per-rule net change (priority order), only rules that actually moved.
    pub cost_delta: Vec<RuleDelta>,
    /// The affected player rings.
    pub cycles: Vec<AffectedCycle>,
    /// The new boards, each with its rule ledger.
    pub changed: Vec<BoardLedger>,
}

/// Which alternative a referee is probing.
#[derive(Debug, Clone, Copy, PartialEq, Eq, Structural)]
pub enum CounterfactualMode {
    /// Force the edge, re-solve the rest.
    Force,
    /// Forbid the edge, re-solve.
    Forbid,
}

/// The phantom vertex the bye is an edge to.
pub open spec fn phantom() -> UnitKey {
    UnitKey(0)
}

/// The edge between `a` and `b`, lower key first.
pub open spec fn unord(a: UnitKey, b: UnitKey) -> (UnitKey, UnitKey) {
    if a.0 <= b.0 {
        (a, b)
    } else {
        (b, a)
    }
}

/// Normalized (order-independent) edge, so `(a, b)` and `(b, a)` are one key.
pub fn unord_pair(a: UnitKey, b: UnitKey) -> (r: (UnitKey, UnitKey))
    ensures
        r == unord(a, b),
{
    if a.0 <= b.0 {
        (a, b)
    } else {
        (b, a)
    }
}

/// Edges in lexicographic key order.
pub open spec fn edge_less(e: (UnitKey, UnitKey), f: (UnitKey, UnitKey)) -> bool {
    e.0.0 < f.0.0 || (e.0.0 == f.0.0 && e.1.0 < f.1.0)
}

/// `s` is strictly increasing in edge order.
pub open spec fn edges_ascending(s: Seq<(UnitKey, UnitKey)>) -> bool {
    forall|i: int, j: int| 0 <= i < j < s.len() ==> edge_less(#[trigger] s[i], #[trigger] s[j])
}

fn edge_lt(e: (UnitKey, UnitKey), f: (UnitKey, UnitKey)) -> (r: bool)
    ensures
        r == edge_less(e, f),
{
    e.0.0 < f.0.0 || (e.0.0 == f.0.0 && e.1.0 < f.1.0)
}

/// Whether `e` is one of `m`'s edges.
fn has_edge(m: &Vec<(UnitKey, UnitKey)>, e: (UnitKey, UnitKey)) -> (r: bool)
    ensures
        r == m@.contains(e),
{
    let mut i: usize = 0;
    while i < m.len()
        invariant
            i <= m@.len(),
            forall|j: int| 0 <= j < i ==> m@[j] != e,
        decreases m@.len() - i,
    {
        if m[i].0 == e.0 && m[i].1 == e.1 {
            assert(m@[i as int] == e);
            return true;
        }
        i += 1;
    }
    false
}

/// The edges of `m1` missing from `m0`, in ascending edge order (so every
/// repeated probe reads the same).
pub fn edges_not_in(m1: &Vec<(UnitKey, UnitKey)>, m0: &Vec<(UnitKey, UnitKey)>) -> (r: Vec<(UnitKey, UnitKey)>)
    ensures
        edges_ascending(r@),
        forall|e: (UnitKey, UnitKey)| r@.contains(e) <==> m1@.contains(e) && !m0@.contains(e),
{
    let mut out: Vec<(UnitKey, UnitKey)> = Vec::new();
    let mut have_last = false;
    let mut last: (UnitKey, UnitKey) = (UnitKey(0), UnitKey(0));
    loop
        invariant
            edges_ascending(out@),
            forall|i: int| 0 <= i < out@.len() ==> m1@.contains(#[trigger] out@[i]) && !m0@.contains(out@[i]),
            have_last ==> out@.len() > 0 && out@.last() == last,
            !have_last ==> out@.len() == 0,
            forall|e: (UnitKey, UnitKey)|
                m1@.contains(e) && !m0@.contains(e) && have_last && !edge_less(last, e) ==> #[trigger] out@.contains(e),
        ensures
            edges_ascending(out@),
            forall|e: (UnitKey, UnitKey)| #[trigger] out@.contains(e) <==> m1@.contains(e) && !m0@.contains(e),
        decreases (if have_last {
            (0x1_0000_0000int - last.0.0) * 0x1_0000_0000int - last.1.0
        } else {
            0x1_0000_0000int * 0x1_0000_0000int + 1
        }),
    {
        let mut found = false;
        let mut best: (UnitKey, UnitKey) = (UnitKey(0), UnitKey(0));
        let mut i: usize = 0;
        while i < m1.len()
            invariant
                i <= m1@.len(),
                found ==> (!have_last || edge_less(last, best)) && m1@.contains(best) && !m0@.contains(best),
                forall|j: int|
                    0 <= j < i && (!have_last || edge_less(last, m1@[j])) && !m0@.contains(#[trigger] m1@[j])
                        ==> found && !edge_less(m1@[j], best),
            decreases m1@.len() - i,
        {
            let e = m1[i];
            if (!have_last || edge_lt(last, e)) && (!found || edge_lt(e, best)) && !has_edge(m0, e) {
                assert(m1@.contains(e)) by {
                    assert(m1@[i as int] == e);
                }
                found = true;
                best = e;
            }
            i += 1;
        }
        if !found {
            assert forall|e: (UnitKey, UnitKey)| m1@.contains(e) && !m0@.contains(e) implies #[trigger] out@.contains(e) by {
                let j = choose|j: int| 0 <= j < m1@.len() && m1@[j] == e;
                assert(m1@[j] == e);
            }
            assert forall|e: (UnitKey, UnitKey)| #[trigger] out@.contains(e) implies m1@.contains(e) && !m0@.contains(e) by {
                let p = choose|p: int| 0 <= p < out@.len() && out@[p] == e;
                assert(m1@.contains(out@[p]));
            }
            break;
        }
        let ghost old_out = out@;
        proof {
            assert forall|e: (UnitKey, UnitKey)|
                m1@.contains(e) && !m0@.contains(e) && !edge_less(best, e) implies #[trigger] old_out.push(best).contains(e) by {
                if e == best {
                    assert(old_out.push(best)[old_out.len() as int] == e);
                } else {
                    let j = choose|j: int| 0 <= j < m1@.len() && m1@[j] == e;
                    assert(m1@[j] == e);
                    assert(old_out.contains(e));
                    let p = choose|p: int| 0 <= p < old_out.len() && old_out[p] == e;
                    assert(old_out.push(best)[p] == e);
                }
            }
        }
        out.push(best);
        last = best;
        have_last = true;
    }
    out
}

/// A duplicate-free sequence drawn from `t` is no longer than `t`.
pub proof fn lemma_distinct_subset_len<A>(s: Seq<A>, t: Seq<A>)
    requires
        s.no_duplicates(),
        forall|x: A| s.contains(x) ==> t.contains(x),
    ensures
        s.len() <= t.len(),
{
    broadcast use vstd::seq_lib::seq_to_set_is_finite;

    s.unique_seq_to_set();
    t.lemma_cardinality_of_set();
    assert(s.to_set().subset_of(t.to_set())) by {
        assert forall|x: A| s.to_set().contains(x) implies t.to_set().contains(x) by {
            assert(s.contains(x));
        }
    }
    vstd::set_lib::lemma_len_subset(s.to_set(), t.to_set());
}

/// Ascending edges hold no duplicates.
proof fn lemma_ascending_distinct(s: Seq<(UnitKey, UnitKey)>)
    requires
        edges_ascending(s),
    ensures
        s.no_duplicates(),
{
    assert forall|i: int, j: int| 0 <= i < s.len() && 0 <= j < s.len() && i != j implies s[i] != s[j] by {
        if i < j {
            assert(edge_less(s[i], s[j]));
        } else {
            assert(edge_less(s[j], s[i]));
        }
    }
}

/// `e` is an edge the model can score: two distinct free units, or a free unit
/// and the phantom when a bye is in play.
pub open spec fn scorable_edge(m: &PairingModel, e: (UnitKey, UnitKey)) -> bool {
    ||| m.is_free(e.0) && m.is_free(e.1) && e.0 != e.1
    ||| e.0 == phantom() && m.need_phantom && m.is_free(e.1)
    ||| e.1 == phantom() && m.need_phantom && m.is_free(e.0)
}

/// The board an edge stands for: its two sides, or the real side alone for the
/// bye.
pub open spec fn sides(e: (UnitKey, UnitKey)) -> (UnitKey, Option<UnitKey>) {
    if e.0 == phantom() {
        (e.1, None)
    } else if e.1 == phantom() {
        (e.0, None)
    } else {
        (e.0, Some(e.1))
    }
}

/// The per-rule units of an edge: the bye's for an edge to the phantom.
pub open spec fn edge_rule_units(m: &PairingModel, e: (UnitKey, UnitKey)) -> Seq<int> {
    let ctx = m.model_ctx();
    if e.0 == phantom() {
        bye_units_seq(m.rules@, &ctx, e.1)
    } else if e.1 == phantom() {
        bye_units_seq(m.rules@, &ctx, e.0)
    } else {
        edge_units_seq(m.rules@, &ctx, e.0, e.1)
    }
}

/// Rule `i`'s signed board deltas over the first `n` of `edges`: one per edge
/// the rule scores on, its units as the `i64` they are recorded as.
pub open spec fn board_deltas(m: &PairingModel, edges: Seq<(UnitKey, UnitKey)>, negate: bool, i: int, n: int) -> Seq<BoardDelta>
    decreases n,
{
    if n <= 0 {
        Seq::empty()
    } else {
        let rest = board_deltas(m, edges, negate, i, n - 1);
        let e = edges[n - 1];
        let u = edge_rule_units(m, e)[i];
        if u != 0 {
            let v: int = if negate {
                -((u as i64) as int)
            } else {
                (u as i64) as int
            };
            rest.push(BoardDelta { player1: sides(e).0, player2: sides(e).1, units: v as i64 })
        } else {
            rest
        }
    }
}

/// The sum of the first `n` deltas' units.
pub open spec fn delta_sum(ds: Seq<BoardDelta>, n: int) -> int
    decreases n,
{
    if n <= 0 {
        0
    } else {
        delta_sum(ds, n - 1) + ds[n - 1].units as int
    }
}

/// Deltas that agree on the first `n` sum the same over them.
proof fn lemma_delta_sum_prefix(s: Seq<BoardDelta>, t: Seq<BoardDelta>, n: int)
    requires
        0 <= n <= s.len(),
        n <= t.len(),
        forall|j: int| 0 <= j < n ==> s[j] == t[j],
    ensures
        delta_sum(s, n) == delta_sum(t, n),
    decreases n,
{
    if n > 0 {
        lemma_delta_sum_prefix(s, t, n - 1);
    }
}

/// Rule `i`'s boards: the added ones first, then the dropped ones.
pub open spec fn rule_boards(m: &PairingModel, added: Seq<(UnitKey, UnitKey)>, removed: Seq<(UnitKey, UnitKey)>, i: int) -> Seq<BoardDelta> {
    board_deltas(m, added, false, i, added.len() as int) + board_deltas(m, removed, true, i, removed.len() as int)
}

/// The per-rule changes over the first `t` rules: each rule whose net (summed
/// in wrapping `i64`) is not zero, with its boards.
pub open spec fn cost_deltas(m: &PairingModel, added: Seq<(UnitKey, UnitKey)>, removed: Seq<(UnitKey, UnitKey)>, t: int) -> Seq<(RuleId, i64, Seq<BoardDelta>)>
    decreases t,
{
    if t <= 0 {
        Seq::empty()
    } else {
        let rest = cost_deltas(m, added, removed, t - 1);
        let i = t - 1;
        let boards = rule_boards(m, added, removed, i);
        let net = delta_sum(boards, boards.len() as int) as i64;
        if net != 0 {
            rest.push((rule_id(m.rules@[i]), net, boards))
        } else {
            rest
        }
    }
}

/// A rule delta read as its parts.
pub open spec fn rule_delta_parts(d: RuleDelta) -> (RuleId, i64, Seq<BoardDelta>) {
    (d.rule, d.units, d.boards@)
}

/// The per-rule units of a scorable edge.
fn units_of(model: &PairingModel, e: (UnitKey, UnitKey)) -> (r: Vec<i128>)
    requires
        model.wf(),
        scorable_edge(model, e),
        !model.is_free(phantom()),
    ensures
        r@.len() == model.rules@.len(),
        r@.map_values(|u: i128| u as int) == edge_rule_units(model, e),
{
    let (x, y) = e;
    let r = if x.0 == 0 {
        model.bye_units(y)
    } else if y.0 == 0 {
        model.bye_units(x)
    } else {
        model.edge_units(x, y)
    };
    assert(r@.map_values(|u: i128| u as int) =~= edge_rule_units(model, e));
    r
}

/// The board of an edge.
fn sides_of(e: (UnitKey, UnitKey)) -> (r: (UnitKey, Option<UnitKey>))
    ensures
        r == sides(e),
{
    if e.0.0 == 0 {
        (e.1, None)
    } else if e.1.0 == 0 {
        (e.0, None)
    } else {
        (e.0, Some(e.1))
    }
}

/// Append rule `t`'s deltas over `edges` to `boards`, adding their units to
/// `net`.
fn push_deltas(
    model: &PairingModel,
    edges: &Vec<(UnitKey, UnitKey)>,
    units: &Vec<Vec<i128>>,
    negate: bool,
    t: usize,
    boards: &mut Vec<BoardDelta>,
    net: &mut i128,
)
    requires
        units@.len() == edges@.len(),
        edges@.len() < 0x4000_0000_0000_0000,
        old(boards)@.len() < 0x4000_0000_0000_0000,
        forall|k: int| 0 <= k < edges@.len() ==> (#[trigger] units@[k])@.len() > t
            && units@[k]@.map_values(|u: i128| u as int) == edge_rule_units(model, edges@[k]),
        *old(net) == delta_sum(old(boards)@, old(boards)@.len() as int),
        -(old(boards)@.len() as int) * 0x8000_0000_0000_0000 <= *old(net) <= (old(boards)@.len() as int) * 0x8000_0000_0000_0000,
    ensures
        final(boards)@ == old(boards)@ + board_deltas(model, edges@, negate, t as int, edges@.len() as int),
        *final(net) == delta_sum(final(boards)@, final(boards)@.len() as int),
        final(boards)@.len() <= old(boards)@.len() + edges@.len(),
        -(final(boards)@.len() as int) * 0x8000_0000_0000_0000 <= *final(net) <= (final(boards)@.len() as int) * 0x8000_0000_0000_0000,
{
    let ghost start = boards@;
    let mut k: usize = 0;
    while k < edges.len()
        invariant
            k <= edges@.len(),
            units@.len() == edges@.len(),
            edges@.len() < 0x4000_0000_0000_0000,
            start.len() < 0x4000_0000_0000_0000,
            forall|q: int| 0 <= q < edges@.len() ==> (#[trigger] units@[q])@.len() > t
                && units@[q]@.map_values(|u: i128| u as int) == edge_rule_units(model, edges@[q]),
            boards@ == start + board_deltas(model, edges@, negate, t as int, k as int),
            boards@.len() <= start.len() + k,
            *net == delta_sum(boards@, boards@.len() as int),
            -(boards@.len() as int) * 0x8000_0000_0000_0000 <= *net <= (boards@.len() as int) * 0x8000_0000_0000_0000,
        decreases edges@.len() - k,
    {
        let u = units[k][t];
        assert(units@[k as int]@.map_values(|u: i128| u as int)[t as int] == u);
        if u != 0 {
            let w = (u as i64) as i128;
            let v: i128 = if negate { -w } else { w };
            let (p1, p2) = sides_of(edges[k]);
            let d = BoardDelta { player1: p1, player2: p2, units: v as i64 };
            let ghost before = boards@;
            boards.push(d);
            proof {
                assert(boards@.drop_last() =~= before);
                lemma_delta_sum_prefix(before, boards@, before.len() as int);
            }
            *net = *net + d.units as i128;
        }
        proof {
            assert(boards@ =~= start + board_deltas(model, edges@, negate, t as int, k + 1));
        }
        k += 1;
    }
}

/// Diff the confirmed matching `m0` against the counterfactual `m1`: the net
/// per-rule cost, the affected rings, and the new boards as ledgers.
pub fn diff_matchings(model: &PairingModel, m0: &Vec<(UnitKey, UnitKey)>, m1: &Vec<(UnitKey, UnitKey)>) -> (r: Counterfactual)
    requires
        model.wf(),
        !model.is_free(phantom()),
        forall|i: int| 0 <= i < m0@.len() ==> scorable_edge(model, #[trigger] m0@[i]),
        forall|i: int| 0 <= i < m1@.len() ==> scorable_edge(model, #[trigger] m1@[i]),
        m0@.len() + m1@.len() < 0x4000_0000_0000_0000,
    ensures
        diffed(model, m0@, m1@, r),
{
    let added = edges_not_in(m1, m0);
    let removed = edges_not_in(m0, m1);
    proof {
        lemma_ascending_distinct(added@);
        lemma_ascending_distinct(removed@);
        lemma_distinct_subset_len(added@, m1@);
        lemma_distinct_subset_len(removed@, m0@);
        lemma_ascending_unique(added@, m1@, m0@);
        lemma_ascending_unique(removed@, m0@, m1@);
    }
    let nrules = model.rules.len();
    let mut added_units: Vec<Vec<i128>> = Vec::new();
    let mut k: usize = 0;
    while k < added.len()
        invariant
            k <= added@.len(),
            model.wf(),
            !model.is_free(phantom()),
            nrules == model.rules@.len(),
            forall|e: (UnitKey, UnitKey)| added@.contains(e) ==> m1@.contains(e),
            forall|i: int| 0 <= i < m1@.len() ==> scorable_edge(model, #[trigger] m1@[i]),
            added_units@.len() == k,
            forall|q: int| 0 <= q < k ==> (#[trigger] added_units@[q])@.len() == nrules
                && added_units@[q]@.map_values(|u: i128| u as int) == edge_rule_units(model, added@[q]),
        decreases added@.len() - k,
    {
        proof {
            assert(added@.contains(added@[k as int]));
            let p = choose|p: int| 0 <= p < m1@.len() && m1@[p] == added@[k as int];
            assert(scorable_edge(model, m1@[p]));
        }
        added_units.push(units_of(model, added[k]));
        k += 1;
    }
    let mut removed_units: Vec<Vec<i128>> = Vec::new();
    let mut k: usize = 0;
    while k < removed.len()
        invariant
            k <= removed@.len(),
            model.wf(),
            !model.is_free(phantom()),
            nrules == model.rules@.len(),
            forall|e: (UnitKey, UnitKey)| removed@.contains(e) ==> m0@.contains(e),
            forall|i: int| 0 <= i < m0@.len() ==> scorable_edge(model, #[trigger] m0@[i]),
            removed_units@.len() == k,
            forall|q: int| 0 <= q < k ==> (#[trigger] removed_units@[q])@.len() == nrules
                && removed_units@[q]@.map_values(|u: i128| u as int) == edge_rule_units(model, removed@[q]),
        decreases removed@.len() - k,
    {
        proof {
            assert(removed@.contains(removed@[k as int]));
            let p = choose|p: int| 0 <= p < m0@.len() && m0@[p] == removed@[k as int];
            assert(scorable_edge(model, m0@[p]));
        }
        removed_units.push(units_of(model, removed[k]));
        k += 1;
    }
    let mut cost_delta: Vec<RuleDelta> = Vec::new();
    let mut t: usize = 0;
    while t < nrules
        invariant
            t <= nrules,
            nrules == model.rules@.len(),
            added_units@.len() == added@.len(),
            removed_units@.len() == removed@.len(),
            added@.len() + removed@.len() < 0x4000_0000_0000_0000,
            forall|q: int| 0 <= q < added@.len() ==> (#[trigger] added_units@[q])@.len() == nrules
                && added_units@[q]@.map_values(|u: i128| u as int) == edge_rule_units(model, added@[q]),
            forall|q: int| 0 <= q < removed@.len() ==> (#[trigger] removed_units@[q])@.len() == nrules
                && removed_units@[q]@.map_values(|u: i128| u as int) == edge_rule_units(model, removed@[q]),
            cost_delta@.map_values(|d: RuleDelta| rule_delta_parts(d)) == cost_deltas(model, added@, removed@, t as int),
        decreases nrules - t,
    {
        let mut boards: Vec<BoardDelta> = Vec::new();
        let mut net: i128 = 0;
        push_deltas(model, &added, &added_units, false, t, &mut boards, &mut net);
        push_deltas(model, &removed, &removed_units, true, t, &mut boards, &mut net);
        proof {
            assert(boards@ =~= rule_boards(model, added@, removed@, t as int));
        }
        let net64 = net as i64;
        let ghost before = cost_delta@;
        if net64 != 0 {
            cost_delta.push(RuleDelta { rule: model.rules[t].id(), units: net64, boards });
        }
        proof {
            assert(cost_delta@.map_values(|d: RuleDelta| rule_delta_parts(d)) =~= cost_deltas(model, added@, removed@, t + 1));
        }
        t += 1;
    }
    let mut changed: Vec<BoardLedger> = Vec::new();
    let mut k: usize = 0;
    while k < added.len()
        invariant
            k <= added@.len(),
            nrules == model.rules@.len(),
            added_units@.len() == added@.len(),
            forall|q: int| 0 <= q < added@.len() ==> (#[trigger] added_units@[q])@.len() == nrules
                && added_units@[q]@.map_values(|u: i128| u as int) == edge_rule_units(model, added@[q]),
            changed@.len() == k,
            forall|q: int| 0 <= q < k ==> ledger_parts(#[trigger] changed@[q]) == ledger_of(sides(added@[q]).0, sides(added@[q]).1, model.rules@, edge_rule_units(model, added@[q])),
        decreases added@.len() - k,
    {
        let (p1, p2) = sides_of(added[k]);
        changed.push(ledger(p1, p2, model.rules.as_slice(), added_units[k].as_slice()));
        k += 1;
    }
    let cycles = alternating_cycles(m0, m1);
    Counterfactual { scoped_out: None, cost_delta, cycles, changed }
}

/// The ascending sequence holding exactly a set's elements is the one `choose`
/// picks for it.
proof fn lemma_ascending_unique(s: Seq<(UnitKey, UnitKey)>, a: Seq<(UnitKey, UnitKey)>, b: Seq<(UnitKey, UnitKey)>)
    requires
        edges_ascending(s),
        forall|e: (UnitKey, UnitKey)| #[trigger] s.contains(e) <==> a.contains(e) && !b.contains(e),
    ensures
        s == choose|c: Seq<(UnitKey, UnitKey)>| edges_ascending(c) && forall|e: (UnitKey, UnitKey)| #[trigger] c.contains(e) <==> a.contains(e) && !b.contains(e),
{
    let c = choose|c: Seq<(UnitKey, UnitKey)>| edges_ascending(c) && forall|e: (UnitKey, UnitKey)| #[trigger] c.contains(e) <==> a.contains(e) && !b.contains(e);
    assert(edges_ascending(c) && forall|e: (UnitKey, UnitKey)| #[trigger] c.contains(e) <==> a.contains(e) && !b.contains(e));
    lemma_sorted_same_elements(s, c);
}

/// Two ascending edge sequences with the same elements are equal.
proof fn lemma_sorted_same_elements(s: Seq<(UnitKey, UnitKey)>, c: Seq<(UnitKey, UnitKey)>)
    requires
        edges_ascending(s),
        edges_ascending(c),
        forall|e: (UnitKey, UnitKey)| s.contains(e) <==> c.contains(e),
    ensures
        s == c,
    decreases s.len() + c.len(),
{
    if s.len() == 0 || c.len() == 0 {
        if s.len() > 0 {
            assert(s.contains(s[0]));
        }
        if c.len() > 0 {
            assert(c.contains(c[0]));
        }
        assert(s =~= c);
    } else {
        // The last elements are each set's greatest, so they agree.
        let ls = s.last();
        let lc = c.last();
        assert(s.contains(ls));
        assert(c.contains(lc));
        let i = choose|i: int| 0 <= i < c.len() && c[i] == ls;
        let j = choose|j: int| 0 <= j < s.len() && s[j] == lc;
        if ls != lc {
            if i < c.len() - 1 {
                assert(edge_less(c[i], c[c.len() - 1]));
            }
            if j < s.len() - 1 {
                assert(edge_less(s[j], s[s.len() - 1]));
            }
        }
        let s2 = s.drop_last();
        let c2 = c.drop_last();
        assert forall|e: (UnitKey, UnitKey)| s2.contains(e) <==> c2.contains(e) by {
            if s2.contains(e) {
                let p = choose|p: int| 0 <= p < s2.len() && s2[p] == e;
                assert(edge_less(s[p], s[s.len() - 1]));
                assert(c.contains(e));
                let q = choose|q: int| 0 <= q < c.len() && c[q] == e;
                assert(q != c.len() - 1);
                assert(c2[q] == e);
            }
            if c2.contains(e) {
                let p = choose|p: int| 0 <= p < c2.len() && c2[p] == e;
                assert(edge_less(c[p], c[c.len() - 1]));
                assert(s.contains(e));
                let q = choose|q: int| 0 <= q < s.len() && s[q] == e;
                assert(q != s.len() - 1);
                assert(s2[q] == e);
            }
        }
        assert forall|x: int, y: int| 0 <= x < y < s2.len() implies edge_less(#[trigger] s2[x], #[trigger] s2[y]) by {
            assert(edge_less(s[x], s[y]));
        }
        assert forall|x: int, y: int| 0 <= x < y < c2.len() implies edge_less(#[trigger] c2[x], #[trigger] c2[y]) by {
            assert(edge_less(c[x], c[y]));
        }
        lemma_sorted_same_elements(s2, c2);
        assert(s =~= s2.push(ls));
        assert(c =~= c2.push(lc));
    }
}

/// `e` is in exactly one of the two matchings.
pub open spec fn in_sym(m0: Seq<(UnitKey, UnitKey)>, m1: Seq<(UnitKey, UnitKey)>, e: (UnitKey, UnitKey)) -> bool {
    m0.contains(e) != m1.contains(e)
}

/// `v` is an endpoint of a changed edge.
pub open spec fn sym_vertex(m0: Seq<(UnitKey, UnitKey)>, m1: Seq<(UnitKey, UnitKey)>, v: UnitKey) -> bool {
    exists|e: (UnitKey, UnitKey)| #[trigger] in_sym(m0, m1, e) && (e.0 == v || e.1 == v)
}

/// All rings' players, one ring after another.
pub open spec fn flat(rings: Seq<Seq<UnitKey>>) -> Seq<UnitKey>
    decreases rings.len(),
{
    if rings.len() == 0 {
        Seq::empty()
    } else {
        flat(rings.drop_last()) + rings.last()
    }
}

/// The players of each ring.
pub open spec fn ring_players(cycles: Seq<AffectedCycle>) -> Seq<Seq<UnitKey>> {
    cycles.map_values(|c: AffectedCycle| c.players@)
}

/// `x` and `y` are joined by a changed edge.
pub open spec fn linked(m0: Seq<(UnitKey, UnitKey)>, m1: Seq<(UnitKey, UnitKey)>, x: UnitKey, y: UnitKey) -> bool {
    in_sym(m0, m1, (x, y)) || in_sym(m0, m1, (y, x))
}

/// Consecutive players of `ring` are joined by a changed edge.
pub open spec fn ring_linked(m0: Seq<(UnitKey, UnitKey)>, m1: Seq<(UnitKey, UnitKey)>, ring: Seq<UnitKey>) -> bool {
    forall|k: int| 0 <= k < ring.len() - 1 ==> linked(m0, m1, #[trigger] ring[k], ring[k + 1])
}

/// The changed edges: those of `m0` missing from `m1`, then those of `m1`
/// missing from `m0`.
fn changed_edges(m0: &Vec<(UnitKey, UnitKey)>, m1: &Vec<(UnitKey, UnitKey)>) -> (r: Vec<(UnitKey, UnitKey)>)
    ensures
        forall|e: (UnitKey, UnitKey)| r@.contains(e) <==> in_sym(m0@, m1@, e),
{
    let mut out: Vec<(UnitKey, UnitKey)> = Vec::new();
    let mut i: usize = 0;
    while i < m0.len()
        invariant
            i <= m0@.len(),
            forall|e: (UnitKey, UnitKey)| out@.contains(e) ==> in_sym(m0@, m1@, e),
            forall|j: int| 0 <= j < i && !m1@.contains(#[trigger] m0@[j]) ==> out@.contains(m0@[j]),
        decreases m0@.len() - i,
    {
        let e = m0[i];
        if !has_edge(m1, e) {
            assert(m0@.contains(e)) by {
                assert(m0@[i as int] == e);
            }
            let ghost before = out@;
            out.push(e);
            proof {
                assert forall|e2: (UnitKey, UnitKey)| out@.contains(e2) implies in_sym(m0@, m1@, e2) by {
                    if e2 != e {
                        let p = choose|p: int| 0 <= p < out@.len() && out@[p] == e2;
                        assert(p < before.len());
                        assert(before[p] == e2);
                        assert(before.contains(e2));
                    } else {
                        assert(m0@.contains(e) != m1@.contains(e));
                    }
                }
                assert forall|j: int| 0 <= j < i + 1 && !m1@.contains(#[trigger] m0@[j]) implies out@.contains(m0@[j]) by {
                    if j < i {
                        let p = choose|p: int| 0 <= p < before.len() && before[p] == m0@[j];
                        assert(out@[p] == m0@[j]);
                    } else {
                        assert(out@[before.len() as int] == e);
                    }
                }
            }
        }
        i += 1;
    }
    let mut i: usize = 0;
    while i < m1.len()
        invariant
            i <= m1@.len(),
            forall|e: (UnitKey, UnitKey)| out@.contains(e) ==> in_sym(m0@, m1@, e),
            forall|j: int| 0 <= j < m0@.len() && !m1@.contains(#[trigger] m0@[j]) ==> out@.contains(m0@[j]),
            forall|j: int| 0 <= j < i && !m0@.contains(#[trigger] m1@[j]) ==> out@.contains(m1@[j]),
        decreases m1@.len() - i,
    {
        let e = m1[i];
        if !has_edge(m0, e) {
            assert(m1@.contains(e)) by {
                assert(m1@[i as int] == e);
            }
            let ghost before = out@;
            out.push(e);
            proof {
                assert forall|e2: (UnitKey, UnitKey)| out@.contains(e2) implies in_sym(m0@, m1@, e2) by {
                    if e2 != e {
                        let p = choose|p: int| 0 <= p < out@.len() && out@[p] == e2;
                        assert(p < before.len());
                        assert(before[p] == e2);
                        assert(before.contains(e2));
                    } else {
                        assert(m0@.contains(e) != m1@.contains(e));
                    }
                }
                assert forall|j: int| 0 <= j < m0@.len() && !m1@.contains(#[trigger] m0@[j]) implies out@.contains(m0@[j]) by {
                    let p = choose|p: int| 0 <= p < before.len() && before[p] == m0@[j];
                    assert(out@[p] == m0@[j]);
                }
                assert forall|j: int| 0 <= j < i + 1 && !m0@.contains(#[trigger] m1@[j]) implies out@.contains(m1@[j]) by {
                    if j < i {
                        let p = choose|p: int| 0 <= p < before.len() && before[p] == m1@[j];
                        assert(out@[p] == m1@[j]);
                    } else {
                        assert(out@[before.len() as int] == e);
                    }
                }
            }
        }
        i += 1;
    }
    proof {
        assert forall|e: (UnitKey, UnitKey)| in_sym(m0@, m1@, e) implies out@.contains(e) by {
            if m0@.contains(e) {
                let j = choose|j: int| 0 <= j < m0@.len() && m0@[j] == e;
                assert(!m1@.contains(m0@[j]));
            } else {
                let j = choose|j: int| 0 <= j < m1@.len() && m1@[j] == e;
                assert(!m0@.contains(m1@[j]));
            }
        }
    }
    out
}

/// The endpoints of `edges`, each once, in ascending key order.
fn endpoints(edges: &Vec<(UnitKey, UnitKey)>) -> (r: Vec<UnitKey>)
    ensures
        forall|i: int, j: int| 0 <= i < j < r@.len() ==> (#[trigger] r@[i]).0 < (#[trigger] r@[j]).0,
        forall|v: UnitKey| #[trigger] r@.contains(v) <==> exists|e: (UnitKey, UnitKey)| #[trigger] edges@.contains(e) && (e.0 == v || e.1 == v),
{
    let mut ends: Vec<UnitKey> = Vec::new();
    let mut i: usize = 0;
    while i < edges.len()
        invariant
            i <= edges@.len(),
            forall|v: UnitKey| #[trigger] ends@.contains(v) <==> exists|j: int| 0 <= j < i && (edges@[j].0 == v || edges@[j].1 == v),
        decreases edges@.len() - i,
    {
        let ghost before = ends@;
        ends.push(edges[i].0);
        ends.push(edges[i].1);
        proof {
            assert forall|v: UnitKey| #[trigger] ends@.contains(v) <==> exists|j: int| 0 <= j < i + 1 && (edges@[j].0 == v || edges@[j].1 == v) by {
                if ends@.contains(v) {
                    let p = choose|p: int| 0 <= p < ends@.len() && ends@[p] == v;
                    if p < before.len() {
                        assert(before[p] == v);
                        assert(before.contains(v));
                    } else {
                        assert(edges@[i as int].0 == v || edges@[i as int].1 == v);
                    }
                }
                if exists|j: int| 0 <= j < i + 1 && (edges@[j].0 == v || edges@[j].1 == v) {
                    let j = choose|j: int| 0 <= j < i + 1 && (edges@[j].0 == v || edges@[j].1 == v);
                    if j < i {
                        assert(before.contains(v));
                        let p = choose|p: int| 0 <= p < before.len() && before[p] == v;
                        assert(ends@[p] == v);
                    } else if edges@[j].0 == v {
                        assert(ends@[before.len() as int] == v);
                    } else {
                        assert(ends@[before.len() as int + 1] == v);
                    }
                }
            }
        }
        i += 1;
    }
    let r = super::matching::canonical_free(ends.as_slice(), &[], &[]);
    proof {
        assert forall|v: UnitKey| #[trigger] r@.contains(v) <==> exists|e: (UnitKey, UnitKey)| #[trigger] edges@.contains(e) && (e.0 == v || e.1 == v) by {
            if r@.contains(v) {
                assert(ends@.contains(v));
                let j = choose|j: int| 0 <= j < edges@.len() && (edges@[j].0 == v || edges@[j].1 == v);
                assert(edges@.contains(edges@[j]));
            }
            if exists|e: (UnitKey, UnitKey)| #[trigger] edges@.contains(e) && (e.0 == v || e.1 == v) {
                let e = choose|e: (UnitKey, UnitKey)| #[trigger] edges@.contains(e) && (e.0 == v || e.1 == v);
                let j = choose|j: int| 0 <= j < edges@.len() && edges@[j] == e;
                assert(ends@.contains(v));
                assert(!super::matching::placed(Seq::<(UnitKey, UnitKey)>::empty(), Seq::<UnitKey>::empty(), v));
            }
        }
    }
    r
}

/// The other endpoints of the first `n` edges that touch `v`, in edge order
/// (an edge starting at `v` gives its end, else one ending at `v` its start).
pub open spec fn neighbours_of(edges: Seq<(UnitKey, UnitKey)>, v: UnitKey, n: int) -> Seq<UnitKey>
    decreases n,
{
    if n <= 0 {
        Seq::empty()
    } else {
        let rest = neighbours_of(edges, v, n - 1);
        let e = edges[n - 1];
        if e.0 == v {
            rest.push(e.1)
        } else if e.1 == v {
            rest.push(e.0)
        } else {
            rest
        }
    }
}

/// The other endpoints of the changed edges at `v`, in edge order.
fn neighbours(edges: &Vec<(UnitKey, UnitKey)>, v: UnitKey) -> (r: Vec<UnitKey>)
    ensures
        r@ == neighbours_of(edges@, v, edges@.len() as int),
        forall|k: int| 0 <= k < r@.len() ==> edges@.contains((v, #[trigger] r@[k])) || edges@.contains((r@[k], v)),
{
    let mut out: Vec<UnitKey> = Vec::new();
    let mut i: usize = 0;
    while i < edges.len()
        invariant
            i <= edges@.len(),
            out@ == neighbours_of(edges@, v, i as int),
            forall|k: int| 0 <= k < out@.len() ==> edges@.contains((v, #[trigger] out@[k])) || edges@.contains((out@[k], v)),
        decreases edges@.len() - i,
    {
        let (a, b) = edges[i];
        if a == v {
            assert(edges@[i as int] == (v, b));
            out.push(b);
        } else if b == v {
            assert(edges@[i as int] == (a, v));
            out.push(a);
        }
        i += 1;
    }
    out
}

/// How many of the first `n` flags are still down.
pub open spec fn count_false(s: Seq<bool>, n: int) -> int
    decreases n,
{
    if n <= 0 {
        0
    } else {
        count_false(s, n - 1) + if s[n - 1] {
            0int
        } else {
            1int
        }
    }
}

/// Raising one lowered flag lowers the count by one.
proof fn lemma_count_false_raise(s: Seq<bool>, i: int, n: int)
    requires
        0 <= i < n <= s.len(),
        !s[i],
    ensures
        count_false(s.update(i, true), n) == count_false(s, n) - 1,
        0 <= count_false(s.update(i, true), n),
    decreases n,
{
    if n - 1 > i {
        lemma_count_false_raise(s, i, n - 1);
    } else {
        lemma_count_false_same(s, s.update(i, true), n - 1);
    }
}

/// Flags that agree on the first `n` count the same.
proof fn lemma_count_false_same(s: Seq<bool>, t: Seq<bool>, n: int)
    requires
        0 <= n <= s.len(),
        n <= t.len(),
        forall|j: int| 0 <= j < n ==> s[j] == t[j],
    ensures
        count_false(s, n) == count_false(t, n),
        count_false(s, n) >= 0,
    decreases n,
{
    if n > 0 {
        lemma_count_false_same(s, t, n - 1);
    }
}

/// Where `v` sits in the ascending `verts`.
fn position(verts: &Vec<UnitKey>, v: UnitKey) -> (r: Option<usize>)
    ensures
        r matches Some(p) ==> p < verts@.len() && verts@[p as int] == v,
        r is None ==> !verts@.contains(v),
{
    let mut i: usize = 0;
    while i < verts.len()
        invariant
            i <= verts@.len(),
            forall|j: int| 0 <= j < i ==> verts@[j] != v,
        decreases verts@.len() - i,
    {
        if verts[i] == v {
            return Some(i);
        }
        i += 1;
    }
    None
}

/// The ring's first player has the least key in it.
pub open spec fn ring_led(ring: Seq<UnitKey>) -> bool {
    forall|k: int| 0 <= k < ring.len() ==> ring[0].0 <= (#[trigger] ring[k]).0
}

/// The rings come in ascending order of their first players.
pub open spec fn rings_ascending(rings: Seq<AffectedCycle>) -> bool {
    forall|c: int, d: int| 0 <= c < d < rings.len() ==> (#[trigger] rings[c]).players@[0].0 < (#[trigger] rings[d]).players@[0].0
}

/// Decompose the symmetric difference of two perfect matchings into its
/// alternating cycles — the disjoint rings of players whose partners differ.
/// Each ring starts at its least-keyed player, the rings in ascending order of
/// their first players, and walks the changed edges, never turning back. The rings hold every endpoint of a
/// changed edge exactly once, and consecutive players of a ring are joined by
/// a changed edge. (For two perfect matchings every such endpoint has exactly
/// two changed edges; a walk stops early at a player where that fails.)
pub fn alternating_cycles(m0: &Vec<(UnitKey, UnitKey)>, m1: &Vec<(UnitKey, UnitKey)>) -> (r: Vec<AffectedCycle>)
    ensures
        flat(ring_players(r@)).no_duplicates(),
        forall|v: UnitKey| #[trigger] flat(ring_players(r@)).contains(v) <==> sym_vertex(m0@, m1@, v),
        forall|c: int| 0 <= c < r@.len() ==> ring_linked(m0@, m1@, #[trigger] r@[c].players@),
        forall|c: int| 0 <= c < r@.len() ==> (#[trigger] r@[c]).players@.len() > 0,
        forall|c: int| 0 <= c < r@.len() ==> ring_led(#[trigger] r@[c].players@),
        rings_ascending(r@),
{
    let sym = changed_edges(m0, m1);
    let verts = endpoints(&sym);
    let n = verts.len();
    let mut visited: Vec<bool> = Vec::new();
    let mut z: usize = 0;
    while z < n
        invariant
            z <= n,
            visited@.len() == z,
            forall|j: int| 0 <= j < z ==> !visited@[j],
        decreases n - z,
    {
        visited.push(false);
        z += 1;
    }
    let mut rings: Vec<AffectedCycle> = Vec::new();
    let mut s: usize = 0;
    while s < n
        invariant
            s <= n,
            n == verts@.len(),
            visited@.len() == n,
            forall|i: int, j: int| 0 <= i < j < verts@.len() ==> (#[trigger] verts@[i]).0 < (#[trigger] verts@[j]).0,
            forall|e: (UnitKey, UnitKey)| sym@.contains(e) <==> in_sym(m0@, m1@, e),
            forall|j: int| 0 <= j < s ==> visited@[j],
            flat(ring_players(rings@)).no_duplicates(),
            forall|v: UnitKey| #[trigger] flat(ring_players(rings@)).contains(v) <==> exists|p: int| 0 <= p < n && verts@[p] == v && visited@[p],
            forall|c: int| 0 <= c < rings@.len() ==> ring_linked(m0@, m1@, #[trigger] rings@[c].players@),
            forall|c: int| 0 <= c < rings@.len() ==> (#[trigger] rings@[c]).players@.len() > 0,
            forall|c: int| 0 <= c < rings@.len() ==> ring_led(#[trigger] rings@[c].players@),
            forall|c: int| 0 <= c < rings@.len() ==> exists|p: int| 0 <= p < s && verts@[p] == (#[trigger] rings@[c]).players@[0],
            rings_ascending(rings@),
        decreases n - s,
    {
        if visited[s] {
            s += 1;
            continue;
        }
        let start = verts[s];
        let mut order: Vec<UnitKey> = Vec::new();
        let mut cur: usize = s;
        let mut prev: Option<UnitKey> = None;
        loop
            invariant_except_break
                !visited@[cur as int],
                order@.len() > 0 ==> linked(m0@, m1@, order@.last(), verts@[cur as int]),
            invariant
                n == verts@.len(),
                visited@.len() == n,
                cur < n,
                s < n,
                forall|i: int, j: int| 0 <= i < j < verts@.len() ==> (#[trigger] verts@[i]).0 < (#[trigger] verts@[j]).0,
                forall|e: (UnitKey, UnitKey)| sym@.contains(e) <==> in_sym(m0@, m1@, e),
                forall|j: int| 0 <= j < s ==> visited@[j],
                (flat(ring_players(rings@)) + order@).no_duplicates(),
                forall|v: UnitKey| #[trigger] (flat(ring_players(rings@)) + order@).contains(v) <==> exists|p: int| 0 <= p < n && verts@[p] == v && visited@[p],
                forall|c: int| 0 <= c < rings@.len() ==> ring_linked(m0@, m1@, #[trigger] rings@[c].players@),
                ring_linked(m0@, m1@, order@),
                forall|c: int| 0 <= c < rings@.len() ==> (#[trigger] rings@[c]).players@.len() > 0,
                order@.len() == 0 ==> cur == s,
                order@.len() > 0 ==> visited@[s as int],
                order@.len() > 0 ==> order@[0] == verts@[s as int],
                forall|k: int| 0 <= k < order@.len() ==> verts@[s as int].0 <= (#[trigger] order@[k]).0,
                forall|c: int| 0 <= c < rings@.len() ==> ring_led(#[trigger] rings@[c].players@),
                forall|c: int| 0 <= c < rings@.len() ==> exists|p: int| 0 <= p < s && verts@[p] == (#[trigger] rings@[c]).players@[0],
                rings_ascending(rings@),
            ensures
                visited@.len() == n,
                forall|j: int| 0 <= j <= s ==> visited@[j],
                (flat(ring_players(rings@)) + order@).no_duplicates(),
                forall|v: UnitKey| #[trigger] (flat(ring_players(rings@)) + order@).contains(v) <==> exists|p: int| 0 <= p < n && verts@[p] == v && visited@[p],
                forall|c: int| 0 <= c < rings@.len() ==> ring_linked(m0@, m1@, #[trigger] rings@[c].players@),
                ring_linked(m0@, m1@, order@),
                forall|c: int| 0 <= c < rings@.len() ==> (#[trigger] rings@[c]).players@.len() > 0,
                order@.len() > 0,
                order@[0] == verts@[s as int],
                forall|k: int| 0 <= k < order@.len() ==> verts@[s as int].0 <= (#[trigger] order@[k]).0,
                forall|c: int| 0 <= c < rings@.len() ==> ring_led(#[trigger] rings@[c].players@),
                forall|c: int| 0 <= c < rings@.len() ==> exists|p: int| 0 <= p < s && verts@[p] == (#[trigger] rings@[c]).players@[0],
                rings_ascending(rings@),
            decreases count_false(visited@, n as int),
        {
            let ghost vis0 = visited@;
            let ghost fl = flat(ring_players(rings@));
            let ghost ord0 = order@;
            let v = verts[cur];
            proof {
                assert(cur >= s) by {
                    if cur < s {
                        assert(visited@[cur as int]);
                    }
                }
                if cur > s {
                    assert(verts@[s as int].0 < verts@[cur as int].0);
                }
            }
            visited.set(cur, true);
            order.push(v);
            proof {
                assert forall|k: int| 0 <= k < order@.len() implies verts@[s as int].0 <= (#[trigger] order@[k]).0 by {
                    if k < ord0.len() {
                        assert(order@[k] == ord0[k]);
                    }
                }
                lemma_count_false_raise(vis0, cur as int, n as int);
                assert(!(fl + ord0).contains(v)) by {
                    if (fl + ord0).contains(v) {
                        let p = choose|p: int| 0 <= p < n && verts@[p] == v && vis0[p];
                        assert(p == cur) by {
                            if p < cur {
                                assert(verts@[p].0 < verts@[cur as int].0);
                            } else if p > cur {
                                assert(verts@[cur as int].0 < verts@[p].0);
                            }
                        }
                    }
                }
                assert((fl + order@) =~= (fl + ord0).push(v));
                assert forall|x: UnitKey| #[trigger] (fl + order@).contains(x) <==> exists|p: int| 0 <= p < n && verts@[p] == x && visited@[p] by {
                    if (fl + order@).contains(x) {
                        if x == v {
                            assert(verts@[cur as int] == x && visited@[cur as int]);
                        } else {
                            let q = choose|q: int| 0 <= q < (fl + order@).len() && (fl + order@)[q] == x;
                            assert((fl + ord0)[q] == x);
                            assert((fl + ord0).contains(x));
                            let p = choose|p: int| 0 <= p < n && verts@[p] == x && vis0[p];
                            assert(visited@[p]);
                        }
                    }
                    if exists|p: int| 0 <= p < n && verts@[p] == x && visited@[p] {
                        let p = choose|p: int| 0 <= p < n && verts@[p] == x && visited@[p];
                        if p == cur {
                            assert((fl + order@)[(fl + order@).len() - 1] == x);
                        } else {
                            assert(vis0[p]);
                            assert((fl + ord0).contains(x));
                            let q = choose|q: int| 0 <= q < (fl + ord0).len() && (fl + ord0)[q] == x;
                            assert((fl + order@)[q] == x);
                        }
                    }
                }
                assert forall|k: int| 0 <= k < order@.len() - 1 implies linked(m0@, m1@, #[trigger] order@[k], order@[k + 1]) by {
                    if k < ord0.len() - 1 {
                        assert(order@[k] == ord0[k] && order@[k + 1] == ord0[k + 1]);
                    } else {
                        assert(order@[k] == ord0.last());
                    }
                }
            }
            let nbrs = neighbours(&sym, v);
            if nbrs.len() != 2 {
                break;
            }
            let next = match prev {
                Some(p) => if nbrs[0] != p {
                    nbrs[0]
                } else {
                    nbrs[1]
                },
                None => nbrs[0],
            };
            proof {
                assert(sym@.contains((v, next)) || sym@.contains((next, v)));
            }
            if next == start {
                break;
            }
            let idx = match position(&verts, next) {
                Some(p) => p,
                None => {
                    break;
                },
            };
            if visited[idx] {
                break;
            }
            prev = Some(v);
            cur = idx;
        }
        let ghost fl = flat(ring_players(rings@));
        let ghost ord = order@;
        let ghost old_rings = rings@;
        rings.push(AffectedCycle { players: order });
        proof {
            assert(ring_players(rings@).drop_last() =~= ring_players(old_rings));
            assert(ring_players(rings@).last() == ord);
            assert(ring_players(rings@).len() > 0);
            assert(flat(ring_players(rings@)) =~= fl + ord);
            assert forall|c: int| 0 <= c < rings@.len() implies ring_linked(m0@, m1@, #[trigger] rings@[c].players@) by {
                if c < old_rings.len() {
                    assert(rings@[c] == old_rings[c]);
                }
            }
            assert forall|c: int| 0 <= c < rings@.len() implies (#[trigger] rings@[c]).players@.len() > 0 by {
                if c < old_rings.len() {
                    assert(rings@[c] == old_rings[c]);
                }
            }
            assert forall|c: int| 0 <= c < rings@.len() implies ring_led(#[trigger] rings@[c].players@) by {
                if c < old_rings.len() {
                    assert(rings@[c] == old_rings[c]);
                } else {
                    assert(rings@[c].players@ == ord);
                    assert forall|k: int| 0 <= k < ord.len() implies ord[0].0 <= (#[trigger] ord[k]).0 by {
                        assert(verts@[s as int].0 <= ord[k].0);
                    }
                }
            }
            assert forall|c: int| 0 <= c < rings@.len() implies exists|p: int| 0 <= p < s + 1 && verts@[p] == (#[trigger] rings@[c]).players@[0] by {
                if c < old_rings.len() {
                    assert(rings@[c] == old_rings[c]);
                    let p = choose|p: int| 0 <= p < s && verts@[p] == old_rings[c].players@[0];
                    assert(0 <= p < s + 1 && verts@[p] == rings@[c].players@[0]);
                } else {
                    assert(rings@[c].players@ == ord);
                    assert(verts@[s as int] == rings@[c].players@[0]);
                }
            }
            assert forall|c: int, d: int| 0 <= c < d < rings@.len() implies (#[trigger] rings@[c]).players@[0].0 < (#[trigger] rings@[d]).players@[0].0 by {
                assert(rings@[c] == old_rings[c]);
                let p = choose|p: int| 0 <= p < s && verts@[p] == old_rings[c].players@[0];
                if d < old_rings.len() {
                    assert(rings@[d] == old_rings[d]);
                } else {
                    assert(rings@[d].players@ == ord);
                    assert(verts@[p].0 < verts@[s as int].0);
                }
            }
        }
        s += 1;
    }
    proof {
        assert forall|v: UnitKey| #[trigger] flat(ring_players(rings@)).contains(v) <==> sym_vertex(m0@, m1@, v) by {
            if flat(ring_players(rings@)).contains(v) {
                let p = choose|p: int| 0 <= p < n && verts@[p] == v && visited@[p];
                assert(verts@.contains(v));
                let e = choose|e: (UnitKey, UnitKey)| #[trigger] sym@.contains(e) && (e.0 == v || e.1 == v);
                assert(in_sym(m0@, m1@, e));
            }
            if sym_vertex(m0@, m1@, v) {
                let e = choose|e: (UnitKey, UnitKey)| #[trigger] in_sym(m0@, m1@, e) && (e.0 == v || e.1 == v);
                assert(sym@.contains(e));
                assert(verts@.contains(v));
                let p = choose|p: int| 0 <= p < verts@.len() && verts@[p] == v;
                assert(visited@[p]);
            }
        }
    }
    rings
}

/// The matching the stable re-solve is handed: its vertices in ascending key
/// order, and the cost of each edge (upper triangle, zero elsewhere).
pub struct StableInstance {
    pub verts: Vec<UnitKey>,
    pub cost: Vec<Vec<i128>>,
}

/// The model's weight of an edge between two vertices of the re-solve: the
/// bye's when one side is the phantom.
pub open spec fn base_cost(m: &PairingModel, a: UnitKey, b: UnitKey) -> int {
    let ctx = m.model_ctx();
    if a == phantom() {
        weighted(m.max_total@, bye_units_seq(m.rules@, &ctx, b))
    } else if b == phantom() {
        weighted(m.max_total@, bye_units_seq(m.rules@, &ctx, a))
    } else {
        weighted(m.max_total@, edge_units_seq(m.rules@, &ctx, a, b))
    }
}

/// An edge's re-solve cost before any prohibition: the model's weight scaled
/// past the largest stability total, plus one when the edge is not in the
/// baseline — so among equally good matchings the one closest to the
/// baseline wins.
pub open spec fn stable_cost(m: &PairingModel, verts: Seq<UnitKey>, baseline: Seq<(UnitKey, UnitKey)>, i: int, j: int) -> int {
    base_cost(m, verts[i], verts[j]) * (verts.len() / 2 + 1) + if baseline.contains(unord(verts[i], verts[j])) {
        0int
    } else {
        1int
    }
}

/// The largest stable cost over the upper triangle's first `i` full rows and
/// the first `j` entries of row `i` (0 when none).
pub open spec fn stable_max(m: &PairingModel, verts: Seq<UnitKey>, baseline: Seq<(UnitKey, UnitKey)>, i: int, j: int) -> int
    decreases i, j,
{
    if i < 0 || (i == 0 && j <= 1) {
        0
    } else if j <= i + 1 {
        stable_max(m, verts, baseline, i - 1, verts.len() as int)
    } else {
        let rest = stable_max(m, verts, baseline, i, j - 1);
        let c = stable_cost(m, verts, baseline, i, j - 1);
        if c > rest {
            c
        } else {
            rest
        }
    }
}

/// `v` is a vertex the model can score in the re-solve: a free unit, or the
/// phantom when a bye is in play.
pub open spec fn solvable_vertex(m: &PairingModel, v: UnitKey) -> bool {
    m.is_free(v) || (v == phantom() && m.need_phantom)
}

/// The edge weight of the re-solve, through the model.
fn base_of(model: &PairingModel, a: UnitKey, b: UnitKey) -> (r: i128)
    requires
        model.wf(),
        !model.is_free(phantom()),
        solvable_vertex(model, a),
        solvable_vertex(model, b),
        a != b,
    ensures
        r == base_cost(model, a, b),
{
    if a.0 == 0 {
        model.bye_cost(b)
    } else if b.0 == 0 {
        model.bye_cost(a)
    } else {
        model.edge_cost(a, b)
    }
}

/// The re-solve's vertices in canonical order: the ascending arrangement of
/// `verts`.
pub open spec fn sorted_keys(verts: Seq<UnitKey>) -> Seq<UnitKey> {
    choose|c: Seq<UnitKey>| ascending(c) && forall|v: UnitKey| #[trigger] c.contains(v) <==> verts.contains(v)
}

/// Whether the stable cost of edge `(i, j)` is computed within `i128`.
pub open spec fn stable_fits(m: &PairingModel, vs: Seq<UnitKey>, baseline: Seq<(UnitKey, UnitKey)>, i: int, j: int) -> bool {
    let scaled = base_cost(m, vs[i], vs[j]) * (vs.len() / 2 + 1);
    &&& i128::MIN <= scaled <= i128::MAX
    &&& i128::MIN <= stable_cost(m, vs, baseline, i, j) <= i128::MAX
}

/// Whether building the stable re-solve over `vs` leaves `i128`: some edge's
/// cost does, or — with an edge forbidden — the prohibitive price does.
pub open spec fn stable_overflow(
    m: &PairingModel,
    vs: Seq<UnitKey>,
    baseline: Seq<(UnitKey, UnitKey)>,
    forbidden: Seq<(UnitKey, UnitKey)>,
) -> bool {
    let n = vs.len() as int;
    let top = stable_max(m, vs, baseline, n - 1, n);
    ||| exists|i: int, j: int| 0 <= i < j < n && !#[trigger] stable_fits(m, vs, baseline, i, j)
    ||| (forbidden.len() > 0 && !(i128::MIN <= top * (n / 2) <= i128::MAX && i128::MIN <= top * (n / 2) + 1
        <= i128::MAX))
}

/// Build the stable re-solve over `verts`: each edge costs `weight · (n/2 + 1)
/// + (edge not in baseline)`, which orders matchings by the rules first and
/// then by boards changed; an edge in `forbidden` costs more than any whole
/// matching that avoids it. `None` when that arithmetic would overflow
/// `i128`.
pub fn stable_instance(
    model: &PairingModel,
    verts: &[UnitKey],
    baseline: &Vec<(UnitKey, UnitKey)>,
    forbidden: &Vec<(UnitKey, UnitKey)>,
) -> (r: Option<StableInstance>)
    requires
        model.wf(),
        !model.is_free(phantom()),
        forall|i: int| 0 <= i < verts@.len() ==> solvable_vertex(model, #[trigger] verts@[i]),
        verts@.len() < 0x1_0000_0000,
    ensures
        r is None <==> stable_overflow(model, sorted_keys(verts@), baseline@, forbidden@),
        ascending(sorted_keys(verts@)),
        forall|v: UnitKey| #[trigger] sorted_keys(verts@).contains(v) <==> verts@.contains(v),
        r matches Some(inst) ==> inst.verts@ == sorted_keys(verts@),
        r matches Some(inst) ==> {
            let vs = inst.verts@;
            let n = vs.len() as int;
            &&& ascending(vs)
            &&& forall|v: UnitKey| #[trigger] vs.contains(v) <==> verts@.contains(v)
            &&& inst.cost@.len() == n
            &&& forall|i: int| 0 <= i < n ==> (#[trigger] inst.cost@[i])@.len() == n
            &&& forall|i: int, j: int|
                0 <= i < n && 0 <= j < n ==> #[trigger] inst.cost@[i]@[j] == if i < j {
                    if forbidden@.len() > 0 && forbidden@.contains(unord(vs[i], vs[j])) {
                        stable_max(model, vs, baseline@, n - 1, n) * (n / 2) + 1
                    } else {
                        stable_cost(model, vs, baseline@, i, j)
                    }
                } else {
                    0
                }
        },
{
    let vs = super::matching::canonical_free(verts, &[], &[]);
    proof {
        assert forall|v: UnitKey| #[trigger] vs@.contains(v) <==> verts@.contains(v) by {
            assert(!super::matching::placed(Seq::<(UnitKey, UnitKey)>::empty(), Seq::<UnitKey>::empty(), v));
        }
        super::matching::lemma_free_len(vs@, verts@);
        let c = sorted_keys(verts@);
        assert(ascending(c) && forall|v: UnitKey| #[trigger] c.contains(v) <==> verts@.contains(v));
        super::matching::lemma_ascending_same_keys(c, vs@);
    }
    assert(sorted_keys(verts@) == vs@);
    let n = vs.len();
    let stab: i128 = (n / 2) as i128 + 1;
    let mut cost: Vec<Vec<i128>> = Vec::new();
    let mut max_c: i128 = 0;
    let mut i: usize = 0;
    while i < n
        invariant
            i <= n,
            n == vs@.len(),
            n < 0x1_0000_0000,
            stab == n / 2 + 1,
            model.wf(),
            !model.is_free(phantom()),
            ascending(vs@),
            forall|v: UnitKey| #[trigger] vs@.contains(v) <==> verts@.contains(v),
            forall|q: int| 0 <= q < verts@.len() ==> solvable_vertex(model, #[trigger] verts@[q]),
            cost@.len() == i,
            forall|r: int| 0 <= r < i ==> (#[trigger] cost@[r])@.len() == n,
            forall|r: int, c: int| 0 <= r < i && 0 <= c < n ==> #[trigger] cost@[r]@[c] == if r < c {
                stable_cost(model, vs@, baseline@, r, c)
            } else {
                0
            },
            max_c == stable_max(model, vs@, baseline@, i as int, 0),
            sorted_keys(verts@) == vs@,
            forall|r: int, c: int| 0 <= r < i && r < c < n ==> #[trigger] stable_fits(model, vs@, baseline@, r, c),
        decreases n - i,
    {
        let mut row: Vec<i128> = Vec::new();
        let mut j: usize = 0;
        while j < n
            invariant
                i < n,
                j <= n,
                n == vs@.len(),
                n < 0x1_0000_0000,
                stab == n / 2 + 1,
                model.wf(),
                !model.is_free(phantom()),
                ascending(vs@),
                forall|v: UnitKey| #[trigger] vs@.contains(v) <==> verts@.contains(v),
                forall|q: int| 0 <= q < verts@.len() ==> solvable_vertex(model, #[trigger] verts@[q]),
                row@.len() == j,
                forall|c: int| 0 <= c < j ==> #[trigger] row@[c] == if (i as int) < c {
                    stable_cost(model, vs@, baseline@, i as int, c)
                } else {
                    0
                },
                max_c == stable_max(model, vs@, baseline@, i as int, j as int),
                sorted_keys(verts@) == vs@,
                forall|r: int, c: int| 0 <= r < i && r < c < n ==> #[trigger] stable_fits(model, vs@, baseline@, r, c),
                forall|c: int| i < c < j ==> #[trigger] stable_fits(model, vs@, baseline@, i as int, c),
            decreases n - j,
        {
            if i < j {
                proof {
                    assert(vs@.contains(vs@[i as int]));
                    assert(vs@.contains(vs@[j as int]));
                    let p = choose|p: int| 0 <= p < verts@.len() && verts@[p] == vs@[i as int];
                    let q = choose|q: int| 0 <= q < verts@.len() && verts@[q] == vs@[j as int];
                    assert(solvable_vertex(model, verts@[p]));
                    assert(solvable_vertex(model, verts@[q]));
                    assert(vs@[i as int].0 < vs@[j as int].0);
                }
                let base = base_of(model, vs[i], vs[j]);
                let stray: i128 = if has_edge(baseline, unord_pair(vs[i], vs[j])) {
                    0
                } else {
                    1
                };
                let scaled = match base.checked_mul(stab) {
                    Some(x) => x,
                    None => {
                        assert(!stable_fits(model, vs@, baseline@, i as int, j as int));
                        assert(sorted_keys(verts@) == vs@);
                        assert(stable_overflow(model, vs@, baseline@, forbidden@));
                        return None;
                    },
                };
                let c = match scaled.checked_add(stray) {
                    Some(x) => x,
                    None => {
                        assert(!stable_fits(model, vs@, baseline@, i as int, j as int));
                        assert(sorted_keys(verts@) == vs@);
                        assert(stable_overflow(model, vs@, baseline@, forbidden@));
                        return None;
                    },
                };
                assert(stable_fits(model, vs@, baseline@, i as int, j as int));
                if c > max_c {
                    max_c = c;
                }
                row.push(c);
            } else {
                row.push(0);
            }
            j += 1;
        }
        proof {
            if i + 1 < n {
                assert(stable_max(model, vs@, baseline@, i + 1, 0) == stable_max(model, vs@, baseline@, i as int, n as int));
            } else {
                assert(stable_max(model, vs@, baseline@, i + 1, 0) == stable_max(model, vs@, baseline@, i as int, n as int));
            }
        }
        cost.push(row);
        i += 1;
    }
    proof {
        if n > 0 {
            assert(stable_max(model, vs@, baseline@, n as int, 0) == stable_max(model, vs@, baseline@, n - 1, n as int));
        }
    }
    proof {
        assert forall|r: int, c: int| 0 <= r < c < n implies #[trigger] stable_fits(model, vs@, baseline@, r, c) by {
            assert(0 <= r < n as int && r < c < n);
        }
        assert(!(exists|r: int, c: int| 0 <= r < c < n && !#[trigger] stable_fits(model, vs@, baseline@, r, c)));
        assert(max_c == stable_max(model, vs@, baseline@, n - 1, n as int));
    }
    if forbidden.len() == 0 {
        return Some(StableInstance { verts: vs, cost });
    }
    let half: i128 = (n / 2) as i128;
    let prohibitive = match max_c.checked_mul(half) {
        Some(x) => match x.checked_add(1) {
            Some(y) => y,
            None => {
                return None;
            },
        },
        None => {
            return None;
        },
    };
    let mut out: Vec<Vec<i128>> = Vec::new();
    let mut i: usize = 0;
    while i < n
        invariant
            i <= n,
            n == vs@.len(),
            cost@.len() == n,
            forall|r: int| 0 <= r < n ==> (#[trigger] cost@[r])@.len() == n,
            forall|r: int, c: int| 0 <= r < n && 0 <= c < n ==> #[trigger] cost@[r]@[c] == if r < c {
                stable_cost(model, vs@, baseline@, r, c)
            } else {
                0
            },
            out@.len() == i,
            forall|r: int| 0 <= r < i ==> (#[trigger] out@[r])@.len() == n,
            forall|r: int, c: int| 0 <= r < i && 0 <= c < n ==> #[trigger] out@[r]@[c] == if r < c {
                if forbidden@.contains(unord(vs@[r], vs@[c])) {
                    prohibitive as int
                } else {
                    stable_cost(model, vs@, baseline@, r, c)
                }
            } else {
                0
            },
        decreases n - i,
    {
        let mut row: Vec<i128> = Vec::new();
        let mut j: usize = 0;
        while j < n
            invariant
                i < n,
                j <= n,
                n == vs@.len(),
                cost@.len() == n,
                forall|r: int| 0 <= r < n ==> (#[trigger] cost@[r])@.len() == n,
                forall|r: int, c: int| 0 <= r < n && 0 <= c < n ==> #[trigger] cost@[r]@[c] == if r < c {
                    stable_cost(model, vs@, baseline@, r, c)
                } else {
                    0
                },
                row@.len() == j,
                forall|c: int| 0 <= c < j ==> #[trigger] row@[c] == if (i as int) < c {
                    if forbidden@.contains(unord(vs@[i as int], vs@[c])) {
                        prohibitive as int
                    } else {
                        stable_cost(model, vs@, baseline@, i as int, c)
                    }
                } else {
                    0
                },
            decreases n - j,
        {
            if i < j && has_edge(forbidden, unord_pair(vs[i], vs[j])) {
                row.push(prohibitive);
            } else {
                row.push(cost[i][j]);
            }
            j += 1;
        }
        out.push(row);
        i += 1;
    }
    Some(StableInstance { verts: vs, cost: out })
}

/// The couples of a matching on `verts`, each as a normalized edge taken at
/// its lower vertex, over the first `n` vertices.
pub open spec fn stable_pairs(verts: Seq<UnitKey>, mate: Seq<usize>, n: int) -> Seq<(UnitKey, UnitKey)>
    decreases n,
{
    if n <= 0 {
        Seq::empty()
    } else {
        let i = n - 1;
        let rest = stable_pairs(verts, mate, n - 1);
        if i < mate[i] {
            rest.push(unord(verts[i], verts[mate[i] as int]))
        } else {
            rest
        }
    }
}

impl StableInstance {
    /// Read the re-solve's answer back as normalized edges, one per couple in
    /// vertex order. Fewer than two vertices need no solver and give no
    /// edges; otherwise `None` when `mate` is not a perfect matching on the
    /// vertices.
    pub fn pairs(&self, mate: &[usize]) -> (r: Option<Vec<(UnitKey, UnitKey)>>)
        ensures
            self.verts@.len() < 2 ==> (r matches Some(p) && p@.len() == 0),
            self.verts@.len() >= 2 ==> (r is Some <==> super::matching::perfect_matching(mate@, self.verts@.len() as int)),
            self.verts@.len() >= 2 ==> (r matches Some(p) ==> p@ == stable_pairs(self.verts@, mate@, self.verts@.len() as int)),
    {
        let n = self.verts.len();
        if n < 2 {
            return Some(Vec::new());
        }
        if mate.len() != n {
            return None;
        }
        let mut i: usize = 0;
        while i < n
            invariant
                i <= n,
                n == self.verts@.len(),
                n >= 2,
                mate@.len() == n,
                forall|j: int| 0 <= j < i ==> (#[trigger] mate@[j]) < n && mate@[j] != j && mate@[mate@[j] as int] == j,
            decreases n - i,
        {
            let j = mate[i];
            if j >= n || j == i || mate[j] != i {
                return None;
            }
            i += 1;
        }
        let mut out: Vec<(UnitKey, UnitKey)> = Vec::new();
        let mut i: usize = 0;
        while i < n
            invariant
                i <= n,
                n == self.verts@.len(),
                super::matching::perfect_matching(mate@, n as int),
                out@ == stable_pairs(self.verts@, mate@, i as int),
            decreases n - i,
        {
            let j = mate[i];
            if i < j {
                out.push(unord_pair(self.verts[i], self.verts[j]));
            }
            i += 1;
        }
        Some(out)
    }
}

/// The confirmed matching: each board as a normalized edge, then the bye as an
/// edge to the phantom.
pub open spec fn baseline_of(boards: Seq<(UnitKey, UnitKey)>, bye: Option<UnitKey>) -> Seq<(UnitKey, UnitKey)> {
    let b = boards.map_values(|p: (UnitKey, UnitKey)| unord(p.0, p.1));
    match bye {
        Some(u) => b.push(unord(u, phantom())),
        None => b,
    }
}

/// A counterfactual probe set up for the solver: the round's model, the
/// confirmed matching, the stable re-solve, and (when forcing) the edge the
/// re-solve leaves out and adds back.
pub struct Probe<'u> {
    pub model: PairingModel<'u>,
    pub baseline: Vec<(UnitKey, UnitKey)>,
    pub instance: StableInstance,
    pub forced: Option<(UnitKey, UnitKey)>,
}

/// The re-solve's vertices: every free unit except the probed ones when
/// forcing, plus the phantom while a bye is in play (and, when forcing, the
/// phantom is not itself one of the probed ones).
pub open spec fn probe_verts(mode: CounterfactualMode, free: Seq<UnitKey>, need_phantom: bool, a: UnitKey, b: UnitKey, v: UnitKey) -> bool {
    match mode {
        CounterfactualMode::Force => (free.contains(v) && v != a && v != b) || (v == phantom() && need_phantom && a != phantom() && b != phantom()),
        CounterfactualMode::Forbid => free.contains(v) || (v == phantom() && need_phantom),
    }
}

/// The re-solve's vertices in canonical (ascending) order.
pub open spec fn probe_order(mode: CounterfactualMode, free: Seq<UnitKey>, need_phantom: bool, a: UnitKey, b: UnitKey) -> Seq<UnitKey> {
    choose|c: Seq<UnitKey>| ascending(c) && forall|v: UnitKey| #[trigger] c.contains(v) <==> probe_verts(mode, free, need_phantom, a, b, v)
}

/// The edges the re-solve must avoid: the probed one when forbidding.
pub open spec fn probe_forbidden(mode: CounterfactualMode, a: UnitKey, b: UnitKey) -> Seq<(UnitKey, UnitKey)> {
    match mode {
        CounterfactualMode::Force => Seq::empty(),
        CounterfactualMode::Forbid => seq![unord(a, b)],
    }
}

impl<'u> Probe<'u> {
    /// The probe is the one its inputs call for.
    pub open spec fn set_up_from(
        &self,
        mode: CounterfactualMode,
        number: u32,
        settings: TournamentSettings,
        units: &TiVec<UnitKey, PairingUnit>,
        boards: Seq<(UnitKey, UnitKey)>,
        bye: Option<UnitKey>,
        a: UnitKey,
        b: UnitKey,
    ) -> bool {
        let free = explained_free(boards, bye);
        &&& self.model.wf()
        &&& self.model.derived_from(number, settings, units, free, bye is Some)
        &&& self.baseline@ == baseline_of(boards, bye)
        &&& forall|v: UnitKey| #[trigger] self.instance.verts@.contains(v) <==> probe_verts(mode, free, bye is Some, a, b, v)
        &&& self.forced == match mode {
            CounterfactualMode::Force => Some(unord(a, b)),
            CounterfactualMode::Forbid => None::<(UnitKey, UnitKey)>,
        }
    }

    /// The confirmed and the counterfactual matching's edges all score.
    pub open spec fn scores(&self) -> bool {
        &&& self.model.wf()
        &&& !self.model.is_free(phantom())
        &&& forall|i: int| 0 <= i < self.baseline@.len() ==> scorable_edge(&self.model, #[trigger] self.baseline@[i])
        &&& forall|v: UnitKey| #[trigger] self.instance.verts@.contains(v) ==> solvable_vertex(&self.model, v)
        &&& ascending(self.instance.verts@)
        &&& self.instance.verts@.len() < 0x1_0000_0000
        &&& self.baseline@.len() < 0x1_0000_0000
        &&& (self.forced matches Some(e) ==> scorable_edge(&self.model, e))
    }

    /// The counterfactual matching a solver answer `mate` stands for: the
    /// re-solve's couples, then the forced edge.
    pub open spec fn counter_matching(&self, mate: Seq<usize>) -> Seq<(UnitKey, UnitKey)> {
        let n = self.instance.verts@.len() as int;
        let solved = if n >= 2 {
            stable_pairs(self.instance.verts@, mate, n)
        } else {
            Seq::empty()
        };
        match self.forced {
            Some(e) => solved.push(e),
            None => solved,
        }
    }

    /// Read the stable re-solve's answer and diff it against the confirmed
    /// matching. `None` when `mate` is not a perfect matching on the
    /// re-solve's vertices.
    pub fn conclude(&self, mate: &[usize]) -> (r: Option<Counterfactual>)
        requires
            self.scores(),
        ensures
            r matches Some(cf) ==> diffed(&self.model, self.baseline@, self.counter_matching(mate@), cf),
            self.instance.verts@.len() >= 2 ==> (r is Some <==> super::matching::perfect_matching(mate@, self.instance.verts@.len() as int)),
            self.instance.verts@.len() < 2 ==> r is Some,
    {
        let mut m1 = match self.instance.pairs(mate) {
            Some(p) => p,
            None => {
                return None;
            },
        };
        let ghost solved = m1@;
        proof {
            if self.instance.verts@.len() >= 2 {
                assert forall|i: int| 0 <= i < m1@.len() implies scorable_edge(&self.model, #[trigger] m1@[i]) by {
                    lemma_stable_pairs_score(&self.model, self.instance.verts@, mate@, self.instance.verts@.len() as int, i);
                }
                lemma_stable_pairs_len(self.instance.verts@, mate@, self.instance.verts@.len() as int);
            } else {
                assert(solved =~= Seq::<(UnitKey, UnitKey)>::empty());
            }
        }
        if let Some(e) = self.forced {
            m1.push(e);
        }
        let cf = diff_matchings(&self.model, &self.baseline, &m1);
        proof {
            assert(m1@ =~= self.counter_matching(mate@));
        }
        Some(cf)
    }
}

/// `cf` is the diff of `m0` against `m1` under the model.
pub open spec fn diffed(m: &PairingModel, m0: Seq<(UnitKey, UnitKey)>, m1: Seq<(UnitKey, UnitKey)>, cf: Counterfactual) -> bool {
    let added = choose|a: Seq<(UnitKey, UnitKey)>| edges_ascending(a) && forall|e: (UnitKey, UnitKey)| #[trigger] a.contains(e) <==> m1.contains(e) && !m0.contains(e);
    let removed = choose|a: Seq<(UnitKey, UnitKey)>| edges_ascending(a) && forall|e: (UnitKey, UnitKey)| #[trigger] a.contains(e) <==> m0.contains(e) && !m1.contains(e);
    &&& cf.scoped_out is None
    &&& cf.cost_delta@.map_values(|d: RuleDelta| rule_delta_parts(d)) == cost_deltas(m, added, removed, m.rules@.len() as int)
    &&& cf.changed@.len() == added.len()
    &&& forall|k: int| 0 <= k < added.len() ==> ledger_parts(#[trigger] cf.changed@[k]) == ledger_of(sides(added[k]).0, sides(added[k]).1, m.rules@, edge_rule_units(m, added[k]))
    &&& flat(ring_players(cf.cycles@)).no_duplicates()
    &&& forall|v: UnitKey| #[trigger] flat(ring_players(cf.cycles@)).contains(v) <==> sym_vertex(m0, m1, v)
    &&& forall|c: int| 0 <= c < cf.cycles@.len() ==> ring_linked(m0, m1, #[trigger] cf.cycles@[c].players@)
    &&& forall|c: int| 0 <= c < cf.cycles@.len() ==> (#[trigger] cf.cycles@[c]).players@.len() > 0
    &&& forall|c: int| 0 <= c < cf.cycles@.len() ==> ring_led(#[trigger] cf.cycles@[c].players@)
    &&& rings_ascending(cf.cycles@)
}

/// Each couple of a matching on distinct solvable vertices is a scorable edge.
proof fn lemma_stable_pairs_score(m: &PairingModel, verts: Seq<UnitKey>, mate: Seq<usize>, n: int, k: int)
    requires
        ascending(verts),
        forall|v: UnitKey| #[trigger] verts.contains(v) ==> solvable_vertex(m, v),
        !m.is_free(phantom()),
        n <= verts.len(),
        super::matching::perfect_matching(mate, verts.len() as int),
        verts.len() >= 2,
        0 <= k < stable_pairs(verts, mate, n).len(),
    ensures
        scorable_edge(m, stable_pairs(verts, mate, n)[k]),
    decreases n,
{
    if n > 0 {
        let i = n - 1;
        let rest = stable_pairs(verts, mate, n - 1);
        if k < rest.len() {
            lemma_stable_pairs_score(m, verts, mate, n - 1, k);
        } else {
            let j = mate[i] as int;
            assert(verts.contains(verts[i]));
            assert(verts.contains(verts[j]));
            assert(verts[i].0 < verts[j].0);
        }
    }
}

/// A matching's couples number at most its vertices.
proof fn lemma_stable_pairs_len(verts: Seq<UnitKey>, mate: Seq<usize>, n: int)
    requires
        0 <= n,
    ensures
        stable_pairs(verts, mate, n).len() <= n,
    decreases n,
{
    if n > 0 {
        lemma_stable_pairs_len(verts, mate, n - 1);
    }
}

/// Set up a counterfactual probe of `a`–`b` against the round's confirmed
/// Swiss pairing: the round's model, the confirmed matching, and the stable
/// re-solve — of everyone but `a` and `b` when forcing (the forced edge is
/// added back afterwards), of everyone with the edge forbidden when
/// forbidding. `None` when the round's ladder or the re-solve's costs would
/// overflow `i128`.
pub fn probe<'u>(
    mode: CounterfactualMode,
    number: u32,
    settings: &TournamentSettings,
    units: &'u TiVec<UnitKey, PairingUnit>,
    swiss_boards: &[(UnitKey, UnitKey)],
    bye: Option<UnitKey>,
    a: UnitKey,
    b: UnitKey,
) -> (r: Option<Probe<'u>>)
    requires
        explained_free(swiss_boards@, bye).no_duplicates(),
        explained_free(swiss_boards@, bye).len() < u32::MAX,
        forall|i: int|
            0 <= i < explained_free(swiss_boards@, bye).len() ==> pairable(unit_rows(*units), #[trigger] explained_free(swiss_boards@, bye)[i], number)
                && explained_free(swiss_boards@, bye)[i] != phantom(),
        a != b,
        explained_free(swiss_boards@, bye).contains(a) || (a == phantom() && bye is Some),
        explained_free(swiss_boards@, bye).contains(b) || (b == phantom() && bye is Some),
    ensures
        r matches Some(p) ==> p.set_up_from(mode, number, *settings, units, swiss_boards@, bye, a, b) && p.scores(),
        r matches Some(p) ==> p.instance.verts@ == probe_order(mode, explained_free(swiss_boards@, bye), bye is Some, a, b),
        r is None <==> !elo_spread_fits(*settings, unit_rows(*units), explained_free(swiss_boards@, bye), bye is Some)
            || exists|m: PairingModel| #[trigger] m.derived_from(number, *settings, units, explained_free(swiss_boards@, bye), bye is Some)
            && (!super::rules::ladder_fits(m.max_total@) || (m.wf() && stable_overflow(
                &m,
                probe_order(mode, explained_free(swiss_boards@, bye), bye is Some, a, b),
                baseline_of(swiss_boards@, bye),
                probe_forbidden(mode, a, b),
            ))),
{
    let ghost free_spec = explained_free(swiss_boards@, bye);
    let free = engine_free(swiss_boards, bye);
    let need_phantom = bye.is_some();
    let model = match PairingModel::build(number, settings, units, free.as_slice(), need_phantom) {
        Some(m) => m,
        None => {
            return None;
        },
    };
    proof {
        lemma_board_sides(swiss_boards@, swiss_boards@.len() as int);
        assert(!model.is_free(phantom())) by {
            if free_spec.contains(phantom()) {
                let i = choose|i: int| 0 <= i < free_spec.len() && free_spec[i] == phantom();
                assert(free_spec[i] != phantom());
            }
        }
    }
    let mut baseline: Vec<(UnitKey, UnitKey)> = Vec::new();
    let mut i: usize = 0;
    while i < swiss_boards.len()
        invariant
            i <= swiss_boards@.len(),
            baseline@ == swiss_boards@.subrange(0, i as int).map_values(|p: (UnitKey, UnitKey)| unord(p.0, p.1)),
            model.free@ == free_spec,
            model.wf(),
            !model.is_free(phantom()),
            free_spec == explained_free(swiss_boards@, bye),
            free_spec.no_duplicates(),
            board_sides(swiss_boards@, swiss_boards@.len() as int).len() == 2 * swiss_boards@.len(),
            forall|t: int| 0 <= t < swiss_boards@.len() ==> #[trigger] board_sides(swiss_boards@, swiss_boards@.len() as int)[2 * t] == swiss_boards@[t].0 && board_sides(swiss_boards@, swiss_boards@.len() as int)[2 * t + 1] == swiss_boards@[t].1,
            forall|t: int| 0 <= t < i ==> scorable_edge(&model, #[trigger] baseline@[t]),
        decreases swiss_boards@.len() - i,
    {
        let (x, y) = swiss_boards[i];
        proof {
            assert(free_spec[2 * i] == x);
            assert(free_spec[2 * i + 1] == y);
            assert(model.is_free(x));
            assert(model.is_free(y));
        }
        baseline.push(unord_pair(x, y));
        proof {
            assert(baseline@ =~= swiss_boards@.subrange(0, i + 1).map_values(|p: (UnitKey, UnitKey)| unord(p.0, p.1)));
        }
        i += 1;
    }
    proof {
        assert(swiss_boards@.subrange(0, swiss_boards@.len() as int) =~= swiss_boards@);
    }
    if let Some(u) = bye {
        proof {
            assert(free_spec[free_spec.len() - 1] == u);
            assert(model.is_free(u));
        }
        baseline.push(unord_pair(u, UnitKey(0)));
    }
    assert(baseline@ =~= baseline_of(swiss_boards@, bye));
    let mut verts: Vec<UnitKey> = Vec::new();
    let mut k: usize = 0;
    while k < free.len()
        invariant
            k <= free@.len(),
            free@ == free_spec,
            forall|v: UnitKey| #[trigger] verts@.contains(v) <==> exists|q: int| 0 <= q < k && free@[q] == v && (mode is Forbid || (v != a && v != b)),
            verts@.len() <= k,
        decreases free@.len() - k,
    {
        let v = free[k];
        let keep = match mode {
            CounterfactualMode::Force => v != a && v != b,
            CounterfactualMode::Forbid => true,
        };
        let ghost before = verts@;
        if keep {
            verts.push(v);
        }
        proof {
            assert forall|w: UnitKey| #[trigger] verts@.contains(w) <==> exists|q: int| 0 <= q < k + 1 && free@[q] == w && (mode is Forbid || (w != a && w != b)) by {
                if verts@.contains(w) {
                    let p = choose|p: int| 0 <= p < verts@.len() && verts@[p] == w;
                    if p < before.len() {
                        assert(before.contains(w));
                    }
                }
                if exists|q: int| 0 <= q < k + 1 && free@[q] == w && (mode is Forbid || (w != a && w != b)) {
                    let q = choose|q: int| 0 <= q < k + 1 && free@[q] == w && (mode is Forbid || (w != a && w != b));
                    if q < k {
                        assert(before.contains(w));
                        let p = choose|p: int| 0 <= p < before.len() && before[p] == w;
                        assert(verts@[p] == w);
                    } else {
                        assert(verts@[verts@.len() - 1] == w);
                    }
                }
            }
        }
        k += 1;
    }
    let ghost core = verts@;
    let with_phantom = match mode {
        CounterfactualMode::Force => need_phantom && a.0 != 0 && b.0 != 0,
        CounterfactualMode::Forbid => need_phantom,
    };
    if with_phantom {
        verts.push(UnitKey(0));
    }
    let mut forbidden: Vec<(UnitKey, UnitKey)> = Vec::new();
    let forced = match mode {
        CounterfactualMode::Force => Some(unord_pair(a, b)),
        CounterfactualMode::Forbid => {
            forbidden.push(unord_pair(a, b));
            None
        },
    };
    proof {
        assert forall|v: UnitKey| #[trigger] verts@.contains(v) <==> probe_verts(mode, free_spec, bye is Some, a, b, v) by {
            if verts@.contains(v) {
                let p = choose|p: int| 0 <= p < verts@.len() && verts@[p] == v;
                if p < core.len() {
                    assert(core.contains(v));
                    let q = choose|q: int| 0 <= q < free@.len() && free@[q] == v && (mode is Forbid || (v != a && v != b));
                    assert(free_spec.contains(v));
                }
            }
            if probe_verts(mode, free_spec, bye is Some, a, b, v) {
                if free_spec.contains(v) && (mode is Forbid || (v != a && v != b)) {
                    let q = choose|q: int| 0 <= q < free_spec.len() && free_spec[q] == v;
                    assert(core.contains(v));
                    let p = choose|p: int| 0 <= p < core.len() && core[p] == v;
                    assert(verts@[p] == v);
                } else {
                    assert(verts@[verts@.len() - 1] == v);
                }
            }
        }
        assert forall|q: int| 0 <= q < verts@.len() implies solvable_vertex(&model, #[trigger] verts@[q]) by {
            assert(verts@.contains(verts@[q]));
        }
        assert(verts@.len() <= free_spec.len() + 1);
    }
    assert(forbidden@ =~= probe_forbidden(mode, a, b));
    let instance = stable_instance(&model, verts.as_slice(), &baseline, &forbidden);
    proof {
        let sk = sorted_keys(verts@);
        let c = probe_order(mode, free_spec, bye is Some, a, b);
        assert(ascending(sk) && forall|v: UnitKey| #[trigger] sk.contains(v) <==> probe_verts(mode, free_spec, bye is Some, a, b, v));
        assert(ascending(c) && forall|v: UnitKey| #[trigger] c.contains(v) <==> probe_verts(mode, free_spec, bye is Some, a, b, v));
        super::matching::lemma_ascending_same_keys(c, sk);
    }
    let instance = match instance {
        Some(s) => s,
        None => {
            assert(model.derived_from(number, *settings, units, free_spec, bye is Some));
            return None;
        },
    };
    proof {
        let c = probe_order(mode, free_spec, bye is Some, a, b);
        assert forall|q: int| 0 <= q < c.len() implies solvable_vertex(&model, #[trigger] c[q]) by {
            assert(c.contains(c[q]));
            assert(verts@.contains(c[q]));
            let t = choose|t: int| 0 <= t < verts@.len() && verts@[t] == c[q];
            assert(solvable_vertex(&model, verts@[t]));
        }
        assert forall|m: PairingModel| #[trigger] m.derived_from(number, *settings, units, free_spec, bye is Some)
            implies super::rules::ladder_fits(m.max_total@) && !stable_overflow(&m, c, baseline@, probe_forbidden(mode, a, b)) by {
            lemma_stable_overflow_alike(&model, &m, number, *settings, units, free_spec, bye is Some, c, baseline@, probe_forbidden(mode, a, b));
        }
    }
    let p = Probe { model, baseline, instance, forced };
    proof {
        assert forall|v: UnitKey| #[trigger] p.instance.verts@.contains(v) <==> probe_verts(mode, free_spec, bye is Some, a, b, v) by {
            assert(verts@.contains(v) <==> probe_verts(mode, free_spec, bye is Some, a, b, v));
        }
        super::matching::lemma_free_len(p.instance.verts@, verts@);
        assert(p.baseline@.len() <= free_spec.len());
        assert forall|v: UnitKey| #[trigger] p.instance.verts@.contains(v) implies solvable_vertex(&p.model, v) by {
            assert(verts@.contains(v));
            let q = choose|q: int| 0 <= q < verts@.len() && verts@[q] == v;
            assert(solvable_vertex(&model, verts@[q]));
        }
        if let Some(e) = p.forced {
            assert(e == unord(a, b));
            assert(scorable_edge(&p.model, e));
        }
        assert(p.scores());
        assert(p.set_up_from(mode, number, *settings, units, swiss_boards@, bye, a, b));
    }
    Some(p)
}

proof fn lemma_no_edges_empty(a: Seq<(UnitKey, UnitKey)>)
    requires
        forall|e: (UnitKey, UnitKey)| !#[trigger] a.contains(e),
    ensures
        a.len() == 0,
{
    if a.len() > 0 {
        assert(a.contains(a[0]));
    }
}

proof fn lemma_cost_deltas_of_nothing(m: &PairingModel, t: int)
    ensures
        cost_deltas(m, Seq::empty(), Seq::empty(), t).len() == 0,
    decreases t,
{
    if t > 0 {
        lemma_cost_deltas_of_nothing(m, t - 1);
        let boards = rule_boards(m, Seq::empty(), Seq::empty(), t - 1);
        assert(boards =~= Seq::<BoardDelta>::empty());
    }
}

proof fn lemma_flat_len(rings: Seq<Seq<UnitKey>>)
    requires
        forall|c: int| 0 <= c < rings.len() ==> (#[trigger] rings[c]).len() > 0,
    ensures
        rings.len() > 0 ==> flat(rings).len() > 0,
{
    if rings.len() > 0 {
        assert(rings[rings.len() - 1].len() > 0);
    }
}

/// Probing a matching against itself (the same edges, in any order) changes
/// nothing: no board is added, no rule moves, and no player is affected.
pub proof fn lemma_diff_of_the_same_matching(
    m: &PairingModel,
    m0: Seq<(UnitKey, UnitKey)>,
    m1: Seq<(UnitKey, UnitKey)>,
    cf: Counterfactual,
)
    requires
        diffed(m, m0, m1, cf),
        forall|e: (UnitKey, UnitKey)| m0.contains(e) <==> m1.contains(e),
    ensures
        cf.changed@.len() == 0,
        cf.cost_delta@.len() == 0,
        cf.cycles@.len() == 0,
{
    let empty = Seq::<(UnitKey, UnitKey)>::empty();
    assert(edges_ascending(empty));
    assert(forall|e: (UnitKey, UnitKey)| #[trigger] empty.contains(e) <==> m1.contains(e) && !m0.contains(e));
    assert(forall|e: (UnitKey, UnitKey)| #[trigger] empty.contains(e) <==> m0.contains(e) && !m1.contains(e));
    let added = choose|a: Seq<(UnitKey, UnitKey)>| edges_ascending(a) && forall|e: (UnitKey, UnitKey)| #[trigger] a.contains(e) <==> m1.contains(e) && !m0.contains(e);
    let removed = choose|a: Seq<(UnitKey, UnitKey)>| edges_ascending(a) && forall|e: (UnitKey, UnitKey)| #[trigger] a.contains(e) <==> m0.contains(e) && !m1.contains(e);
    lemma_no_edges_empty(added);
    lemma_no_edges_empty(removed);
    assert(added =~= empty);
    assert(removed =~= empty);
    lemma_cost_deltas_of_nothing(m, m.rules@.len() as int);
    assert(cf.cost_delta@.map_values(|d: RuleDelta| rule_delta_parts(d)).len() == cf.cost_delta@.len());
    let rings = ring_players(cf.cycles@);
    assert forall|c: int| 0 <= c < rings.len() implies (#[trigger] rings[c]).len() > 0 by {
        assert(rings[c] == cf.cycles@[c].players@);
    }
    lemma_flat_len(rings);
    if flat(rings).len() > 0 {
        let v = flat(rings)[0];
        assert(flat(rings).contains(v));
        assert(sym_vertex(m0, m1, v));
        let e = choose|e: (UnitKey, UnitKey)| #[trigger] in_sym(m0, m1, e) && (e.0 == v || e.1 == v);
    }
    assert(rings.len() == cf.cycles@.len());
}

/// Models that read alike cost every edge alike, the phantom's included.
proof fn lemma_base_cost_alike(m1: &PairingModel, m2: &PairingModel, a: UnitKey, b: UnitKey)
    requires
        m1.rules@ == m2.rules@,
        m1.max_total@ == m2.max_total@,
        reads_alike(&m1.model_ctx(), &m2.model_ctx()),
        a != b,
        (a.0 as int) < unit_rows(*m1.units).len() || a == phantom(),
        (b.0 as int) < unit_rows(*m1.units).len() || b == phantom(),
    ensures
        base_cost(m1, a, b) == base_cost(m2, a, b),
{
    let (c1, c2) = (m1.model_ctx(), m2.model_ctx());
    lemma_alike_contexts_score_alike(&c1, &c2);
    if a == phantom() {
        assert(bye_units_seq(m1.rules@, &c1, b) == bye_units_seq(m2.rules@, &c2, b));
    } else if b == phantom() {
        assert(bye_units_seq(m1.rules@, &c1, a) == bye_units_seq(m2.rules@, &c2, a));
    } else {
        assert(edge_units_seq(m1.rules@, &c1, a, b) == edge_units_seq(m2.rules@, &c2, a, b));
    }
}

/// Where two models cost every pair of distinct vertices alike, their running
/// stability maxima agree.
proof fn lemma_stable_max_alike(
    m1: &PairingModel,
    m2: &PairingModel,
    vs: Seq<UnitKey>,
    baseline: Seq<(UnitKey, UnitKey)>,
    i: int,
    j: int,
)
    requires
        forall|p: int, q: int| 0 <= p < q < vs.len() ==> #[trigger] base_cost(m1, vs[p], vs[q]) == base_cost(m2, vs[p], vs[q]),
        i < vs.len(),
        j <= vs.len(),
    ensures
        stable_max(m1, vs, baseline, i, j) == stable_max(m2, vs, baseline, i, j),
    decreases i, j,
{
    if i < 0 || (i == 0 && j <= 1) {
    } else if j <= i + 1 {
        lemma_stable_max_alike(m1, m2, vs, baseline, i - 1, vs.len() as int);
    } else {
        lemma_stable_max_alike(m1, m2, vs, baseline, i, j - 1);
        assert(base_cost(m1, vs[i], vs[j - 1]) == base_cost(m2, vs[i], vs[j - 1]));
    }
}

/// Two models derived from the same inputs agree on whether the stable
/// re-solve over `vs` overflows.
proof fn lemma_stable_overflow_alike(
    m1: &PairingModel,
    m2: &PairingModel,
    number: u32,
    settings: TournamentSettings,
    units: &TiVec<UnitKey, PairingUnit>,
    free: Seq<UnitKey>,
    need_phantom: bool,
    vs: Seq<UnitKey>,
    baseline: Seq<(UnitKey, UnitKey)>,
    forbidden: Seq<(UnitKey, UnitKey)>,
)
    requires
        m1.derived_from(number, settings, units, free, need_phantom),
        m2.derived_from(number, settings, units, free, need_phantom),
        m1.wf(),
        ascending(vs),
        forall|p: int| 0 <= p < vs.len() ==> solvable_vertex(m1, #[trigger] vs[p]),
    ensures
        stable_overflow(m1, vs, baseline, forbidden) == stable_overflow(m2, vs, baseline, forbidden),
{
    lemma_derived_models_agree(m1, m2, number, settings, units, free, need_phantom);
    let n = vs.len() as int;
    assert forall|p: int, q: int| 0 <= p < q < n implies #[trigger] base_cost(m1, vs[p], vs[q]) == base_cost(m2, vs[p], vs[q]) by {
        assert(solvable_vertex(m1, vs[p]));
        assert(solvable_vertex(m1, vs[q]));
        if m1.is_free(vs[p]) {
            assert(m1.model_ctx().scorable(vs[p]));
        }
        if m1.is_free(vs[q]) {
            assert(m1.model_ctx().scorable(vs[q]));
        }
        lemma_base_cost_alike(m1, m2, vs[p], vs[q]);
    }
    assert forall|p: int, q: int| 0 <= p < q < n implies #[trigger] stable_fits(m1, vs, baseline, p, q) == stable_fits(m2, vs, baseline, p, q) by {
        assert(base_cost(m1, vs[p], vs[q]) == base_cost(m2, vs[p], vs[q]));
    }
    if n > 0 {
        lemma_stable_max_alike(m1, m2, vs, baseline, n - 1, n);
    }
    if exists|i: int, j: int| 0 <= i < j < n && !#[trigger] stable_fits(m1, vs, baseline, i, j) {
        let (i, j) = choose|i: int, j: int| 0 <= i < j < n && !#[trigger] stable_fits(m1, vs, baseline, i, j);
        assert(!stable_fits(m2, vs, baseline, i, j));
    }
    if exists|i: int, j: int| 0 <= i < j < n && !#[trigger] stable_fits(m2, vs, baseline, i, j) {
        let (i, j) = choose|i: int, j: int| 0 <= i < j < n && !#[trigger] stable_fits(m2, vs, baseline, i, j);
        assert(!stable_fits(m1, vs, baseline, i, j));
    }
}

/// What [`probe`] asks of its inputs: the engine-paired units distinct, not
/// too many, each one the model can score and none of them the phantom; two
/// different probed sides, each engine-paired or the phantom of a round with
/// a bye.
pub open spec fn probe_ready(
    number: u32,
    units: &TiVec<UnitKey, PairingUnit>,
    swiss_boards: Seq<(UnitKey, UnitKey)>,
    bye: Option<UnitKey>,
    a: UnitKey,
    b: UnitKey,
) -> bool {
    let free = explained_free(swiss_boards, bye);
    &&& free.no_duplicates()
    &&& free.len() < u32::MAX
    &&& forall|i: int| 0 <= i < free.len() ==> pairable(unit_rows(*units), #[trigger] free[i], number) && free[i] != phantom()
    &&& a != b
    &&& free.contains(a) || (a == phantom() && bye is Some)
    &&& free.contains(b) || (b == phantom() && bye is Some)
}

/// Why a probe could not be set up.
#[derive(Debug, Clone, Copy, PartialEq, Eq)]
pub enum ProbeSetupError {
    /// The inputs are not what a probe needs ([`probe_ready`]).
    NotReady,
    /// The round's costs would leave `i128`.
    Overflow,
}

/// Whether `s` holds no value twice.
fn distinct_keys(s: &Vec<UnitKey>) -> (r: bool)
    ensures
        r == s@.no_duplicates(),
{
    let mut i: usize = 0;
    while i < s.len()
        invariant
            i <= s@.len(),
            forall|x: int, y: int| 0 <= x < y < s@.len() && x < i ==> s@[x] != s@[y],
        decreases s@.len() - i,
    {
        let mut j: usize = i + 1;
        while j < s.len()
            invariant
                i < j <= s@.len(),
                forall|x: int, y: int| 0 <= x < y < s@.len() && x < i ==> s@[x] != s@[y],
                forall|y: int| i < y < j ==> s@[i as int] != s@[y],
            decreases s@.len() - j,
        {
            if s[i] == s[j] {
                return false;
            }
            j += 1;
        }
        i += 1;
    }
    true
}

/// [`probe`] on inputs not yet checked: `NotReady` exactly when they are not
/// what a probe needs, else what `probe` gives, its `None` as `Overflow`.
pub fn try_probe<'u>(
    mode: CounterfactualMode,
    number: u32,
    settings: &TournamentSettings,
    units: &'u TiVec<UnitKey, PairingUnit>,
    swiss_boards: &[(UnitKey, UnitKey)],
    bye: Option<UnitKey>,
    a: UnitKey,
    b: UnitKey,
) -> (r: Result<Probe<'u>, ProbeSetupError>)
    ensures
        (r matches Err(ProbeSetupError::NotReady)) <==> !probe_ready(number, units, swiss_boards@, bye, a, b),
        (r matches Err(ProbeSetupError::Overflow)) <==> probe_ready(number, units, swiss_boards@, bye, a, b) && (
        !elo_spread_fits(*settings, unit_rows(*units), explained_free(swiss_boards@, bye), bye is Some)
            || exists|m: PairingModel| #[trigger] m.derived_from(number, *settings, units, explained_free(swiss_boards@, bye), bye is Some)
            && (!super::rules::ladder_fits(m.max_total@) || (m.wf() && stable_overflow(
                &m,
                probe_order(mode, explained_free(swiss_boards@, bye), bye is Some, a, b),
                baseline_of(swiss_boards@, bye),
                probe_forbidden(mode, a, b),
            )))),
        r matches Ok(p) ==> p.set_up_from(mode, number, *settings, units, swiss_boards@, bye, a, b) && p.scores()
            && p.instance.verts@ == probe_order(mode, explained_free(swiss_boards@, bye), bye is Some, a, b),
{
    let free = engine_free(swiss_boards, bye);
    let ghost fs = free@;
    if free.len() >= u32::MAX as usize || !distinct_keys(&free) {
        return Err(ProbeSetupError::NotReady);
    }
    let mut i: usize = 0;
    while i < free.len()
        invariant
            i <= free@.len(),
            free@ == fs,
            fs == explained_free(swiss_boards@, bye),
            forall|j: int| 0 <= j < i ==> pairable(unit_rows(*units), #[trigger] fs[j], number) && fs[j] != phantom(),
        decreases free@.len() - i,
    {
        if !is_pairable(units, free[i], number) || free[i] == UnitKey::phantom() {
            return Err(ProbeSetupError::NotReady);
        }
        i += 1;
    }
    let a_in = contains_unit(&free, a) || (a == UnitKey::phantom() && bye.is_some());
    let b_in = contains_unit(&free, b) || (b == UnitKey::phantom() && bye.is_some());
    if a == b || !a_in || !b_in {
        return Err(ProbeSetupError::NotReady);
    }
    match probe(mode, number, settings, units, swiss_boards, bye, a, b) {
        Some(p) => Ok(p),
        None => Err(ProbeSetupError::Overflow),
    }
}

/// Whether `k` occurs in `v`.
fn contains_unit(v: &Vec<UnitKey>, k: UnitKey) -> (r: bool)
    ensures
        r == v@.contains(k),
{
    let mut i: usize = 0;
    while i < v.len()
        invariant
            i <= v@.len(),
            forall|j: int| 0 <= j < i ==> v@[j] != k,
        decreases v@.len() - i,
    {
        if v[i] == k {
            assert(v@[i as int] == k);
            return true;
        }
        i += 1;
    }
    false
}

/// Every per-rule change moved: its net is not zero, it names at least one
/// board, and its net is its boards' sum (as `i64`).
proof fn lemma_cost_deltas_moved(m: &PairingModel, added: Seq<(UnitKey, UnitKey)>, removed: Seq<(UnitKey, UnitKey)>, t: int)
    ensures
        forall|k: int| 0 <= k < cost_deltas(m, added, removed, t).len() ==> {
            let d = #[trigger] cost_deltas(m, added, removed, t)[k];
            &&& d.1 != 0
            &&& d.2.len() > 0
            &&& d.1 == delta_sum(d.2, d.2.len() as int) as i64
        },
    decreases t,
{
    if t > 0 {
        lemma_cost_deltas_moved(m, added, removed, t - 1);
        let rest = cost_deltas(m, added, removed, t - 1);
        let boards = rule_boards(m, added, removed, t - 1);
        let net = delta_sum(boards, boards.len() as int) as i64;
        if net != 0 {
            if boards.len() == 0 {
                assert(delta_sum(boards, 0) == 0);
            }
            assert forall|k: int| 0 <= k < rest.push((rule_id(m.rules@[t - 1]), net, boards)).len() implies {
                let d = #[trigger] rest.push((rule_id(m.rules@[t - 1]), net, boards))[k];
                &&& d.1 != 0
                &&& d.2.len() > 0
                &&& d.1 == delta_sum(d.2, d.2.len() as int) as i64
            } by {
                if k < rest.len() {
                    assert(rest.push((rule_id(m.rules@[t - 1]), net, boards))[k] == rest[k]);
                }
            }
        }
    }
}

/// A counterfactual's per-rule changes all moved: each has a non-zero net,
/// names at least one board, and nets its boards' units (summed as `i64`).
pub proof fn lemma_counterfactual_deltas_moved(m: &PairingModel, m0: Seq<(UnitKey, UnitKey)>, m1: Seq<(UnitKey, UnitKey)>, cf: Counterfactual)
    requires
        diffed(m, m0, m1, cf),
    ensures
        forall|k: int| 0 <= k < cf.cost_delta@.len() ==> {
            let d = #[trigger] cf.cost_delta@[k];
            &&& d.units != 0
            &&& d.boards@.len() > 0
            &&& d.units == delta_sum(d.boards@, d.boards@.len() as int) as i64
        },
{
    let added = choose|a: Seq<(UnitKey, UnitKey)>| edges_ascending(a) && forall|e: (UnitKey, UnitKey)| #[trigger] a.contains(e) <==> m1.contains(e) && !m0.contains(e);
    let removed = choose|a: Seq<(UnitKey, UnitKey)>| edges_ascending(a) && forall|e: (UnitKey, UnitKey)| #[trigger] a.contains(e) <==> m0.contains(e) && !m1.contains(e);
    let cds = cost_deltas(m, added, removed, m.rules@.len() as int);
    lemma_cost_deltas_moved(m, added, removed, m.rules@.len() as int);
    assert forall|k: int| 0 <= k < cf.cost_delta@.len() implies {
        let d = #[trigger] cf.cost_delta@[k];
        &&& d.units != 0
        &&& d.boards@.len() > 0
        &&& d.units == delta_sum(d.boards@, d.boards@.len() as int) as i64
    } by {
        assert(cf.cost_delta@.map_values(|d: RuleDelta| rule_delta_parts(d))[k] == cds[k]);
    }
}

} // verus!
