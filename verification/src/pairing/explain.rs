//! Explaining a round: which rules fired on each board, and what they cost.
//!
//! Everything here is scored against the very [`PairingModel`] the round was
//! paired from, so an explanation can never drift from the pairing it
//! explains.

use vstd::prelude::*;

use typed_index_collections::TiVec;

use crate::settings::TournamentSettings;
use crate::tables::unit_rows;
use crate::units::UnitKey;

use super::matching::pairable;
use super::model::{elo_spread_fits, PairingModel, PairingUnit};
use super::rules::{bye_units_seq, edge_units_seq, ladder_fits, rule_id, Rule, RuleId};

verus! {

/// One rule's contribution to a single board (or the bye): the rule and the
/// penalty units it emitted, before the priority multiplier.
#[derive(Debug, Clone, Copy, PartialEq, Eq, Structural)]
pub struct RuleContribution {
    pub rule: RuleId,
    pub units: i64,
}

/// The rule ledger for one pairing: every rule that fired on it (units > 0),
/// in priority order, plus the highest-priority one — the rule that bound the
/// pairing. `player2` is `None` for the bye.
#[derive(Debug, Clone, PartialEq, Eq)]
pub struct BoardLedger {
    pub player1: UnitKey,
    pub player2: Option<UnitKey>,
    pub contributions: Vec<RuleContribution>,
    pub binding: Option<RuleId>,
}

/// How often one rule had to be relaxed across a whole round, and the total
/// units.
#[derive(Debug, Clone, Copy, PartialEq, Eq, Structural)]
pub struct RuleTotal {
    pub rule: RuleId,
    pub boards: u32,
    pub units: i64,
}

/// An explanation of one round's Swiss pairings: a per-board ledger, the bye's
/// ledger, and the per-rule round totals (in priority order).
#[derive(Debug, Clone, PartialEq, Eq)]
pub struct RoundExplanation {
    pub round: u32,
    pub boards: Vec<BoardLedger>,
    pub bye: Option<BoardLedger>,
    pub report: Vec<RuleTotal>,
}

impl RoundExplanation {
    /// The explanation of a round the engine chose nothing in.
    pub fn empty(round: u32) -> (r: Self)
        ensures
            r.round == round,
            r.boards@.len() == 0,
            r.bye is None,
            r.report@.len() == 0,
    {
        RoundExplanation { round, boards: Vec::new(), bye: None, report: Vec::new() }
    }
}

/// The contributions of the first `n` rules: those that fired, in order.
pub open spec fn contributions_of(rules: Seq<Rule>, units: Seq<int>, n: int) -> Seq<RuleContribution>
    decreases n,
{
    if n <= 0 {
        Seq::empty()
    } else {
        let rest = contributions_of(rules, units, n - 1);
        if units[n - 1] > 0 {
            rest.push(RuleContribution { rule: rule_id(rules[n - 1]), units: units[n - 1] as i64 })
        } else {
            rest
        }
    }
}

/// The ledger of one pairing.
pub open spec fn ledger_of(player1: UnitKey, player2: Option<UnitKey>, rules: Seq<Rule>, units: Seq<int>) -> (
    UnitKey,
    Option<UnitKey>,
    Seq<RuleContribution>,
    Option<RuleId>,
) {
    let c = contributions_of(rules, units, rules.len() as int);
    (player1, player2, c, if c.len() > 0 {
        Some(c[0].rule)
    } else {
        None
    })
}

/// A ledger read as its parts.
pub open spec fn ledger_parts(l: BoardLedger) -> (UnitKey, Option<UnitKey>, Seq<RuleContribution>, Option<RuleId>) {
    (l.player1, l.player2, l.contributions@, l.binding)
}

/// Turn a per-rule unit vector (aligned with `rules`, priority order) into a
/// ledger: keep only the rules that fired, and note the highest-priority one.
pub fn ledger(player1: UnitKey, player2: Option<UnitKey>, rules: &[Rule], units: &[i128]) -> (r: BoardLedger)
    requires
        rules@.len() == units@.len(),
    ensures
        ledger_parts(r) == ledger_of(player1, player2, rules@, units@.map_values(|u: i128| u as int)),
{
    let ghost us = units@.map_values(|u: i128| u as int);
    let mut contributions: Vec<RuleContribution> = Vec::new();
    let mut i: usize = 0;
    while i < rules.len()
        invariant
            i <= rules@.len(),
            rules@.len() == units@.len(),
            us == units@.map_values(|u: i128| u as int),
            contributions@ == contributions_of(rules@, us, i as int),
        decreases rules@.len() - i,
    {
        let u = units[i];
        if u > 0 {
            contributions.push(RuleContribution { rule: rules[i].id(), units: u as i64 });
        }
        i += 1;
    }
    let binding = if contributions.len() > 0 {
        Some(contributions[0].rule)
    } else {
        None
    };
    BoardLedger { player1, player2, contributions, binding }
}

/// How many of the first `n` pairings fired rule `i`.
pub open spec fn fired_count(all: Seq<Seq<int>>, i: int, n: int) -> int
    decreases n,
{
    if n <= 0 {
        0
    } else {
        fired_count(all, i, n - 1) + if all[n - 1][i] > 0 {
            1int
        } else {
            0int
        }
    }
}

/// The units rule `i` emitted over the first `n` pairings, each as the `i64`
/// it is recorded as.
pub open spec fn fired_units(all: Seq<Seq<int>>, i: int, n: int) -> int
    decreases n,
{
    if n <= 0 {
        0
    } else {
        fired_units(all, i, n - 1) + if all[n - 1][i] > 0 {
            (all[n - 1][i] as i64) as int
        } else {
            0int
        }
    }
}

/// The round report over the first `m` rules: each rule that fired at least
/// once, with its board count and its units summed in (wrapping) `i64`.
pub open spec fn report_of(rules: Seq<Rule>, all: Seq<Seq<int>>, m: int) -> Seq<RuleTotal>
    decreases m,
{
    if m <= 0 {
        Seq::empty()
    } else {
        let rest = report_of(rules, all, m - 1);
        let i = m - 1;
        let c = fired_count(all, i, all.len() as int);
        if c > 0 {
            rest.push(RuleTotal { rule: rule_id(rules[i]), boards: c as u32, units: fired_units(all, i, all.len() as int) as i64 })
        } else {
            rest
        }
    }
}

/// The per-rule units of every explained pairing: the boards in order, then
/// the bye.
pub open spec fn pairing_units(m: &PairingModel, boards: Seq<(UnitKey, UnitKey)>, bye: Option<UnitKey>) -> Seq<Seq<int>> {
    let ctx = m.model_ctx();
    let b = boards.map_values(|p: (UnitKey, UnitKey)| edge_units_seq(m.rules@, &ctx, p.0, p.1));
    match bye {
        Some(u) => b.push(bye_units_seq(m.rules@, &ctx, u)),
        None => b,
    }
}

/// Both sides of each of the first `n` boards, in order.
pub open spec fn board_sides(boards: Seq<(UnitKey, UnitKey)>, n: int) -> Seq<UnitKey>
    decreases n,
{
    if n <= 0 {
        Seq::empty()
    } else {
        board_sides(boards, n - 1).push(boards[n - 1].0).push(boards[n - 1].1)
    }
}

/// The units the explained pairings play: both sides of every board, then the
/// bye.
pub open spec fn explained_free(boards: Seq<(UnitKey, UnitKey)>, bye: Option<UnitKey>) -> Seq<UnitKey> {
    let sides = board_sides(boards, boards.len() as int);
    match bye {
        Some(u) => sides.push(u),
        None => sides,
    }
}

/// Sides of the boards sit at positions `2i` and `2i + 1`.
pub proof fn lemma_board_sides(boards: Seq<(UnitKey, UnitKey)>, n: int)
    requires
        0 <= n <= boards.len(),
    ensures
        board_sides(boards, n).len() == 2 * n,
        forall|i: int| 0 <= i < n ==> #[trigger] board_sides(boards, n)[2 * i] == boards[i].0 && board_sides(boards, n)[2 * i + 1] == boards[i].1,
    decreases n,
{
    if n > 0 {
        lemma_board_sides(boards, n - 1);
        let prev = board_sides(boards, n - 1);
        assert forall|i: int| 0 <= i < n implies #[trigger] board_sides(boards, n)[2 * i] == boards[i].0 && board_sides(boards, n)[2 * i + 1] == boards[i].1 by {
            if i < n - 1 {
                assert(board_sides(boards, n)[2 * i] == prev[2 * i]);
                assert(board_sides(boards, n)[2 * i + 1] == prev[2 * i + 1]);
            }
        }
    }
}

/// The units the engine paired in a round: both sides of every board, then
/// the bye.
pub fn engine_free(swiss_boards: &[(UnitKey, UnitKey)], bye: Option<UnitKey>) -> (r: Vec<UnitKey>)
    ensures
        r@ == explained_free(swiss_boards@, bye),
{
    let mut free: Vec<UnitKey> = Vec::new();
    let mut i: usize = 0;
    while i < swiss_boards.len()
        invariant
            i <= swiss_boards@.len(),
            free@ == board_sides(swiss_boards@, i as int),
        decreases swiss_boards@.len() - i,
    {
        let (a, b) = swiss_boards[i];
        free.push(a);
        free.push(b);
        i += 1;
    }
    if let Some(u) = bye {
        free.push(u);
    }
    assert(free@ =~= explained_free(swiss_boards@, bye));
    free
}

/// Explain the Swiss pairings of one round: score each engine-paired board
/// (and the bye, if any) against the model the round was paired from, and
/// roll the per-rule units up into a round report. `None` when that model's
/// costs would leave `i128`.
pub fn explain_pairing(
    number: u32,
    settings: &TournamentSettings,
    units: &TiVec<UnitKey, PairingUnit>,
    swiss_boards: &[(UnitKey, UnitKey)],
    bye: Option<UnitKey>,
) -> (r: Option<RoundExplanation>)
    requires
        explained_free(swiss_boards@, bye).no_duplicates(),
        explained_free(swiss_boards@, bye).len() < u32::MAX,
        forall|i: int|
            0 <= i < explained_free(swiss_boards@, bye).len() ==> pairable(
                unit_rows(*units),
                #[trigger] explained_free(swiss_boards@, bye)[i],
                number,
            ),
    ensures
        r is None <==> !elo_spread_fits(*settings, unit_rows(*units), explained_free(swiss_boards@, bye), bye is Some)
            || exists|m: PairingModel|
            #[trigger] m.derived_from(number, *settings, units, explained_free(swiss_boards@, bye), bye is Some)
                && !ladder_fits(m.max_total@),
        r matches Some(ex) ==> exists|m: PairingModel|
            #![trigger m.wf()]
            {
                let all = pairing_units(&m, swiss_boards@, bye);
                &&& m.wf()
                &&& m.derived_from(number, *settings, units, explained_free(swiss_boards@, bye), bye is Some)
                &&& ex.round == number
                &&& ex.boards@.len() == swiss_boards@.len()
                &&& forall|i: int|
                    0 <= i < swiss_boards@.len() ==> ledger_parts(#[trigger] ex.boards@[i]) == ledger_of(
                        swiss_boards@[i].0,
                        Some(swiss_boards@[i].1),
                        m.rules@,
                        all[i],
                    )
                &&& match bye {
                    Some(u) => ex.bye matches Some(l) && ledger_parts(l) == ledger_of(u, None, m.rules@, all[swiss_boards@.len() as int]),
                    None => ex.bye is None,
                }
                &&& ex.report@ == report_of(m.rules@, all, m.rules@.len() as int)
            },
{
    let ghost target = explained_free(swiss_boards@, bye);
    let free = engine_free(swiss_boards, bye);
    let need_phantom = bye.is_some();
    let model = match PairingModel::build(number, settings, units, free.as_slice(), need_phantom) {
        Some(m) => m,
        None => {
            return None;
        },
    };
    assert(forall|m: PairingModel|
        #[trigger] m.derived_from(number, *settings, units, explained_free(swiss_boards@, bye), bye is Some)
            ==> ladder_fits(m.max_total@));
    let ghost all = pairing_units(&model, swiss_boards@, bye);
    let nrules = model.rules.len();
    let mut counts: Vec<u32> = Vec::new();
    let mut sums: Vec<i128> = Vec::new();
    let mut z: usize = 0;
    while z < nrules
        invariant
            z <= nrules,
            counts@.len() == z,
            sums@.len() == z,
            forall|t: int| 0 <= t < z ==> counts@[t] == 0 && sums@[t] == 0,
        decreases nrules - z,
    {
        counts.push(0);
        sums.push(0);
        z += 1;
    }
    proof {
        lemma_board_sides(swiss_boards@, swiss_boards@.len() as int);
    }
    let mut boards: Vec<BoardLedger> = Vec::new();
    let mut i: usize = 0;
    while i < swiss_boards.len()
        invariant
            i <= swiss_boards@.len(),
            model.wf(),
            model.free@ == target,
            target == explained_free(swiss_boards@, bye),
            target.len() < u32::MAX,
            target.no_duplicates(),
            board_sides(swiss_boards@, swiss_boards@.len() as int).len() == 2 * swiss_boards@.len(),
            forall|t: int| 0 <= t < swiss_boards@.len() ==> #[trigger] board_sides(swiss_boards@, swiss_boards@.len() as int)[2 * t] == swiss_boards@[t].0 && board_sides(swiss_boards@, swiss_boards@.len() as int)[2 * t + 1] == swiss_boards@[t].1,
            all == pairing_units(&model, swiss_boards@, bye),
            nrules == model.rules@.len(),
            counts@.len() == nrules,
            sums@.len() == nrules,
            forall|t: int| 0 <= t < nrules ==> #[trigger] counts@[t] == fired_count(all, t, i as int),
            forall|t: int| 0 <= t < nrules ==> #[trigger] sums@[t] == fired_units(all, t, i as int),
            forall|t: int| 0 <= t < nrules ==> -(i as int) * 0x8000_0000_0000_0000 <= #[trigger] sums@[t] <= (i as int) * 0x8000_0000_0000_0000,
            forall|t: int| 0 <= t < nrules ==> #[trigger] counts@[t] <= i,
            boards@.len() == i,
            forall|t: int| 0 <= t < i ==> ledger_parts(#[trigger] boards@[t]) == ledger_of(swiss_boards@[t].0, Some(swiss_boards@[t].1), model.rules@, all[t]),
        decreases swiss_boards@.len() - i,
    {
        let (a, b) = swiss_boards[i];
        proof {
            let sides = board_sides(swiss_boards@, swiss_boards@.len() as int);
            assert(sides[2 * i] == a);
            assert(sides[2 * i + 1] == b);
            assert(target[2 * i] == a);
            assert(target[2 * i + 1] == b);
            assert(model.is_free(a));
            assert(model.is_free(b));
        }
        let us = model.edge_units(a, b);
        proof {
            assert(us@.map_values(|u: i128| u as int) =~= all[i as int]);
        }
        let mut t: usize = 0;
        while t < nrules
            invariant
                t <= nrules,
                nrules == us@.len(),
                counts@.len() == nrules,
                sums@.len() == nrules,
                i < swiss_boards@.len(),
                target.len() < u32::MAX,
                swiss_boards@.len() * 2 <= target.len(),
                us@.map_values(|u: i128| u as int) == all[i as int],
                forall|q: int| 0 <= q < t ==> #[trigger] counts@[q] == fired_count(all, q, i + 1),
                forall|q: int| 0 <= q < t ==> #[trigger] sums@[q] == fired_units(all, q, i + 1),
                forall|q: int| t <= q < nrules ==> #[trigger] counts@[q] == fired_count(all, q, i as int),
                forall|q: int| t <= q < nrules ==> #[trigger] sums@[q] == fired_units(all, q, i as int),
                forall|q: int| 0 <= q < t ==> -(i + 1) * 0x8000_0000_0000_0000 <= #[trigger] sums@[q] <= (i + 1) * 0x8000_0000_0000_0000,
                forall|q: int| t <= q < nrules ==> -(i as int) * 0x8000_0000_0000_0000 <= #[trigger] sums@[q] <= (i as int) * 0x8000_0000_0000_0000,
                forall|q: int| 0 <= q < t ==> #[trigger] counts@[q] <= i + 1,
                forall|q: int| t <= q < nrules ==> #[trigger] counts@[q] <= i,
            decreases nrules - t,
        {
            let u = us[t];
            assert(all[i as int][t as int] == u);
            if u > 0 {
                let c = counts[t] + 1;
                counts.set(t, c);
                let v = sums[t] + (u as i64) as i128;
                sums.set(t, v);
            }
            t += 1;
        }
        boards.push(ledger(a, Some(b), model.rules.as_slice(), us.as_slice()));
        i += 1;
    }
    let bye_ledger = match bye {
        Some(player) => {
            let nb = swiss_boards.len();
            proof {
                assert(target[target.len() - 1] == player);
                assert(model.is_free(player));
            }
            let us = model.bye_units(player);
            proof {
                assert(us@.map_values(|u: i128| u as int) =~= all[nb as int]);
            }
            let mut t: usize = 0;
            while t < nrules
                invariant
                    t <= nrules,
                    nrules == us@.len(),
                    counts@.len() == nrules,
                    sums@.len() == nrules,
                    nb == swiss_boards@.len(),
                    target.len() < u32::MAX,
                    nb * 2 + 1 <= target.len(),
                    us@.map_values(|u: i128| u as int) == all[nb as int],
                    forall|q: int| 0 <= q < t ==> #[trigger] counts@[q] == fired_count(all, q, nb + 1),
                    forall|q: int| 0 <= q < t ==> #[trigger] sums@[q] == fired_units(all, q, nb + 1),
                    forall|q: int| t <= q < nrules ==> #[trigger] counts@[q] == fired_count(all, q, nb as int),
                    forall|q: int| t <= q < nrules ==> #[trigger] sums@[q] == fired_units(all, q, nb as int),
                    forall|q: int| 0 <= q < t ==> -(nb + 1) * 0x8000_0000_0000_0000 <= #[trigger] sums@[q] <= (nb + 1) * 0x8000_0000_0000_0000,
                    forall|q: int| t <= q < nrules ==> -(nb as int) * 0x8000_0000_0000_0000 <= #[trigger] sums@[q] <= (nb as int) * 0x8000_0000_0000_0000,
                    forall|q: int| 0 <= q < t ==> #[trigger] counts@[q] <= nb + 1,
                    forall|q: int| t <= q < nrules ==> #[trigger] counts@[q] <= nb,
                decreases nrules - t,
            {
                let u = us[t];
                assert(all[nb as int][t as int] == u);
                if u > 0 {
                    let c = counts[t] + 1;
                    counts.set(t, c);
                    let v = sums[t] + (u as i64) as i128;
                    sums.set(t, v);
                }
                t += 1;
            }
            Some(ledger(player, None, model.rules.as_slice(), us.as_slice()))
        },
        None => None,
    };
    let ghost n_all = all.len() as int;
    assert(n_all == swiss_boards@.len() + if bye is Some { 1int } else { 0int });
    let mut report: Vec<RuleTotal> = Vec::new();
    let mut t: usize = 0;
    while t < nrules
        invariant
            t <= nrules,
            nrules == model.rules@.len(),
            counts@.len() == nrules,
            sums@.len() == nrules,
            n_all == all.len(),
            forall|q: int| 0 <= q < nrules ==> #[trigger] counts@[q] == fired_count(all, q, n_all),
            forall|q: int| 0 <= q < nrules ==> #[trigger] sums@[q] == fired_units(all, q, n_all),
            report@ == report_of(model.rules@, all, t as int),
        decreases nrules - t,
    {
        if counts[t] > 0 {
            report.push(RuleTotal { rule: model.rules[t].id(), boards: counts[t], units: sums[t] as i64 });
        }
        t += 1;
    }
    let ex = RoundExplanation { round: number, boards, bye: bye_ledger, report };
    proof {
        assert(model.derived_from(number, *settings, units, explained_free(swiss_boards@, bye), bye is Some));
    }
    Some(ex)
}

} // verus!
