use std::collections::HashSet;

use osp_core::pairing::counterfactual::{probe, try_probe, unord_pair, Counterfactual, CounterfactualMode, ProbeSetupError};
use osp_core::pairing::explain::{explain_pairing, BoardLedger, RoundExplanation};
use osp_core::pairing::matching::prepare_round;
use osp_core::pairing::model::{player_units, PairingModel};
use osp_core::pairing::rules::{Rule, RuleId};
use osp_core::player::Player;
use osp_core::settings::{MacMahonThreshold, PairingMode, TournamentSettings};
use osp_core::units::{TournamentId, UnitKey};

const PHANTOM: TournamentId = TournamentId(0);

fn edge(cost: &[Vec<i128>], i: usize, j: usize) -> i128 {
    if i < j {
        cost[i][j]
    } else {
        cost[j][i]
    }
}

fn search(cost: &[Vec<i128>], mate: &mut Vec<usize>, acc: i128, best: &mut Option<(i128, Vec<usize>)>) {
    let free = mate.iter().position(|&m| m == usize::MAX);
    let i = match free {
        None => {
            if best.as_ref().map_or(true, |(c, _)| acc < *c) {
                *best = Some((acc, mate.clone()));
            }
            return;
        }
        Some(i) => i,
    };
    for j in (i + 1)..mate.len() {
        if mate[j] == usize::MAX {
            mate[i] = j;
            mate[j] = i;
            search(cost, mate, acc + edge(cost, i, j), best);
            mate[i] = usize::MAX;
            mate[j] = usize::MAX;
        }
    }
}

/// Exhaustive minimum-weight perfect matching (small instances only).
fn min_matching(cost: &[Vec<i128>], n: usize) -> Vec<usize> {
    let mut mate = vec![usize::MAX; n];
    let mut best = None;
    search(cost, &mut mate, 0, &mut best);
    best.expect("a perfect matching exists").1
}

fn player(tid: u32, rating: Option<u32>) -> Player {
    Player {
        id: uuid::Uuid::new_v4(),
        tournament_id: Some(TournamentId(tid)),
        last_name: format!("P{tid}"),
        first_name: String::new(),
        rating,
        pairing_rating: None,
        grade: None,
        fesa_games: None,
        nationality: None,
        club: None,
        eligible: false,
        categories: Vec::new(),
        adjustments: Vec::new(),
    }
}

fn four() -> Vec<Player> {
    (1..=4).map(|i| player(i, Some(2000 - i * 10))).collect()
}

fn key(t: TournamentId) -> UnitKey {
    UnitKey(t.0)
}

fn keys(boards: &[(TournamentId, TournamentId)]) -> Vec<(UnitKey, UnitKey)> {
    boards.iter().map(|&(a, b)| (key(a), key(b))).collect()
}

fn unord(a: TournamentId, b: TournamentId) -> (TournamentId, TournamentId) {
    if a < b {
        (a, b)
    } else {
        (b, a)
    }
}

/// Pair round 1 of `players` (all present): the boards and the bye.
fn pair_round_one(players: &[Player], settings: &TournamentSettings) -> (Vec<(TournamentId, TournamentId)>, Option<TournamentId>) {
    let units = player_units(players, settings, &[], &[], None, None);
    let present: Vec<UnitKey> = players.iter().map(|p| key(p.tournament_id.unwrap())).collect();
    let instance = prepare_round(1, settings, &units, &present, &[], &[]).expect("the ladder fits");
    let mate = min_matching(&instance.cost, instance.vcount);
    let paired = instance.finish(&mate).expect("a perfect matching");
    (
        paired.pairs.iter().map(|p| (TournamentId(p.a.0), TournamentId(p.b.0))).collect(),
        paired.swiss_bye.map(|k| TournamentId(k.0)),
    )
}

fn explain_players(
    players: &[Player],
    settings: &TournamentSettings,
    boards: &[(TournamentId, TournamentId)],
    bye: Option<TournamentId>,
) -> RoundExplanation {
    let units = player_units(players, settings, &[], &[], None, None);
    explain_pairing(1, settings, &units, &keys(boards), bye.map(key)).expect("the ladder fits")
}

fn probe_players(
    mode: CounterfactualMode,
    players: &[Player],
    boards: &[(TournamentId, TournamentId)],
    bye: Option<TournamentId>,
    a: TournamentId,
    b: TournamentId,
) -> Counterfactual {
    let settings = TournamentSettings::default();
    let units = player_units(players, &settings, &[], &[], None, None);
    let p = probe(mode, 1, &settings, &units, &keys(boards), bye.map(key), key(a), key(b)).expect("the ladder fits");
    let n = p.instance.verts.len();
    let mate = if n >= 2 { min_matching(&p.instance.cost, n) } else { Vec::new() };
    p.conclude(&mate).expect("a perfect matching")
}

fn contribution(ledger: &BoardLedger, rule: RuleId) -> Option<i64> {
    ledger.contributions.iter().find(|c| c.rule == rule).map(|c| c.units)
}

fn changed_pairs(cf: &Counterfactual) -> HashSet<(TournamentId, TournamentId)> {
    cf.changed
        .iter()
        .map(|b| unord(TournamentId(b.player1.0), b.player2.map_or(PHANTOM, |k| TournamentId(k.0))))
        .collect()
}

#[test]
fn explain_flags_fold_deviation_as_binding() {
    let p = four();
    let boards = [(TournamentId(1), TournamentId(2)), (TournamentId(3), TournamentId(4))];
    let ex = explain_players(&p, &TournamentSettings::default(), &boards, None);
    assert_eq!(ex.boards.len(), 2);
    for board in &ex.boards {
        assert_eq!(board.binding, Some(RuleId::Fold));
        assert_eq!(contribution(board, RuleId::Fold), Some(10));
        assert_eq!(board.contributions.len(), 1);
    }
    assert_eq!(ex.report.len(), 1);
    assert_eq!(ex.report[0].rule, RuleId::Fold);
    assert_eq!(ex.report[0].boards, 2);
    assert_eq!(ex.report[0].units, 20);
}

#[test]
fn explain_clean_pairing_has_no_contributions() {
    let p = four();
    let boards = [(TournamentId(1), TournamentId(3)), (TournamentId(2), TournamentId(4))];
    let ex = explain_players(&p, &TournamentSettings::default(), &boards, None);
    for board in &ex.boards {
        assert!(board.contributions.is_empty());
        assert_eq!(board.binding, None);
    }
    assert!(ex.report.is_empty());
}

#[test]
fn explain_ledger_matches_the_engine_units() {
    let p = vec![
        player(1, Some(2000)),
        player(2, Some(1900)),
        player(3, Some(1000)),
        player(4, Some(900)),
    ];
    let mut settings = TournamentSettings::default();
    if let PairingMode::Swiss { macmahon, .. } = &mut settings.pairing {
        macmahon.thresholds = vec![MacMahonThreshold::elo(1500)];
    }
    let (boards, bye) = pair_round_one(&p, &settings);
    let ex = explain_players(&p, &settings, &boards, bye);

    let mut free: Vec<UnitKey> = boards.iter().flat_map(|&(a, b)| [key(a), key(b)]).collect();
    if let Some(b) = bye {
        free.push(key(b));
    }
    let units = player_units(&p, &settings, &[], &[], None, None);
    let model = PairingModel::build(1, &settings, &units, &free, bye.is_some()).expect("the ladder fits");
    for (ledger, &(a, b)) in ex.boards.iter().zip(&boards) {
        let units = model.edge_units(key(a), key(b));
        let expected: i64 = model
            .rules()
            .iter()
            .zip(&units)
            .filter(|(r, _)| r.id() == RuleId::Fold)
            .map(|(_, &u)| u as i64)
            .sum();
        assert_eq!(contribution(ledger, RuleId::Fold).unwrap_or(0), expected);
    }
}

#[test]
fn bye_only_rules_are_dropped_from_the_ladder_on_an_even_field() {
    let settings = TournamentSettings::default();
    let has_bye_rule = |need_phantom: bool, n: u32| {
        let p: Vec<Player> = (1..=n).map(|i| player(i, Some(1500))).collect();
        let free: Vec<UnitKey> = (1..=n).map(UnitKey).collect();
        let units = player_units(&p, &settings, &[], &[], None, None);
        let model = PairingModel::build(1, &settings, &units, &free, need_phantom).expect("the ladder fits");
        model.rules.iter().any(|r| matches!(r, Rule::ByeGroup | Rule::ByeSelection))
    };
    assert!(!has_bye_rule(false, 4), "an even field must not reserve a bye-rule tier");
    assert!(has_bye_rule(true, 3), "an odd field keeps the bye rules");
}

#[test]
fn forcing_a_pairing_swaps_a_minimal_ring() {
    let p = four();
    let boards = [(TournamentId(1), TournamentId(3)), (TournamentId(2), TournamentId(4))];
    let cf = probe_players(CounterfactualMode::Force, &p, &boards, None, TournamentId(1), TournamentId(2));
    assert!(cf.scoped_out.is_none());
    let changed = changed_pairs(&cf);
    assert!(changed.contains(&unord(TournamentId(1), TournamentId(2))), "the forced board appears");
    assert!(changed.contains(&unord(TournamentId(3), TournamentId(4))), "its forced completion appears");
    assert_eq!(changed.len(), 2);
    assert_eq!(cf.cycles.len(), 1);
    assert_eq!(cf.cycles[0].players.len(), 4);
}

#[test]
fn forcing_the_status_quo_changes_nothing() {
    let p = four();
    let boards = [(TournamentId(1), TournamentId(3)), (TournamentId(2), TournamentId(4))];
    let cf = probe_players(CounterfactualMode::Force, &p, &boards, None, TournamentId(1), TournamentId(3));
    assert!(cf.changed.is_empty());
    assert!(cf.cycles.is_empty());
    assert!(cf.cost_delta.is_empty());
}

#[test]
fn forcing_a_worse_pairing_reports_the_cost() {
    let p = four();
    let boards = [(TournamentId(1), TournamentId(3)), (TournamentId(2), TournamentId(4))];
    let cf = probe_players(CounterfactualMode::Force, &p, &boards, None, TournamentId(1), TournamentId(2));
    let fold = cf.cost_delta.iter().find(|d| d.rule == RuleId::Fold);
    assert!(matches!(fold, Some(d) if d.units > 0), "forcing the worse fold costs units");
}

#[test]
fn a_rule_delta_is_its_boards_added_and_dropped() {
    let p = four();
    let boards = [(TournamentId(1), TournamentId(3)), (TournamentId(2), TournamentId(4))];
    let cf = probe_players(CounterfactualMode::Force, &p, &boards, None, TournamentId(1), TournamentId(2));
    assert!(!cf.cost_delta.is_empty(), "the forced fold has a cost");
    let added: HashSet<(UnitKey, UnitKey)> = cf
        .changed
        .iter()
        .map(|b| unord_pair(b.player1, b.player2.unwrap_or(UnitKey(0))))
        .collect();
    for delta in &cf.cost_delta {
        assert!(!delta.boards.is_empty(), "{:?} moved, so some board moved it", delta.rule);
        assert_eq!(delta.units, delta.boards.iter().map(|b| b.units).sum::<i64>());
        for board in &delta.boards {
            assert_ne!(board.units, 0, "a board that scores nothing is not listed");
            let pair = unord_pair(board.player1, board.player2.unwrap_or(UnitKey(0)));
            assert_eq!(board.units > 0, added.contains(&pair));
        }
    }
}

#[test]
fn forcing_across_a_bye_reassigns_the_sit_out() {
    let p: Vec<Player> = (1..=3).map(|i| player(i, Some(1500))).collect();
    let (boards, bye) = pair_round_one(&p, &TournamentSettings::default());
    let bye = bye.expect("odd count byes someone");
    let opponent = boards[0].0;
    let cf = probe_players(CounterfactualMode::Force, &p, &boards, Some(bye), bye, opponent);
    assert!(cf.scoped_out.is_none());
    assert!(cf.changed.iter().any(|b| b.player2.is_none()), "someone new takes the bye");
}

#[test]
fn forbidding_an_engine_board_repairs_without_it() {
    let p = four();
    let boards = [(TournamentId(1), TournamentId(3)), (TournamentId(2), TournamentId(4))];
    let cf = probe_players(CounterfactualMode::Forbid, &p, &boards, None, TournamentId(1), TournamentId(3));
    let changed = changed_pairs(&cf);
    assert!(!changed.contains(&unord(TournamentId(1), TournamentId(3))), "the forbidden board is gone");
    assert!(!cf.changed.is_empty());
    let fold = cf.cost_delta.iter().find(|d| d.rule == RuleId::Fold);
    assert!(matches!(fold, Some(d) if d.units > 0), "avoiding the ideal costs fold units");
}

#[test]
fn forbidding_an_unused_pairing_changes_nothing() {
    let p = four();
    let boards = [(TournamentId(1), TournamentId(3)), (TournamentId(2), TournamentId(4))];
    let cf = probe_players(CounterfactualMode::Forbid, &p, &boards, None, TournamentId(1), TournamentId(2));
    assert!(cf.changed.is_empty());
    assert!(cf.cost_delta.is_empty());
}

#[test]
fn forcing_a_player_onto_the_bye_reassigns_the_sit_out() {
    let p: Vec<Player> = (1..=3).map(|i| player(i, Some(1500))).collect();
    let (boards, bye) = pair_round_one(&p, &TournamentSettings::default());
    let bye = bye.expect("odd count byes someone");
    let (playing_a, playing_b) = boards[0];
    assert_ne!(playing_a, bye);
    let cf = probe_players(CounterfactualMode::Force, &p, &boards, Some(bye), playing_a, PHANTOM);
    assert!(cf.scoped_out.is_none());
    assert!(
        cf.changed
            .iter()
            .any(|b| TournamentId(b.player1.0) == playing_a && b.player2.is_none()),
        "the forced player now takes the bye"
    );
    assert!(changed_pairs(&cf).contains(&unord(bye, playing_b)), "the old bye-taker plays the freed-up opponent");
}

#[test]
fn forbidding_the_bye_forces_the_sit_out_to_play() {
    let p: Vec<Player> = (1..=3).map(|i| player(i, Some(1500))).collect();
    let (boards, bye) = pair_round_one(&p, &TournamentSettings::default());
    let bye = bye.expect("odd count byes someone");
    let cf = probe_players(CounterfactualMode::Forbid, &p, &boards, Some(bye), bye, PHANTOM);
    assert!(cf.scoped_out.is_none());
    assert!(
        !cf.changed
            .iter()
            .any(|b| TournamentId(b.player1.0) == bye && b.player2.is_none()),
        "the old bye-taker no longer sits out"
    );
    assert!(cf.changed.iter().any(|b| b.player2.is_none()), "someone else takes the bye instead");
}

#[test]
fn a_probe_refuses_inputs_it_cannot_score() {
    let p = four();
    let settings = TournamentSettings::default();
    let units = player_units(&p, &settings, &[], &[], None, None);
    let boards = keys(&[(TournamentId(1), TournamentId(2)), (TournamentId(3), TournamentId(4))]);
    let force = CounterfactualMode::Force;
    // the same side twice
    assert_eq!(try_probe(force, 1, &settings, &units, &boards, None, key(TournamentId(1)), key(TournamentId(1))).err(), Some(ProbeSetupError::NotReady));
    // a side that was not engine-paired
    assert_eq!(try_probe(force, 1, &settings, &units, &boards, None, key(TournamentId(1)), key(TournamentId(9))).err(), Some(ProbeSetupError::NotReady));
    // a unit on two boards
    let twice = keys(&[(TournamentId(1), TournamentId(2)), (TournamentId(2), TournamentId(4))]);
    assert_eq!(try_probe(force, 1, &settings, &units, &twice, None, key(TournamentId(1)), key(TournamentId(4))).err(), Some(ProbeSetupError::NotReady));
    // and a good probe goes through
    assert!(try_probe(force, 1, &settings, &units, &boards, None, key(TournamentId(1)), key(TournamentId(3))).is_ok());
}
