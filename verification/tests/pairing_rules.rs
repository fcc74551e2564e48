use std::collections::HashSet;

use osp_core::pairing::matching::{is_pairable, prepare_round, try_prepare_round, RoundSetupError};
use osp_core::pairing::model::{player_units, PairingUnit};
use osp_core::pairing::rules::{active_rules, fold_ranks, Ctx, Rule};
use osp_core::player::Grade;
use typed_index_collections::TiVec;
use osp_core::player::{Player, PointAdjustment};
use osp_core::round::{Board, Outcome, PairingSource, Round, Sitout, SitoutKind, SitoutValue, Winner};
use osp_core::settings::{
    ClubProtection, EloEstimator, FloaterStyle, MacMahonThreshold, NationalityProtection, PairingMode,
    RatioAtLeastOne, RoundLimit, TournamentSettings,
};
use osp_core::units::{TournamentId, UnitKey};

/// What a paired round comes to: its boards (with the frozen points diff) and
/// the bye.
struct Paired {
    boards: Vec<(TournamentId, TournamentId, i32)>,
    bye: Option<TournamentId>,
}

fn edge(cost: &[Vec<i128>], i: usize, j: usize) -> i128 {
    if i < j {
        cost[i][j]
    } else {
        cost[j][i]
    }
}

/// Exhaustive minimum-weight perfect matching (small instances only); among
/// equal costs the first one enumerated wins.
fn search(cost: &[Vec<i128>], mate: &mut Vec<usize>, acc: i128, best: &mut Option<(i128, Vec<usize>)>) {
    let free = mate.iter().position(|&m| m == usize::MAX);
    let i = match free {
        None => {
            if best.as_ref().map_or(true, |(c, _)| acc < *c) {
                *best = Some((acc, mate.clone()));
            }
            return;
        }
        Some(i) => i,
    };
    for j in (i + 1)..mate.len() {
        if mate[j] == usize::MAX {
            mate[i] = j;
            mate[j] = i;
            search(cost, mate, acc + edge(cost, i, j), best);
            mate[i] = usize::MAX;
            mate[j] = usize::MAX;
        }
    }
}

fn min_matching(cost: &[Vec<i128>], n: usize) -> Vec<usize> {
    let mut mate = vec![usize::MAX; n];
    let mut best = None;
    search(cost, &mut mate, 0, &mut best);
    best.expect("a perfect matching exists").1
}

/// Build the units, prepare the round, solve it and read the answer back.
/// In ELO mode the estimate is each player's registration rating — the
/// estimate of a player with no games yet.
fn pair_players_forced(
    number: u32,
    players: &[Player],
    settings: &TournamentSettings,
    completed: &[Round],
    present: &[TournamentId],
    forced: &[(TournamentId, TournamentId)],
) -> Paired {
    let elo: Option<Vec<i64>> = match settings.pairing {
        PairingMode::Elo { .. } => Some(players.iter().map(|p| p.rating.unwrap_or(0) as i64).collect()),
        PairingMode::Swiss { .. } => None,
    };
    let units = player_units(players, settings, completed, &[], None, elo.as_deref());
    let present: Vec<UnitKey> = present.iter().map(|t| UnitKey(t.0)).collect();
    let forced: Vec<(UnitKey, UnitKey)> = forced.iter().map(|(a, b)| (UnitKey(a.0), UnitKey(b.0))).collect();
    let instance = prepare_round(number, settings, &units, &present, &forced, &[]).expect("the ladder fits");
    let mate = min_matching(&instance.cost, instance.vcount);
    let paired = instance.finish(&mate).expect("a perfect matching");
    Paired {
        boards: paired
            .pairs
            .iter()
            .map(|p| (TournamentId(p.a.0), TournamentId(p.b.0), p.points_diff))
            .collect(),
        bye: paired.swiss_bye.map(|k| TournamentId(k.0)),
    }
}

fn pair_players(
    number: u32,
    players: &[Player],
    settings: &TournamentSettings,
    completed: &[Round],
    present: &[TournamentId],
) -> Paired {
    pair_players_forced(number, players, settings, completed, present, &[])
}

fn player(tid: u32, rating: Option<u32>, club: Option<&str>) -> Player {
    player_nat(tid, rating, club, None)
}

fn player_nat(tid: u32, rating: Option<u32>, club: Option<&str>, nationality: Option<&str>) -> Player {
    Player {
        id: uuid::Uuid::new_v4(),
        tournament_id: Some(TournamentId(tid)),
        last_name: format!("P{tid}"),
        first_name: String::new(),
        rating,
        pairing_rating: None,
        grade: None,
        fesa_games: None,
        nationality: nationality.map(|n| n.to_string()),
        club: club.map(|c| c.to_string()),
        eligible: false,
        categories: Vec::new(),
        adjustments: Vec::new(),
    }
}

fn completed_round(number: u32, boards: &[(TournamentId, TournamentId, Winner)], bye: Option<TournamentId>) -> Round {
    Round {
        number,
        boards: boards
            .iter()
            .map(|&(a, b, w)| Board {
                outcome: Outcome::won(w),
                ..Board::pending(a, b, 0, PairingSource::Swiss)
            })
            .collect(),
        sitouts: bye
            .map(|player| Sitout {
                player,
                kind: SitoutKind::Bye,
                value: SitoutValue::Full,
            })
            .into_iter()
            .collect(),
        completed: true,
    }
}

fn unord(a: TournamentId, b: TournamentId) -> (TournamentId, TournamentId) {
    if a < b {
        (a, b)
    } else {
        (b, a)
    }
}

fn board_pairs(round: &Paired) -> HashSet<(TournamentId, TournamentId)> {
    round.boards.iter().map(|&(a, b, _)| unord(a, b)).collect()
}

fn ids(p: &[Player]) -> Vec<TournamentId> {
    p.iter().map(|x| x.tournament_id.unwrap()).collect()
}

fn with_thresholds(mut s: TournamentSettings, thresholds: Vec<MacMahonThreshold>) -> TournamentSettings {
    if let PairingMode::Swiss { macmahon, .. } = &mut s.pairing {
        macmahon.thresholds = thresholds;
    }
    s
}

fn with_club(mut s: TournamentSettings, protection: ClubProtection) -> TournamentSettings {
    if let PairingMode::Swiss { club_protection, .. } = &mut s.pairing {
        *club_protection = protection;
    }
    s
}

fn with_nationality(mut s: TournamentSettings, protection: NationalityProtection) -> TournamentSettings {
    if let PairingMode::Swiss { nationality_protection, .. } = &mut s.pairing {
        *nationality_protection = protection;
    }
    s
}

fn with_airtight(mut s: TournamentSettings, rounds: Option<RoundLimit>) -> TournamentSettings {
    if let PairingMode::Swiss { airtight_groups, .. } = &mut s.pairing {
        *airtight_groups = rounds;
    }
    s
}

fn with_floater(mut s: TournamentSettings, style: FloaterStyle) -> TournamentSettings {
    if let PairingMode::Swiss { floater_style, .. } = &mut s.pairing {
        *floater_style = style;
    }
    s
}

fn elo_settings() -> TournamentSettings {
    let mut estimator = EloEstimator::default();
    estimator.provisional_multiplier = RatioAtLeastOne::from_percent(100);
    TournamentSettings {
        pairing: PairingMode::Elo { estimator },
        ..Default::default()
    }
}

#[test]
fn elo_mode_pairs_adjacent_ratings_round_one() {
    let p = vec![
        player(1, Some(2000), None),
        player(2, Some(1950), None),
        player(3, Some(1500), None),
        player(4, Some(1450), None),
    ];
    let round = pair_players(1, &p, &elo_settings(), &[], &ids(&p));
    let pairs = board_pairs(&round);
    assert!(pairs.contains(&unord(TournamentId(1), TournamentId(2))), "closest pair 2000-1950");
    assert!(pairs.contains(&unord(TournamentId(3), TournamentId(4))), "closest pair 1500-1450");
}

#[test]
fn elo_mode_gives_the_bye_to_the_weakest() {
    let p: Vec<Player> = (1..=5).map(|i| player(i, Some(2000 - (i - 1) * 300), None)).collect();
    let round = pair_players(1, &p, &elo_settings(), &[], &ids(&p));
    assert_eq!(round.bye, Some(TournamentId(5)), "the weakest player takes the bye");
    assert_eq!(round.boards.len(), 2);
}

#[test]
fn pairing_is_independent_of_input_order() {
    let p: Vec<Player> = vec![
        player(1, Some(2000), None),
        player(2, Some(2000), None),
        player(3, Some(2000), None),
        player(4, Some(1000), None),
        player(5, Some(1000), None),
        player(6, Some(1000), None),
    ];
    let settings = elo_settings();
    let forward = pair_players(1, &p, &settings, &[], &ids(&p));
    let mut p_rev = p.clone();
    p_rev.reverse();
    let present_rev: Vec<TournamentId> = ids(&p).into_iter().rev().collect();
    let reversed = pair_players(1, &p_rev, &settings, &[], &present_rev);
    assert_eq!(board_pairs(&forward), board_pairs(&reversed));
    assert_eq!(forward.bye, reversed.bye);
}

#[test]
fn weighted_pairs_by_score_and_avoids_rematch() {
    let p: Vec<Player> = (1..=4).map(|i| player(i, Some(2000 - i * 10), None)).collect();
    let r1 = completed_round(
        1,
        &[
            (TournamentId(1), TournamentId(2), Winner::Player1),
            (TournamentId(3), TournamentId(4), Winner::Player1),
        ],
        None,
    );
    let round = pair_players(2, &p, &TournamentSettings::default(), &[r1], &ids(&p));
    assert_eq!(round.bye, None);
    assert_eq!(round.boards.len(), 2);
    let pairs = board_pairs(&round);
    assert!(pairs.contains(&unord(TournamentId(1), TournamentId(3))));
    assert!(pairs.contains(&unord(TournamentId(2), TournamentId(4))));
}

#[test]
fn weighted_avoids_repeat_bye() {
    let p: Vec<Player> = (1..=3).map(|i| player(i, Some(1500), None)).collect();
    let r1 = completed_round(1, &[(TournamentId(1), TournamentId(2), Winner::Player1)], Some(TournamentId(3)));
    let round = pair_players(2, &p, &TournamentSettings::default(), &[r1], &ids(&p));
    assert_eq!(round.bye, Some(TournamentId(2)));
    assert_eq!(board_pairs(&round), HashSet::from([unord(TournamentId(1), TournamentId(3))]));
}

#[test]
fn weighted_gives_the_bye_to_the_lowest_group() {
    let p: Vec<Player> = (1..=5).map(|i| player(i, Some(1500), None)).collect();
    let r1 = completed_round(
        1,
        &[
            (TournamentId(1), TournamentId(2), Winner::Player1),
            (TournamentId(3), TournamentId(4), Winner::Player1),
        ],
        Some(TournamentId(5)),
    );
    let round = pair_players(2, &p, &TournamentSettings::default(), &[r1], &ids(&p));
    let bye = round.bye.expect("odd field needs a bye");
    assert!(bye == TournamentId(2) || bye == TournamentId(4), "bye went to a leader");
}

#[test]
fn pairing_freezes_the_points_diff_on_each_board() {
    let p: Vec<Player> = (1..=4).map(|i| player(i, Some(2000 - i * 10), None)).collect();
    let r1 = completed_round(
        1,
        &[
            (TournamentId(1), TournamentId(2), Winner::Player1),
            (TournamentId(3), TournamentId(4), Winner::Player1),
        ],
        None,
    );
    let round = pair_players_forced(
        2,
        &p,
        &TournamentSettings::default(),
        &[r1],
        &ids(&p),
        &[(TournamentId(1), TournamentId(4))],
    );
    let ad = round
        .boards
        .iter()
        .find(|b| b.0 == TournamentId(1) && b.1 == TournamentId(4))
        .expect("forced board present");
    assert_eq!(ad.2, 2);
}

#[test]
fn a_half_point_reaches_pairing_at_half_point_granularity() {
    let players = vec![
        player(1, Some(2000), None),
        player(2, Some(1500), None),
        player(3, Some(1000), None),
    ];
    let r1 = Round {
        number: 1,
        boards: vec![Board {
            outcome: Outcome::won(Winner::Player1),
            ..Board::pending(TournamentId(1), TournamentId(2), 0, PairingSource::Swiss)
        }],
        sitouts: vec![Sitout {
            player: TournamentId(3),
            kind: SitoutKind::Absent,
            value: SitoutValue::Half,
        }],
        completed: true,
    };
    let round = pair_players(2, &players, &TournamentSettings::default(), &[r1], &ids(&players));
    assert_eq!(round.bye, Some(TournamentId(2)));
    let ac = round
        .boards
        .iter()
        .find(|b| unord(b.0, b.1) == (TournamentId(1), TournamentId(3)))
        .expect("A vs C paired");
    assert_eq!(ac.2.abs(), 1);
}

#[test]
fn macmahon_points_group_the_pairings() {
    let p = vec![
        player(1, Some(2000), None),
        player(2, Some(1900), None),
        player(3, Some(1000), None),
        player(4, Some(900), None),
    ];
    let settings = with_thresholds(TournamentSettings::default(), vec![MacMahonThreshold::elo(1500)]);
    let round = pair_players(1, &p, &settings, &[], &ids(&p));
    let pairs = board_pairs(&round);
    assert!(pairs.contains(&unord(TournamentId(1), TournamentId(2))), "top MacMahon group paired within itself");
    assert!(pairs.contains(&unord(TournamentId(3), TournamentId(4))), "bottom MacMahon group paired within itself");
}

fn two_clubs_where_fold_pairs_mates() -> Vec<Player> {
    vec![
        player(1, Some(2000), Some("X")),
        player(2, Some(1900), Some("Y")),
        player(3, Some(1800), Some("X")),
        player(4, Some(1700), Some("Y")),
    ]
}

#[test]
fn weighted_avoids_pairing_club_mates_when_protection_on() {
    let p = two_clubs_where_fold_pairs_mates();
    let settings = with_club(
        TournamentSettings::default(),
        ClubProtection::On {
            rounds: None,
            exempt_clubs: Vec::new(),
        },
    );
    let round = pair_players(1, &p, &settings, &[], &ids(&p));
    assert_eq!(round.boards.len(), 2);
    let club_of = |id: TournamentId| p.iter().find(|q| q.tournament_id.unwrap() == id).unwrap().club.clone();
    for b in &round.boards {
        assert_ne!(club_of(b.0), club_of(b.1), "club-mates were paired despite protection");
    }
}

#[test]
fn club_protection_off_by_default_pairs_the_fold() {
    let p = two_clubs_where_fold_pairs_mates();
    let round = pair_players(1, &p, &TournamentSettings::default(), &[], &ids(&p));
    let pairs = board_pairs(&round);
    assert!(pairs.contains(&unord(TournamentId(1), TournamentId(3))), "fold pairs the X club-mates");
    assert!(pairs.contains(&unord(TournamentId(2), TournamentId(4))), "fold pairs the Y club-mates");
}

#[test]
fn exempt_club_members_may_be_paired() {
    let p = vec![
        player(1, Some(2000), Some("Home")),
        player(2, Some(1900), None),
        player(3, Some(1800), Some("Home")),
        player(4, Some(1700), None),
    ];
    let exempt = with_club(
        TournamentSettings::default(),
        ClubProtection::On {
            rounds: None,
            exempt_clubs: vec!["  HOME ".into()],
        },
    );
    let round = pair_players(1, &p, &exempt, &[], &ids(&p));
    assert!(
        board_pairs(&round).contains(&unord(TournamentId(1), TournamentId(3))),
        "exempt club-mates should be paired by the fold"
    );
    let protected = with_club(
        TournamentSettings::default(),
        ClubProtection::On {
            rounds: None,
            exempt_clubs: Vec::new(),
        },
    );
    let round = pair_players(1, &p, &protected, &[], &ids(&p));
    assert!(
        !board_pairs(&round).contains(&unord(TournamentId(1), TournamentId(3))),
        "non-exempt club-mates should not be paired"
    );
}

#[test]
fn club_protection_only_applies_within_its_round_window() {
    let p = two_clubs_where_fold_pairs_mates();
    let settings = with_club(
        TournamentSettings::default(),
        ClubProtection::On {
            rounds: RoundLimit::new(1),
            exempt_clubs: Vec::new(),
        },
    );
    let round = pair_players(2, &p, &settings, &[], &ids(&p));
    let pairs = board_pairs(&round);
    assert!(pairs.contains(&unord(TournamentId(1), TournamentId(3))), "past the window, fold pairs X-X");
    assert!(pairs.contains(&unord(TournamentId(2), TournamentId(4))), "past the window, fold pairs Y-Y");
}

fn two_nationalities_where_fold_pairs_compatriots() -> Vec<Player> {
    vec![
        player_nat(1, Some(2000), None, Some("JP")),
        player_nat(2, Some(1900), None, Some("FR")),
        player_nat(3, Some(1800), None, Some("JP")),
        player_nat(4, Some(1700), None, Some("FR")),
    ]
}

#[test]
fn weighted_avoids_pairing_compatriots_when_protection_on() {
    let p = two_nationalities_where_fold_pairs_compatriots();
    let settings = with_nationality(
        TournamentSettings::default(),
        NationalityProtection::On {
            rounds: None,
            exempt_nationalities: Vec::new(),
        },
    );
    let round = pair_players(1, &p, &settings, &[], &ids(&p));
    assert_eq!(round.boards.len(), 2);
    let nat_of = |id: TournamentId| p.iter().find(|q| q.tournament_id.unwrap() == id).unwrap().nationality.clone();
    for b in &round.boards {
        assert_ne!(nat_of(b.0), nat_of(b.1), "compatriots were paired despite protection");
    }
}

#[test]
fn nationality_protection_off_by_default_pairs_the_fold() {
    let p = two_nationalities_where_fold_pairs_compatriots();
    let round = pair_players(1, &p, &TournamentSettings::default(), &[], &ids(&p));
    let pairs = board_pairs(&round);
    assert!(pairs.contains(&unord(TournamentId(1), TournamentId(3))), "fold pairs the JP compatriots");
    assert!(pairs.contains(&unord(TournamentId(2), TournamentId(4))), "fold pairs the FR compatriots");
}

#[test]
fn exempt_nationality_members_may_be_paired() {
    let p = vec![
        player_nat(1, Some(2000), None, Some("JP")),
        player_nat(2, Some(1900), None, None),
        player_nat(3, Some(1800), None, Some("JP")),
        player_nat(4, Some(1700), None, None),
    ];
    let exempt = with_nationality(
        TournamentSettings::default(),
        NationalityProtection::On {
            rounds: None,
            exempt_nationalities: vec![" jp ".into()],
        },
    );
    let round = pair_players(1, &p, &exempt, &[], &ids(&p));
    assert!(board_pairs(&round).contains(&unord(TournamentId(1), TournamentId(3))));
    let protected = with_nationality(
        TournamentSettings::default(),
        NationalityProtection::On {
            rounds: None,
            exempt_nationalities: Vec::new(),
        },
    );
    let round = pair_players(1, &p, &protected, &[], &ids(&p));
    assert!(!board_pairs(&round).contains(&unord(TournamentId(1), TournamentId(3))));
}

#[test]
fn nationality_protection_only_applies_within_its_round_window() {
    let p = two_nationalities_where_fold_pairs_compatriots();
    let settings = with_nationality(
        TournamentSettings::default(),
        NationalityProtection::On {
            rounds: RoundLimit::new(1),
            exempt_nationalities: Vec::new(),
        },
    );
    let round = pair_players(2, &p, &settings, &[], &ids(&p));
    let pairs = board_pairs(&round);
    assert!(pairs.contains(&unord(TournamentId(1), TournamentId(3))));
    assert!(pairs.contains(&unord(TournamentId(2), TournamentId(4))));
}

#[test]
fn club_protection_outranks_nationality_protection() {
    let mut p = vec![
        player_nat(1, Some(2000), Some("B"), Some("JP")),
        player_nat(2, Some(1900), Some("A"), Some("JP")),
        player_nat(3, Some(1800), Some("A"), Some("FR")),
        player_nat(4, Some(1700), Some("C"), Some("DE")),
    ];
    let id = |i: u32| TournamentId(i + 1);
    let present: Vec<TournamentId> = (0..4).map(id).collect();
    let r1 = [completed_round(
        1,
        &[(id(0), id(2), Winner::Player1), (id(1), id(3), Winner::Player1)],
        None,
    )];
    for i in [2, 3] {
        p[i].adjustments.push(PointAdjustment {
            id: uuid::Uuid::new_v4(),
            delta: 1,
            reason: "level the score group".into(),
        });
    }
    let nationality_only = with_nationality(
        TournamentSettings::default(),
        NationalityProtection::On {
            rounds: None,
            exempt_nationalities: Vec::new(),
        },
    );
    let round = pair_players(2, &p, &nationality_only, &r1, &present);
    let pairs = board_pairs(&round);
    assert!(
        pairs.contains(&unord(id(0), id(3))) && pairs.contains(&unord(id(1), id(2))),
        "without club protection the nationality-clean, better-fold matching should win; got {pairs:?}"
    );
    let both = with_club(
        nationality_only,
        ClubProtection::On {
            rounds: None,
            exempt_clubs: Vec::new(),
        },
    );
    let round = pair_players(2, &p, &both, &r1, &present);
    let pairs = board_pairs(&round);
    assert!(
        pairs.contains(&unord(id(0), id(1))) && pairs.contains(&unord(id(2), id(3))),
        "the engine should accept the nationality clash to avoid the club clash; got {pairs:?}"
    );
}

fn eight_in_two_groups() -> (Vec<Player>, Round) {
    let ratings = [2000, 1950, 1900, 1850, 1000, 950, 900, 850];
    let p: Vec<Player> = ratings
        .iter()
        .enumerate()
        .map(|(i, &r)| player(i as u32 + 1, Some(r), None))
        .collect();
    let r1 = completed_round(
        1,
        &[
            (TournamentId(1), TournamentId(2), Winner::Player2),
            (TournamentId(3), TournamentId(4), Winner::Player1),
            (TournamentId(5), TournamentId(6), Winner::Player2),
            (TournamentId(7), TournamentId(8), Winner::Player1),
        ],
        None,
    );
    (p, r1)
}

fn crossings(round: &Paired) -> usize {
    let top: HashSet<TournamentId> = (1..=4).map(TournamentId).collect();
    round
        .boards
        .iter()
        .filter(|b| top.contains(&b.0) != top.contains(&b.1))
        .count()
}

#[test]
fn airtight_groups_keeps_macmahon_groups_apart_when_scores_would_cross() {
    let (p, r1) = eight_in_two_groups();
    let base = with_thresholds(TournamentSettings::default(), vec![MacMahonThreshold::elo(1500)]);
    let round_off = pair_players(2, &p, &base, std::slice::from_ref(&r1), &ids(&p));
    assert_eq!(crossings(&round_off), 2, "score-gap alone crosses the MacMahon boundary");
    let on = with_airtight(base, RoundLimit::new(2));
    let round_on = pair_players(2, &p, &on, &[r1], &ids(&p));
    assert_eq!(crossings(&round_on), 0, "airtight groups keep every board within its group");
}

#[test]
fn airtight_groups_only_applies_within_its_round_window() {
    let (p, r1) = eight_in_two_groups();
    let settings = with_airtight(
        with_thresholds(TournamentSettings::default(), vec![MacMahonThreshold::elo(1500)]),
        RoundLimit::new(1),
    );
    let round = pair_players(2, &p, &settings, &[r1], &ids(&p));
    assert_eq!(crossings(&round), 2, "past the window, score-gap crosses again");
}

/// The club rule counts clashes position by position: board `k` only ever
/// meets board `k`.
#[test]
fn the_club_rule_counts_aligned_same_club_boards() {
    let unit = |clubs: &[Option<&str>]| PairingUnit {
        clubs: clubs.iter().map(|c| c.map(TournamentSettings::normalize_club)).collect(),
        ..PairingUnit::blank()
    };
    let units: TiVec<UnitKey, PairingUnit> = vec![
        PairingUnit::blank(),
        unit(&[Some("X"), Some("Y"), Some("Z")]),
        unit(&[Some("x"), Some("W"), Some("Z")]),
        unit(&[None, None, None]),
    ]
    .into();
    let free = [UnitKey(1), UnitKey(2), UnitKey(3)];
    let exempt_clubs: Vec<String> = Vec::new();
    let exempt_nationalities: Vec<String> = Vec::new();
    let empty_rank: Vec<i128> = vec![0i128; 4];
    let fold = fold_ranks(&units, &free);
    let ctx = Ctx {
        units: &units,
        fold: &fold,
        round: 1,
        floater_style: FloaterStyle::Classic,
        exempt_clubs: &exempt_clubs,
        exempt_nationalities: &exempt_nationalities,
        edges: 1,
        max_gap: 0,
        min_points: 0,
        max_mm_gap: 0,
        max_group: 3,
        free_count: 3,
        max_boards: 3,
        elo_rank: &empty_rank,
        max_elo_gap: 0,
    };
    assert_eq!(Rule::Club.edge_units(&ctx, UnitKey(1), UnitKey(2)), 2);
    assert_eq!(Rule::Club.edge_units(&ctx, UnitKey(1), UnitKey(3)), 0);
    let bound = Rule::Club.max_total_units(&ctx);
    assert!(Rule::Club.edge_units(&ctx, UnitKey(1), UnitKey(2)) * ctx.edges <= bound);
    assert_eq!(bound, 3);
}

#[test]
fn a_repeat_float_is_avoided_even_when_floater_selection_asks_for_it() {
    let dan = |tid, rating| Player { grade: Some(Grade::dan(1)), ..player(tid, Some(rating), None) };
    let kyu = |tid, rating| Player { grade: Some(Grade::kyu(5)), ..player(tid, Some(rating), None) };
    let p = vec![dan(1, 2000), kyu(2, 1000), dan(3, 1500), kyu(4, 1900)];
    let id = |i: usize| p[i].tournament_id.unwrap();
    let settings = with_thresholds(TournamentSettings::default(), vec![MacMahonThreshold::grade(Grade::dan(1))]);

    let float_board = |a, b, winner| Board {
        outcome: Outcome::won(winner),
        ..Board::pending(a, b, 2, PairingSource::Swiss)
    };
    let r1 = Round {
        number: 1,
        boards: vec![float_board(id(0), id(1), Winner::Player1), float_board(id(2), id(3), Winner::Player2)],
        sitouts: Vec::new(),
        completed: true,
    };

    let units = player_units(&p, &settings, std::slice::from_ref(&r1), &[], None, None);
    let unit = |i: usize| &units[UnitKey(id(i).0)];
    let points = |i: usize| unit(i).points.halves();
    assert_eq!((points(0), points(1), points(2), points(3)), (4, 0, 2, 2));
    assert_eq!(unit(2).last_descended, Some(1));
    assert_eq!(unit(2).last_ascended, None);
    assert_eq!(unit(3).last_ascended, Some(1));
    assert_eq!(unit(3).last_descended, None);

    let present = ids(&p);
    let round = pair_players(2, &p, &settings, &[r1.clone()], &present);
    let pairs = board_pairs(&round);
    assert!(pairs.contains(&unord(id(0), id(2))), "C should float up: {pairs:?}");
    assert!(pairs.contains(&unord(id(3), id(1))), "D should float down: {pairs:?}");
    assert!(unit(3).fold_rating() > unit(2).fold_rating(), "D must be the stronger");
}

#[test]
fn floater_selection_floats_down_the_weakest() {
    let p = vec![
        player(1, Some(2000), None),
        player(2, Some(1900), None),
        player(3, Some(1800), None),
        player(4, Some(1000), None),
    ];
    let present = ids(&p);
    let settings = with_thresholds(TournamentSettings::default(), vec![MacMahonThreshold::elo(1500)]);
    let round = pair_players(1, &p, &settings, &[], &present);
    assert!(
        board_pairs(&round).contains(&unord(p[2].tournament_id.unwrap(), p[3].tournament_id.unwrap())),
        "the weakest of the upper group should float down"
    );
}

#[test]
fn floater_selection_classic_vs_median_pick_different_ascenders() {
    let p = vec![
        player(1, Some(2000), None),
        player(2, Some(1400), None),
        player(3, Some(1300), None),
        player(4, Some(1200), None),
    ];
    let present = ids(&p);
    let base = with_thresholds(TournamentSettings::default(), vec![MacMahonThreshold::elo(1500)]);

    let classic = with_floater(base.clone(), FloaterStyle::Classic);
    let round = pair_players(1, &p, &classic, &[], &present);
    assert!(
        board_pairs(&round).contains(&unord(p[0].tournament_id.unwrap(), p[1].tournament_id.unwrap())),
        "classic Swiss floats up the strongest of the group (L0)"
    );

    let median = with_floater(base, FloaterStyle::Median);
    let round = pair_players(1, &p, &median, &[], &present);
    assert!(
        board_pairs(&round).contains(&unord(p[0].tournament_id.unwrap(), p[2].tournament_id.unwrap())),
        "median Swiss floats up the median of the group (L1)"
    );
}

#[test]
fn floater_selection_median_descends_the_median_not_the_weakest() {
    let p = vec![
        player(1, Some(2000), None),
        player(2, Some(1900), None),
        player(3, Some(1800), None),
        player(4, Some(1000), None),
    ];
    let present = ids(&p);
    let base = with_thresholds(TournamentSettings::default(), vec![MacMahonThreshold::elo(1500)]);

    let classic = with_floater(base.clone(), FloaterStyle::Classic);
    let round = pair_players(1, &p, &classic, &[], &present);
    assert!(
        board_pairs(&round).contains(&unord(p[2].tournament_id.unwrap(), p[3].tournament_id.unwrap())),
        "classic Swiss floats down the weakest of the group (X2)"
    );

    let median = with_floater(base, FloaterStyle::Median);
    let round = pair_players(1, &p, &median, &[], &present);
    assert!(
        board_pairs(&round).contains(&unord(p[1].tournament_id.unwrap(), p[3].tournament_id.unwrap())),
        "median Swiss floats down the median of the group (X1)"
    );
}

#[test]
fn floater_selection_median_gives_the_bye_to_the_median_of_the_group() {
    let p = vec![
        player(1, Some(2000), None),
        player(2, Some(1800), None),
        player(3, Some(1600), None),
        player(4, Some(1400), None),
        player(5, Some(1200), None),
    ];
    let present = ids(&p);

    let classic = with_floater(TournamentSettings::default(), FloaterStyle::Classic);
    let round = pair_players(1, &p, &classic, &[], &present);
    assert_eq!(round.bye, Some(p[4].tournament_id.unwrap()), "classic gives the bye to the weakest (P4)");

    let median = with_floater(TournamentSettings::default(), FloaterStyle::Median);
    let round = pair_players(1, &p, &median, &[], &present);
    assert_eq!(round.bye, Some(p[2].tournament_id.unwrap()), "median gives the bye to the median (P2)");
}

#[test]
fn rule_bounds_are_valid_upper_bounds() {
    let p = vec![
        player(1, Some(2000), Some("X")),
        player(2, Some(1800), Some("X")),
        player(3, Some(1600), Some("Y")),
        player(4, Some(1400), Some("Y")),
        player(5, Some(1200), None),
    ];
    let id = |i: usize| p[i].tournament_id.unwrap();
    let r1 = completed_round(
        1,
        &[(id(0), id(1), Winner::Player1), (id(2), id(3), Winner::Player1)],
        Some(id(4)),
    );
    let settings = with_thresholds(TournamentSettings::default(), vec![MacMahonThreshold::elo(1500)]);
    let units = player_units(&p, &settings, &[r1], &[], None, None);
    let free: Vec<UnitKey> = p.iter().map(|q| UnitKey(q.tournament_id.unwrap().0)).collect();
    let (mut lo, mut hi) = (u32::MAX, 0u32);
    let (mut mm_lo, mut mm_hi) = (u32::MAX, 0u32);
    for &key in &free {
        let s = &units[key];
        lo = lo.min(s.points.halves());
        hi = hi.max(s.points.halves());
        mm_lo = mm_lo.min(s.macmahon.halves());
        mm_hi = mm_hi.max(s.macmahon.halves());
    }
    let edges = 3i128;
    let exempt_clubs: Vec<String> = Vec::new();
    let exempt_nationalities: Vec<String> = Vec::new();
    let fold = fold_ranks(&units, &free);
    let empty_rank: Vec<i128> = vec![0i128; fold.len()];
    let ctx = Ctx {
        units: &units,
        fold: &fold,
        round: 2,
        floater_style: FloaterStyle::Median,
        exempt_clubs: &exempt_clubs,
        exempt_nationalities: &exempt_nationalities,
        edges,
        max_gap: (hi - lo) as i128,
        min_points: lo as i128,
        max_mm_gap: (mm_hi - mm_lo) as i128,
        max_group: fold.iter().flatten().map(|f| f.group_size).max().unwrap_or(0) as i128,
        free_count: free.len() as i128,
        max_boards: free.iter().map(|&k| units[k].clubs.len()).max().unwrap_or(0) as i128,
        elo_rank: &empty_rank,
        max_elo_gap: 0,
    };

    for &rule in active_rules(&TournamentSettings::default()).iter() {
        let bound = rule.max_total_units(&ctx);
        let bye_scale = match rule {
            Rule::ByeSelection | Rule::ByeGroup => 1,
            _ => edges,
        };
        for i in 0..free.len() {
            for j in (i + 1)..free.len() {
                assert!(
                    rule.edge_units(&ctx, free[i], free[j]) * edges <= bound,
                    "an edge exceeded the rule's total-units bound"
                );
            }
            assert!(rule.bye_units(&ctx, free[i]) * bye_scale <= bound, "a bye exceeded the rule's total-units bound");
        }
    }
}

#[test]
fn widely_spread_elo_estimates_still_pair() {
    let p = vec![player(1, Some(2000), None), player(2, Some(1000), None)];
    let settings = elo_settings();
    let estimates: Vec<i64> = vec![0, 1 << 41];
    let units = player_units(&p, &settings, &[], &[], None, Some(&estimates));
    let present: Vec<UnitKey> = p.iter().map(|x| UnitKey(x.tournament_id.unwrap().0)).collect();
    let instance = try_prepare_round(1, &settings, &units, &present, &[], &[]).expect("the ladder fits");
    let mate = min_matching(&instance.cost, instance.vcount);
    let paired = instance.finish(&mate).expect("a perfect matching");
    assert_eq!(paired.pairs.len(), 1);
}

#[test]
fn elo_estimates_too_far_apart_for_i128_are_refused() {
    let p = vec![player(1, Some(2000), None), player(2, Some(1000), None)];
    let settings = elo_settings();
    let estimates: Vec<i64> = vec![i64::MIN, i64::MAX];
    let units = player_units(&p, &settings, &[], &[], None, Some(&estimates));
    let present: Vec<UnitKey> = p.iter().map(|x| UnitKey(x.tournament_id.unwrap().0)).collect();
    assert_eq!(
        try_prepare_round(1, &settings, &units, &present, &[], &[]).err(),
        Some(RoundSetupError::Overflow)
    );
}

#[test]
fn a_float_from_the_round_being_paired_is_refused_before_pairing() {
    let p = vec![player(1, Some(2000), None), player(2, Some(1000), None)];
    let settings = TournamentSettings::default();
    let mut units = player_units(&p, &settings, &[], &[], None, None);
    let key = UnitKey(p[0].tournament_id.unwrap().0);
    units[key].last_ascended = Some(3);
    let present: Vec<UnitKey> = p.iter().map(|x| UnitKey(x.tournament_id.unwrap().0)).collect();
    assert!(!is_pairable(&units, key, 3));
    assert!(is_pairable(&units, key, 4));
    assert_eq!(
        try_prepare_round(3, &settings, &units, &present, &[], &[]).err(),
        Some(RoundSetupError::NotPairable(key))
    );
    assert!(try_prepare_round(4, &settings, &units, &present, &[], &[]).is_ok());
}

#[test]
fn every_rule_scores_an_edge_alike_from_either_side() {
    let p = vec![
        player(1, Some(2000), Some("X")),
        player(2, Some(1800), Some("X")),
        player(3, Some(1600), Some("Y")),
        player(4, Some(1400), Some("Y")),
        player(5, Some(1200), None),
    ];
    let id = |i: usize| p[i].tournament_id.unwrap();
    let r1 = completed_round(1, &[(id(0), id(1), Winner::Player1), (id(2), id(3), Winner::Player1)], Some(id(4)));
    let settings = with_thresholds(TournamentSettings::default(), vec![MacMahonThreshold::elo(1500)]);
    let units = player_units(&p, &settings, &[r1], &[], None, None);
    let free: Vec<UnitKey> = p.iter().map(|q| UnitKey(q.tournament_id.unwrap().0)).collect();
    let exempt: Vec<String> = Vec::new();
    let fold = fold_ranks(&units, &free);
    let rank: Vec<i128> = vec![0i128; fold.len()];
    let ctx = Ctx {
        units: &units,
        fold: &fold,
        round: 2,
        floater_style: FloaterStyle::Median,
        exempt_clubs: &exempt,
        exempt_nationalities: &exempt,
        edges: 3,
        max_gap: 4,
        min_points: 0,
        max_mm_gap: 2,
        max_group: 5,
        free_count: 5,
        max_boards: 1,
        elo_rank: &rank,
        max_elo_gap: 0,
    };
    for &rule in active_rules(&TournamentSettings::default()).iter() {
        for &a in &free {
            for &b in &free {
                if a != b {
                    assert_eq!(rule.edge_units(&ctx, a, b), rule.edge_units(&ctx, b, a), "{rule:?}");
                }
            }
        }
    }
}

#[test]
fn each_free_player_sits_in_one_pair_or_takes_the_bye() {
    let p: Vec<Player> = (1..=5).map(|t| player(t, Some(2100 - 100 * t), None)).collect();
    let settings = TournamentSettings::default();
    let units = player_units(&p, &settings, &[], &[], None, None);
    let present: Vec<UnitKey> = p.iter().map(|x| UnitKey(x.tournament_id.unwrap().0)).collect();
    let instance = try_prepare_round(1, &settings, &units, &present, &[], &[]).expect("the ladder fits");
    let mate = min_matching(&instance.cost, instance.vcount);
    let paired = instance.finish(&mate).expect("a perfect matching");
    let bye = paired.swiss_bye.expect("an odd field has a bye");
    for &k in &present {
        let n = paired.pairs.iter().filter(|q| q.a == k || q.b == k).count();
        assert_eq!(n, if k == bye { 0 } else { 1 });
    }
}

#[test]
fn the_engine_bye_is_the_first_bye_listed_and_sit_outs_split_into_byes_and_absentees() {
    let sit = |t: u32, kind: SitoutKind| Sitout { player: TournamentId(t), kind, value: SitoutValue::Full };
    let round = Round {
        number: 1,
        boards: Vec::new(),
        sitouts: vec![
            sit(4, SitoutKind::ForcedBye),
            sit(7, SitoutKind::Bye),
            sit(2, SitoutKind::Absent),
            sit(9, SitoutKind::Bye),
        ],
        completed: false,
    };
    assert_eq!(round.swiss_bye(), Some(TournamentId(7)));
    assert_eq!(round.byes(), vec![TournamentId(4), TournamentId(7), TournamentId(9)]);
    assert_eq!(round.absentees(), vec![TournamentId(2)]);
    assert_eq!(round.byes().len() + round.absentees().len(), round.sitouts.len());
}
