use osp_core::round::{
    AbsenceKind, Board, ForcedMatch, Forfeit, Outcome, PairingSource, RoundDraft, SitoutKind, SitoutValue,
};
use osp_core::team_round::{
    check_team_draft, forfeit_absent_boards, team_round_sitouts, TeamDraftError, TeamDraftPlan,
};
use osp_core::units::{TeamId, TournamentId, UnitKey};

fn t(n: u32) -> TournamentId {
    TournamentId(n)
}

/// Three teams of two: team 1 = players 1, 2; team 2 = 3, 4; team 3 = 5, 6.
fn rosters() -> Vec<(TeamId, Vec<TournamentId>)> {
    vec![
        (TeamId(1), vec![t(1), t(2)]),
        (TeamId(2), vec![t(3), t(4)]),
        (TeamId(3), vec![t(5), t(6)]),
    ]
}

fn draft(absent: Vec<TournamentId>) -> RoundDraft {
    RoundDraft {
        number: 2,
        absent,
        forced_boards: Vec::new(),
        forced_byes: Vec::new(),
        forced_matches: Vec::new(),
        forced_team_byes: Vec::new(),
    }
}

#[test]
fn a_wholly_absent_team_is_left_out_and_a_partly_absent_one_plays() {
    let plan = check_team_draft(&draft(vec![t(3), t(4), t(5)]), &rosters(), 2).unwrap();
    assert_eq!(plan.present, vec![UnitKey(1), UnitKey(3)]);
    assert!(plan.forced_pairs.is_empty() && plan.forced_byes.is_empty());
}

#[test]
fn a_team_round_needs_enough_present_teams() {
    assert_eq!(
        check_team_draft(&draft(vec![t(1), t(2), t(3), t(4)]), &rosters(), 2),
        Err(TeamDraftError::NotEnoughPresentTeams { needed: 2, have: 1 })
    );
}

#[test]
fn an_absentee_named_twice_is_refused_first() {
    let mut d = draft(vec![t(1), t(5), t(1)]);
    d.forced_byes = vec![t(2)];
    assert_eq!(
        check_team_draft(&d, &rosters(), 2),
        Err(TeamDraftError::PlayerTwiceInRound { round: 2, player: t(1) })
    );
}

#[test]
fn player_level_forcing_is_refused_in_team_mode() {
    let mut d = draft(Vec::new());
    d.forced_boards = vec![Board::pending(t(1), t(3), 0, PairingSource::Forced)];
    assert_eq!(check_team_draft(&d, &rosters(), 2), Err(TeamDraftError::PlayerLevelDraftInTeamMode));
}

#[test]
fn forced_matches_and_byes_must_name_present_teams_once() {
    let forced = |a: u32, b: u32| ForcedMatch { team1: TeamId(a), team2: TeamId(b) };
    let mut d = draft(vec![t(5), t(6)]);
    d.forced_matches = vec![forced(1, 1)];
    assert_eq!(check_team_draft(&d, &rosters(), 2), Err(TeamDraftError::SelfMatch));
    d.forced_matches = vec![forced(1, 3)];
    assert_eq!(check_team_draft(&d, &rosters(), 2), Err(TeamDraftError::MatchOfAbsentTeam(TeamId(3))));
    d.forced_matches = vec![forced(1, 2), forced(2, 1)];
    assert_eq!(check_team_draft(&d, &rosters(), 2), Err(TeamDraftError::TeamInTwoMatches(TeamId(2))));
    d.forced_matches = vec![forced(1, 2)];
    d.forced_team_byes = vec![TeamId(3)];
    assert_eq!(check_team_draft(&d, &rosters(), 2), Err(TeamDraftError::ByeOfAbsentTeam(TeamId(3))));
    d.forced_team_byes = vec![TeamId(2)];
    assert_eq!(check_team_draft(&d, &rosters(), 2), Err(TeamDraftError::TeamForcedTwice(TeamId(2))));
    d.forced_team_byes = Vec::new();
    assert_eq!(
        check_team_draft(&d, &rosters(), 2),
        Ok(TeamDraftPlan {
            present: vec![UnitKey(1), UnitKey(2)],
            forced_pairs: vec![(UnitKey(1), UnitKey(2))],
            forced_byes: Vec::new(),
        })
    );
}

#[test]
fn a_partly_absent_team_plays_with_its_missing_boards_forfeited() {
    let mut boards = vec![
        Board::pending(t(1), t(3), 0, PairingSource::Swiss),
        Board::pending(t(2), t(4), 0, PairingSource::Swiss),
    ];
    forfeit_absent_boards(&mut boards, &vec![t(4)]);
    assert_eq!(boards[0].outcome, Outcome::pending());
    assert_eq!(boards[1].outcome, Outcome::Forfeit { absent: Forfeit::Player2(AbsenceKind::Justified) });
}

#[test]
fn a_team_bye_is_one_sit_out_per_member_and_absentees_off_the_boards_sit_out() {
    let boards = vec![
        Board::pending(t(1), t(3), 0, PairingSource::Swiss),
        Board::pending(t(2), t(4), 0, PairingSource::Swiss),
    ];
    let rows = team_round_sitouts(&rosters(), &Vec::new(), Some(UnitKey(3)), &boards, &vec![t(4), t(6), t(9)], SitoutValue::Zero);
    let got: Vec<(TournamentId, SitoutKind, SitoutValue)> = rows.iter().map(|s| (s.player, s.kind, s.value)).collect();
    assert_eq!(
        got,
        vec![
            (t(5), SitoutKind::Bye, SitoutValue::Full),
            (t(6), SitoutKind::Bye, SitoutValue::Full),
            (t(9), SitoutKind::Absent, SitoutValue::Zero),
        ]
    );
}
