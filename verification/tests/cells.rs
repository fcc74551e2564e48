use osp_core::result_import::{
    board_record, check_rows, parse_cell, parse_handicap, plan_round, Cell, CellHandicap,
    Outcome, RawRow, ResultImportError, RoundPlan,
};
use osp_core::round::{Handicap, PairingSource, SitoutValue, Winner};
use osp_core::units::TournamentId;

fn game(opponent: u32, outcome: Outcome) -> Cell {
    Cell::Game {
        opponent,
        outcome,
        handicap: None,
    }
}

fn handicap_game(opponent: u32, outcome: Outcome, handicap: Handicap, gave: bool) -> Cell {
    Cell::Game {
        opponent,
        outcome,
        handicap: Some(CellHandicap { handicap, gave }),
    }
}

fn row(number: u32, last: &str, rating: u32, cells: &[Cell]) -> RawRow {
    RawRow {
        number,
        last_name: last.to_string(),
        first_name: last.to_lowercase(),
        nationality: Some("FR".to_string()),
        rating: Some(rating),
        grade: None,
        cells: cells.to_vec(),
    }
}

/// Check the rows and plan every round, numbering the players 1.. in the
/// order they are registered (by `Nr`).
fn replay(rows: Vec<RawRow>) -> Result<Vec<RoundPlan>, ResultImportError> {
    let order = check_rows(&rows)?;
    let mut ids = vec![TournamentId(0); rows.len()];
    for (k, &i) in order.iter().enumerate() {
        ids[i] = TournamentId(k as u32 + 1);
    }
    let rounds = rows[0].cells.len();
    let mut plans = Vec::new();
    for r in 0..rounds {
        plans.push(plan_round(&rows, r, &ids)?);
    }
    Ok(plans)
}

#[test]
fn parses_every_cell_shape() {
    assert_eq!(parse_cell("0+", 1).unwrap(), Cell::Bye);
    assert_eq!(parse_cell("0-", 1).unwrap(), Cell::Absent);
    assert_eq!(parse_cell("0#", 1).unwrap(), Cell::Absent);
    assert_eq!(parse_cell("0=", 1).unwrap(), Cell::HalfBye);
    assert_eq!(parse_cell("12+", 1).unwrap(), game(12, Outcome::Win));
    assert_eq!(parse_cell("7-", 1).unwrap(), game(7, Outcome::Loss));
    assert_eq!(parse_cell("3=", 1).unwrap(), game(3, Outcome::Draw));
    // A floater mark is tolerated.
    assert_eq!(parse_cell("5+^", 1).unwrap(), game(5, Outcome::Win));
}

#[test]
fn parses_handicap_annotations() {
    // `-` concedes the odds, `+` receives them.
    assert_eq!(
        parse_cell("9+(-5p)", 1).unwrap(),
        handicap_game(9, Outcome::Win, Handicap::FivePiece, true)
    );
    assert_eq!(
        parse_cell("1-(+5p)", 1).unwrap(),
        handicap_game(1, Outcome::Loss, Handicap::FivePiece, false)
    );
    // Codes are case-insensitive: the same corpus writes both.
    assert_eq!(
        parse_cell("4+(-R)", 1).unwrap(),
        handicap_game(4, Outcome::Win, Handicap::Rook, true)
    );
    assert_eq!(
        parse_cell("4+(-rl)", 1).unwrap(),
        handicap_game(4, Outcome::Win, Handicap::RookLance, true)
    );
    // `m` is an older spelling of the sente handicap.
    assert_eq!(
        parse_cell("3+(+m)", 1).unwrap(),
        handicap_game(3, Outcome::Win, Handicap::Sente, false)
    );
    // A bye annotated with odds keeps the bye and drops the mark.
    assert_eq!(parse_cell("0+(+6p)", 1).unwrap(), Cell::Bye);
    assert_eq!(
        parse_cell("3+(+s)", 1).unwrap(),
        handicap_game(3, Outcome::Win, Handicap::Sente, false)
    );
}

#[test]
fn rejects_malformed_cells() {
    // No digits before the sign.
    assert!(matches!(
        parse_cell("x+", 4),
        Err(ResultImportError::BadCell { cell, line: 4 }) if cell == "x+"
    ));
    // A handicap suffix must be a parenthesised signed code.
    assert!(matches!(
        parse_cell("2+-r", 1),
        Err(ResultImportError::BadCell { cell, .. }) if cell == "2+-r"
    ));
    assert!(matches!(
        parse_cell("2+(r)", 1),
        Err(ResultImportError::BadCell { cell, .. }) if cell == "2+(r)"
    ));
    // An unknown code is rejected rather than dropped.
    assert!(matches!(
        parse_cell("2+(-z)", 1),
        Err(ResultImportError::BadCell { cell, .. }) if cell == "2+(-z)"
    ));
    // A non-game cell's annotation is validated even though it is dropped.
    assert!(matches!(
        parse_cell("0+(-z)", 1),
        Err(ResultImportError::BadCell { cell, .. }) if cell == "0+(-z)"
    ));
    assert!(matches!(
        parse_cell("0+x", 1),
        Err(ResultImportError::BadCell { cell, .. }) if cell == "0+x"
    ));
    // Unknown signs, for a non-game and a game cell.
    assert!(matches!(
        parse_cell("0*", 1),
        Err(ResultImportError::BadCell { cell, .. }) if cell == "0*"
    ));
    assert!(matches!(
        parse_cell("2*", 1),
        Err(ResultImportError::BadCell { cell, .. }) if cell == "2*"
    ));
    // No sign at all.
    assert!(matches!(
        parse_cell("12", 1),
        Err(ResultImportError::BadCell { .. })
    ));
}

#[test]
fn a_bad_suffix_reports_the_cell_without_its_floater_mark() {
    assert!(matches!(
        parse_cell("2+(-z)^", 3),
        Err(ResultImportError::BadCell { cell, line: 3 }) if cell == "2+(-z)"
    ));
    // A bad sign reports the cell as written.
    assert!(matches!(
        parse_cell("2*v", 3),
        Err(ResultImportError::BadCell { cell, .. }) if cell == "2*v"
    ));
    // A number past u32 is malformed, and leading zeros are fine.
    assert!(parse_cell("99999999999+", 1).is_err());
    assert_eq!(parse_cell("007-", 1).unwrap(), game(7, Outcome::Loss));
}

#[test]
fn handicap_suffixes_parse_on_their_own() {
    let chars: Vec<char> = "(-2P)".chars().collect();
    assert_eq!(
        parse_handicap(&chars),
        Some(CellHandicap {
            handicap: Handicap::TwoPiece,
            gave: true
        })
    );
    let empty: Vec<char> = "()".chars().collect();
    assert_eq!(parse_handicap(&empty), None);
    let unsigned: Vec<char> = "(5p)".chars().collect();
    assert_eq!(parse_handicap(&unsigned), None);
}

#[test]
fn rejects_no_rows() {
    assert_eq!(replay(Vec::new()).unwrap_err(), ResultImportError::NoPlayers);
}

#[test]
fn rejects_rows_with_inconsistent_round_counts() {
    let rows = vec![
        row(1, "Alpha", 2000, &[game(2, Outcome::Win), Cell::Bye]),
        row(2, "Beta", 1000, &[game(1, Outcome::Loss)]),
    ];
    assert!(matches!(
        replay(rows),
        Err(ResultImportError::InconsistentRounds {
            expected: 2,
            found: 1
        })
    ));
}

#[test]
fn rejects_duplicate_player_numbers() {
    let rows = vec![
        row(1, "Alpha", 2000, &[game(2, Outcome::Win)]),
        row(1, "Beta", 1000, &[game(1, Outcome::Loss)]),
    ];
    assert_eq!(
        replay(rows).unwrap_err(),
        ResultImportError::DuplicateNumber(1)
    );
}

#[test]
fn the_smallest_repeated_number_is_reported() {
    let rows = vec![
        row(5, "A", 2000, &[Cell::Bye]),
        row(3, "B", 1900, &[Cell::Bye]),
        row(5, "C", 1800, &[Cell::Bye]),
        row(3, "D", 1700, &[Cell::Bye]),
    ];
    assert_eq!(
        check_rows(&rows).unwrap_err(),
        ResultImportError::DuplicateNumber(3)
    );
}

#[test]
fn registration_follows_the_row_numbers() {
    let rows = vec![
        row(3, "C", 1800, &[Cell::Bye]),
        row(1, "A", 2000, &[Cell::Bye]),
        row(2, "B", 1900, &[Cell::Bye]),
    ];
    assert_eq!(check_rows(&rows).unwrap(), vec![1, 2, 0]);
}

#[test]
fn rejects_an_unknown_opponent() {
    let rows = vec![row(1, "Alpha", 2000, &[game(9, Outcome::Win)])];
    assert!(matches!(
        replay(rows),
        Err(ResultImportError::UnknownOpponent {
            round: 1,
            by: 1,
            opponent: 9
        })
    ));
}

#[test]
fn rejects_inconsistent_results() {
    // Both players claim a win over each other.
    let rows = vec![
        row(1, "Alpha", 2000, &[game(2, Outcome::Win)]),
        row(2, "Beta", 1000, &[game(1, Outcome::Win)]),
    ];
    assert!(matches!(
        replay(rows),
        Err(ResultImportError::InconsistentResult {
            round: 1,
            a: 1,
            b: 2
        })
    ));
}

#[test]
fn rejects_an_asymmetric_game() {
    // Alpha claims a game vs Beta, but Beta's cell is a bye.
    let rows = vec![
        row(1, "Alpha", 2000, &[game(2, Outcome::Win)]),
        row(2, "Beta", 1000, &[Cell::Bye]),
    ];
    assert!(matches!(
        replay(rows),
        Err(ResultImportError::Asymmetric {
            round: 1,
            a: 1,
            b: 2
        })
    ));

    // …and one where Beta names a third player instead of Alpha.
    let rows = vec![
        row(1, "Alpha", 2000, &[game(2, Outcome::Win)]),
        row(2, "Beta", 1000, &[game(3, Outcome::Loss)]),
        row(3, "Gamma", 1500, &[Cell::Bye]),
    ];
    assert!(matches!(
        replay(rows),
        Err(ResultImportError::Asymmetric {
            round: 1,
            a: 1,
            b: 2
        })
    ));
}

#[test]
fn rejects_handicaps_the_two_sides_disagree_on() {
    // Only one side annotated.
    let one_sided = vec![
        row(1, "Alpha", 2000, &[handicap_game(2, Outcome::Win, Handicap::Rook, true)]),
        row(2, "Beta", 1000, &[game(1, Outcome::Loss)]),
    ];
    assert!(matches!(
        replay(one_sided),
        Err(ResultImportError::InconsistentHandicap {
            round: 1,
            a: 1,
            b: 2
        })
    ));

    // Both claim to have conceded.
    let both_gave = vec![
        row(1, "Alpha", 2000, &[handicap_game(2, Outcome::Win, Handicap::Rook, true)]),
        row(2, "Beta", 1000, &[handicap_game(1, Outcome::Loss, Handicap::Rook, true)]),
    ];
    assert!(matches!(
        replay(both_gave),
        Err(ResultImportError::InconsistentHandicap {
            round: 1,
            a: 1,
            b: 2
        })
    ));

    // Different odds on each side.
    let mismatched = vec![
        row(1, "Alpha", 2000, &[handicap_game(2, Outcome::Win, Handicap::Rook, true)]),
        row(2, "Beta", 1000, &[handicap_game(1, Outcome::Loss, Handicap::Bishop, false)]),
    ];
    assert!(matches!(
        replay(mismatched),
        Err(ResultImportError::InconsistentHandicap {
            round: 1,
            a: 1,
            b: 2
        })
    ));
}

#[test]
fn a_round_plan_forces_every_game_and_scores_every_sitout() {
    let rows = vec![
        row(1, "Alpha", 2000, &[game(2, Outcome::Win)]),
        row(2, "Beta", 1900, &[game(1, Outcome::Loss)]),
        row(3, "Gamma", 1800, &[Cell::Bye]),
        row(4, "Delta", 1700, &[Cell::HalfBye]),
        row(5, "Eps", 1600, &[Cell::Absent]),
        row(6, "Zeta", 1500, &[Cell::Bye]),
    ];
    let plans = replay(rows).unwrap();
    let plan = &plans[0];
    assert_eq!(plan.forced_byes, vec![TournamentId(3), TournamentId(6)]);
    assert_eq!(plan.absent, vec![TournamentId(4), TournamentId(5)]);
    assert_eq!(
        plan.sitout_values,
        vec![
            (TournamentId(3), SitoutValue::Full),
            (TournamentId(4), SitoutValue::Half),
            (TournamentId(5), SitoutValue::Zero),
            (TournamentId(6), SitoutValue::Full),
        ]
    );
    assert_eq!(plan.results, vec![(1, 2, Outcome::Win, None)]);
    assert_eq!(plan.forced_boards.len(), 1);
    let board = &plan.forced_boards[0];
    assert_eq!((board.player1, board.player2), (TournamentId(1), TournamentId(2)));
    assert_eq!(board.source, PairingSource::Forced);
    assert_eq!(board.points_diff, 0);
    assert!(!board.is_decided());
}

#[test]
fn a_loss_recorded_by_the_lower_numbered_player_still_resolves() {
    let rows = vec![
        row(1, "Alpha", 2000, &[game(2, Outcome::Loss)]),
        row(2, "Beta", 1000, &[game(1, Outcome::Win)]),
    ];
    let plans = replay(rows).unwrap();
    let (_, _, outcome, handicap) = plans[0].results[0];
    // Alpha sits on side 1 of the forced board, and lost.
    let record = board_record(outcome, handicap, true);
    assert_eq!(record.winner, Winner::Player2);
    assert!(!record.drawn);
    assert_eq!(record.handicap, None);
}

#[test]
fn a_handicap_takes_its_giver_from_the_cell_not_the_ratings() {
    // The lower-rated Beta concedes the odds — what the cells say.
    let rows = vec![
        row(1, "Alpha", 2000, &[handicap_game(2, Outcome::Win, Handicap::Rook, false)]),
        row(2, "Beta", 1000, &[handicap_game(1, Outcome::Loss, Handicap::Rook, true)]),
    ];
    let plans = replay(rows).unwrap();
    let (_, _, outcome, handicap) = plans[0].results[0];
    let record = board_record(outcome, handicap, true);
    // Beta is on side 2.
    assert_eq!(record.handicap, Some((Handicap::Rook, Winner::Player2)));
    assert_eq!(record.winner, Winner::Player1);
    // Seen with Alpha on side 2, everything mirrors.
    let flipped = board_record(outcome, handicap, false);
    assert_eq!(flipped.handicap, Some((Handicap::Rook, Winner::Player1)));
    assert_eq!(flipped.winner, Winner::Player2);
}

#[test]
fn a_draw_keeps_a_decisive_winner_and_its_flag() {
    let record = board_record(Outcome::Draw, None, false);
    assert!(record.drawn);
    assert_eq!(record.winner, Winner::Player1);
    assert_eq!(Outcome::Draw.winner(false), Winner::Player1);
    assert_eq!(Outcome::Draw.winner(true), Winner::Player1);
    assert!(Outcome::Draw.is_consistent_with(&Outcome::Draw));
    assert!(!Outcome::Win.is_consistent_with(&Outcome::Win));
    assert_eq!(Outcome::Loss.winner(true), Winner::Player2);
}
