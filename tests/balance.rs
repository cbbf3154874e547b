use team_balancer::model::{build_model, model_fits_sizes, Relation, Term};
use team_balancer::objective::{fairness_objective, imbalance};
use team_balancer::player::{Criteria, Player};
use team_balancer::report::{
    criterion_extremes, media_do_jogadores, media_qualidade_jogador, rate_average, rate_max, Ratio,
};
use team_balancer::solution::{
    assemble_teams, extract_assignment, group_teams, number_of_teams, team_sizes, LayoutError,
    SolutionError,
};

fn player(name: &str, r: [i32; 6]) -> Player {
    Player {
        name: name.to_string(),
        qualidade_goleiro: r[0],
        qualidade_zagueiro: r[1],
        qualidade_meio: r[2],
        qualidade_atacante: r[3],
        speed: r[4],
        stamina: r[5],
    }
}

fn speed_roster() -> Vec<Player> {
    let speeds = [80, 80, 80, 80, 80, 20, 20, 20, 20, 20];
    speeds
        .iter()
        .enumerate()
        .map(|(i, s)| player(&format!("p{}", i), [50, 50, 50, 50, *s, 50]))
        .collect()
}

/// Team variables, in thousandths, for an assignment of players to teams.
fn values_for(assignment: &[usize], n_teams: usize) -> Vec<i64> {
    let mut v = vec![0i64; assignment.len() * n_teams];
    for (p, t) in assignment.iter().enumerate() {
        v[p * n_teams + t] = 1000;
    }
    v
}

/// Every assignment of ten players to two teams of five.
fn all_even_splits() -> Vec<Vec<usize>> {
    let mut out = Vec::new();
    for mask in 0u32..(1 << 10) {
        if mask.count_ones() == 5 {
            out.push((0..10).map(|p| ((mask >> p) & 1) as usize).collect());
        }
    }
    out
}

#[test]
fn ratings_in_criterion_order() {
    let p = player("a", [1, 2, 3, 4, 5, 6]);
    assert_eq!(p.qualidades(), vec![1, 2, 3, 4, 5, 6]);
    assert_eq!(p.rating_for(&Criteria::Speed), 5);
    assert_eq!(Criteria::Stamina.index(), 5);
    assert_eq!(Criteria::from_index(0), Criteria::Keeper);
    assert_eq!(Criteria::Midfielder.label(), "Meio");
}

#[test]
fn players_are_equal_by_name() {
    assert!(player("a", [1, 1, 1, 1, 1, 1]) == player("a", [9, 9, 9, 9, 9, 9]));
    assert!(player("a", [1, 1, 1, 1, 1, 1]) != player("b", [1, 1, 1, 1, 1, 1]));
}

#[test]
fn average_skips_unrated_players() {
    let team = vec![
        player("a", [0, 60, 0, 0, 0, 0]),
        player("b", [70, 80, 0, 0, 0, 0]),
        player("c", [0, 0, 0, 0, 0, 0]),
    ];
    assert_eq!(rate_average(&team, &Criteria::Keeper), Ratio { num: 70, den: 1 });
    assert_eq!(rate_average(&team, &Criteria::Defender), Ratio { num: 140, den: 2 });
}

#[test]
fn degenerate_average_and_max() {
    let team = vec![player("a", [0, 10, 0, 0, 0, 0]), player("b", [0, 20, 0, 0, 0, 0])];
    assert_eq!(rate_average(&team, &Criteria::Keeper), Ratio { num: 0, den: 1 });
    assert_eq!(rate_average(&[], &Criteria::Speed), Ratio { num: 0, den: 1 });
    assert_eq!(rate_max(&[], &Criteria::Speed), 0);
    assert_eq!(media_do_jogadores(&[]), Ratio { num: 0, den: 1 });
}

#[test]
fn max_rating_of_team() {
    let team = vec![player("a", [0, 10, 0, 0, -5, 0]), player("b", [0, 30, 0, 0, -2, 0])];
    assert_eq!(rate_max(&team, &Criteria::Defender), 30);
    assert_eq!(rate_max(&team, &Criteria::Speed), -2);
}

#[test]
fn player_and_team_means() {
    let a = player("a", [6, 6, 6, 6, 6, 6]);
    let b = player("b", [0, 12, 0, 12, 0, 12]);
    assert_eq!(media_qualidade_jogador(&a), Ratio { num: 36, den: 6 });
    assert_eq!(media_do_jogadores(&[a, b]), Ratio { num: 72, den: 12 });
}

#[test]
fn extremes_over_teams() {
    let teams = vec![
        vec![player("a", [0, 0, 0, 0, 50, 0]), player("b", [0, 0, 0, 0, 70, 0])],
        vec![player("c", [0, 0, 0, 0, 90, 0]), player("d", [0, 0, 0, 0, 0, 0])],
        vec![player("e", [0, 0, 0, 0, 10, 0])],
    ];
    let (hi, lo) = criterion_extremes(&teams, &Criteria::Speed).unwrap();
    assert_eq!(hi, Ratio { num: 90, den: 1 });
    assert_eq!(lo, Ratio { num: 10, den: 1 });
    assert!(criterion_extremes(&vec![], &Criteria::Speed).is_none());
}

#[test]
fn team_count_from_roster() {
    assert_eq!(number_of_teams(10, 5), Ok(2));
    assert_eq!(number_of_teams(11, 5), Err(LayoutError::UnevenSplit));
    assert_eq!(number_of_teams(3, 5), Err(LayoutError::TooFewPlayers));
    assert_eq!(number_of_teams(10, 0), Err(LayoutError::ZeroTeamSize));
}

#[test]
fn model_shape() {
    let players = vec![
        player("a", [9, 1, 2, 3, 4, 5]),
        player("b", [9, 6, 7, 8, 9, 10]),
        player("c", [9, 1, 1, 1, 1, 1]),
        player("d", [9, 2, 2, 2, 2, 2]),
    ];
    assert!(model_fits_sizes(4, 2, 2));
    assert!(!model_fits_sizes(4, 0, 2));
    let m = build_model(&players, 2, 2, false);
    assert_eq!(m.one_team.len(), 4);
    assert_eq!(m.one_team[1].terms, vec![Term { var: 2, coef: 1 }, Term { var: 3, coef: 1 }]);
    assert_eq!(m.one_team[1].relation, Relation::Equal);
    assert_eq!(m.team_size.len(), 2);
    assert_eq!(m.team_size[1].rhs, 2);
    assert_eq!(m.team_size[1].terms.iter().map(|t| t.var).collect::<Vec<_>>(), vec![1, 3, 5, 7]);
    assert_eq!(m.fairness.len(), 10);
    assert_eq!(m.objective, vec![9, 10, 11, 12, 13]);
    let f = &m.fairness[0];
    assert_eq!((f.criterion, f.team), (1, 0));
    assert_eq!(f.above.relation, Relation::AtLeast);
    assert_eq!(f.above.terms[0], Term { var: 9, coef: 2 });
    // 2 * score(team 0) - total, for Defender: player b in team 0 counts +6, in team 1 counts -6.
    assert_eq!(f.below.terms[3], Term { var: 2, coef: 6 });
    assert_eq!(f.below.terms[4], Term { var: 3, coef: -6 });
    assert_eq!(f.above.terms[3], Term { var: 2, coef: -6 });
    let with_keeper = build_model(&players, 2, 2, true);
    assert_eq!(with_keeper.fairness.len(), 12);
    assert_eq!(with_keeper.objective, vec![8, 9, 10, 11, 12, 13]);
}

#[test]
fn extraction_reads_memberships() {
    let v = vec![990, 3, 10, 1000, 1000, 0];
    assert_eq!(extract_assignment(&v, 3, 2), Ok(vec![0, 1, 0]));
    assert_eq!(extract_assignment(&vec![0, 400, 1000, 0], 2, 2), Err(SolutionError::Unassigned(0)));
    assert_eq!(
        extract_assignment(&vec![1000, 0, 900, 800], 2, 2),
        Err(SolutionError::SeveralTeams(1))
    );
    assert_eq!(extract_assignment(&vec![1000, 0], 2, 2), Err(SolutionError::MissingValues));
}

#[test]
fn teams_group_players_in_order() {
    let players = speed_roster();
    let a = vec![0, 1, 1, 0, 1, 0, 0, 1, 1, 0];
    let teams = group_teams(&players, &a, 2);
    let names: Vec<Vec<String>> =
        teams.iter().map(|t| t.iter().map(|p| p.name.clone()).collect()).collect();
    assert_eq!(names[0], vec!["p0", "p3", "p5", "p6", "p9"]);
    assert_eq!(names[1], vec!["p1", "p2", "p4", "p7", "p8"]);
    assert_eq!(team_sizes(&a, 2), vec![5, 5]);
}

#[test]
fn partition_is_complete() {
    let players = speed_roster();
    let a = vec![1, 0, 1, 0, 1, 0, 1, 0, 1, 0];
    let teams = assemble_teams(&players, 2, 5, &values_for(&a, 2)).unwrap();
    assert_eq!(teams.len(), 2);
    for team in &teams {
        assert_eq!(team.len(), 5);
    }
    for p in &players {
        let count: usize = teams.iter().map(|t| t.iter().filter(|q| q.name == p.name).count()).sum();
        assert_eq!(count, 1);
    }
}

#[test]
fn uneven_roster_is_rejected() {
    let mut players = speed_roster();
    players.push(player("extra", [1, 1, 1, 1, 1, 1]));
    assert_eq!(number_of_teams(players.len(), 5), Err(LayoutError::UnevenSplit));
    let a = vec![0, 0, 0, 0, 0, 1, 1, 1, 1, 1, 1];
    assert_eq!(assemble_teams(&players, 2, 5, &values_for(&a, 2)), Err(SolutionError::WrongTeamSize(1)));
}

#[test]
fn speed_scenario_optimum() {
    let players = speed_roster();
    // Four fast players against one: each team is 90 away from 250, times two teams.
    let lopsided = vec![0, 0, 0, 0, 1, 0, 1, 1, 1, 1];
    assert_eq!(imbalance(&players, &lopsided, 2, &Criteria::Speed), 180);
    // Three and two: each team is 30 away from the average.
    let mixed = vec![0, 0, 0, 1, 1, 0, 0, 1, 1, 1];
    assert_eq!(imbalance(&players, &mixed, 2, &Criteria::Speed), 60);
    assert_eq!(fairness_objective(&players, &mixed, 2, false), 60);
    let best = all_even_splits()
        .iter()
        .map(|a| fairness_objective(&players, a, 2, false))
        .min()
        .unwrap();
    assert_eq!(best, 60);
}

#[test]
fn objective_is_minimal_on_small_roster() {
    let players: Vec<Player> = (0..10)
        .map(|i| player(&format!("q{}", i), [0, 10 + i, 3 * i, 40 - i, (i * 7) % 11, 5]))
        .collect();
    let splits = all_even_splits();
    let scores: Vec<i128> = splits.iter().map(|a| fairness_objective(&players, a, 2, false)).collect();
    let best = *scores.iter().min().unwrap();
    for a in &splits {
        let total: i128 = (1..6)
            .map(|c| imbalance(&players, a, 2, &Criteria::from_index(c)))
            .sum();
        assert_eq!(total, fairness_objective(&players, a, 2, false));
        assert!(total >= best);
    }
}

#[test]
fn keeper_ratings_do_not_move_the_objective() {
    let players = speed_roster();
    let mut changed = speed_roster();
    for (i, p) in changed.iter_mut().enumerate() {
        p.qualidade_goleiro = (i as i32) * 13;
    }
    for a in all_even_splits() {
        assert_eq!(
            fairness_objective(&players, &a, 2, false),
            fairness_objective(&changed, &a, 2, false)
        );
    }
    let m1 = build_model(&players, 2, 5, false);
    let m2 = build_model(&changed, 2, 5, false);
    for (f1, f2) in m1.fairness.iter().zip(m2.fairness.iter()) {
        assert_eq!(f1.above.terms, f2.above.terms);
        assert_eq!(f1.below.terms, f2.below.terms);
    }
    let keeper_split = vec![0, 0, 0, 0, 0, 1, 1, 1, 1, 1];
    assert!(
        fairness_objective(&players, &keeper_split, 2, true)
            != fairness_objective(&changed, &keeper_split, 2, true)
    );
}
