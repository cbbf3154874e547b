use vstd::prelude::*;

use crate::player::{Criteria, Player, NUM_CRITERIA};

verus! {

/// One term `coef * x[var]` of a linear expression.
#[derive(Clone, Copy, Debug, PartialEq, Eq, Structural)]
pub struct Term {
    pub var: usize,
    pub coef: i64,
}

/// How a constraint's left-hand side relates to its right-hand side.
#[derive(Clone, Copy, Debug, PartialEq, Eq, Structural)]
pub enum Relation {
    Equal,
    AtLeast,
}

/// `sum(terms) relation rhs`.
pub struct LinearConstraint {
    pub terms: Vec<Term>,
    pub relation: Relation,
    pub rhs: i64,
}

/// The two rows bounding one criterion's imbalance variable by one team's
/// deviation from the average team, from above and from below.
pub struct FairnessBound {
    pub criterion: usize,
    pub team: usize,
    pub above: LinearConstraint,
    pub below: LinearConstraint,
}

/// A mixed-integer model assigning players to teams.
///
/// Variables `0 .. num_players * num_teams` are binary: variable
/// `p * num_teams + t` is one when player `p` plays in team `t`. The next
/// `NUM_CRITERIA` variables are non-negative and continuous, one per criterion:
/// its imbalance, the largest distance of a team's rating sum from the average
/// team's. The objective minimises the sum of the variables listed in
/// `objective`.
pub struct AssignmentModel {
    pub num_players: usize,
    pub num_teams: usize,
    pub players_per_team: usize,
    pub one_team: Vec<LinearConstraint>,
    pub team_size: Vec<LinearConstraint>,
    pub fairness: Vec<FairnessBound>,
    pub objective: Vec<usize>,
}

/// The variable that says player `p` is in team `t`.
pub open spec fn team_var(n_teams: int, p: int, t: int) -> int {
    p * n_teams + t
}

/// The imbalance variable of criterion `c`.
pub open spec fn gap_var(n_players: int, n_teams: int, c: int) -> int {
    n_players * n_teams + c
}

/// First criterion that the objective balances: the keeper is left out unless
/// asked for.
pub open spec fn first_balanced(include_keeper: bool) -> int {
    if include_keeper {
        0
    } else {
        1
    }
}

/// Coefficient of team variable `v` in `n_teams * score(t) - sum of all scores`
/// for criterion `c`, where `score(t)` is the sum of the ratings in team `t`.
pub open spec fn score_coef(players: Seq<Player>, n_teams: int, c: int, t: int, v: int) -> int {
    players[v / n_teams].rating(c) * (if v % n_teams == t {
        n_teams - 1
    } else {
        -1
    })
}

/// Player `p` is in exactly one team.
pub open spec fn is_player_row(row: LinearConstraint, n_teams: int, p: int) -> bool {
    &&& row.relation == Relation::Equal
    &&& row.rhs == 1
    &&& row.terms@.len() == n_teams
    &&& forall|t: int|
        0 <= t < n_teams ==> {
            &&& (#[trigger] row.terms@[t]).var == team_var(n_teams, p, t)
            &&& row.terms@[t].coef == 1
        }
}

/// Team `t` has exactly `size` players.
pub open spec fn is_team_row(
    row: LinearConstraint,
    n_players: int,
    n_teams: int,
    t: int,
    size: int,
) -> bool {
    &&& row.relation == Relation::Equal
    &&& row.rhs == size
    &&& row.terms@.len() == n_players
    &&& forall|p: int|
        0 <= p < n_players ==> {
            &&& (#[trigger] row.terms@[p]).var == team_var(n_teams, p, t)
            &&& row.terms@[p].coef == 1
        }
}

/// `n_teams * gap(c) + sign * (n_teams * score(t) - sum of all scores) >= 0`:
/// with sign -1 the gap bounds the team's excess over the average team, with
/// sign 1 its shortfall.
pub open spec fn is_fairness_row(
    row: LinearConstraint,
    players: Seq<Player>,
    n_teams: int,
    c: int,
    t: int,
    sign: int,
) -> bool {
    let n = players.len() as int;
    &&& row.relation == Relation::AtLeast
    &&& row.rhs == 0
    &&& row.terms@.len() == 1 + n * n_teams
    &&& row.terms@[0].var == gap_var(n, n_teams, c)
    &&& row.terms@[0].coef == n_teams
    &&& forall|k: int|
        1 <= k < row.terms@.len() ==> {
            &&& (#[trigger] row.terms@[k]).var == k - 1
            &&& row.terms@[k].coef == sign * score_coef(players, n_teams, c, t, k - 1)
        }
}

/// The model that balances `players` into `n_teams` teams of `size` players.
pub open spec fn is_balance_model(
    m: AssignmentModel,
    players: Seq<Player>,
    n_teams: int,
    size: int,
    include_keeper: bool,
) -> bool {
    let n = players.len() as int;
    let first = first_balanced(include_keeper);
    &&& m.num_players == n
    &&& m.num_teams == n_teams
    &&& m.players_per_team == size
    &&& m.one_team@.len() == n
    &&& forall|p: int| 0 <= p < n ==> is_player_row(#[trigger] m.one_team@[p], n_teams, p)
    &&& m.team_size@.len() == n_teams
    &&& forall|t: int|
        0 <= t < n_teams ==> is_team_row(#[trigger] m.team_size@[t], n, n_teams, t, size)
    &&& m.fairness@.len() == (NUM_CRITERIA - first) * n_teams
    &&& forall|j: int|
        0 <= j < m.fairness@.len() ==> {
            let f = #[trigger] m.fairness@[j];
            &&& f.criterion == first + j / n_teams
            &&& f.team == j % n_teams
            &&& is_fairness_row(f.above, players, n_teams, f.criterion as int, f.team as int, -1)
            &&& is_fairness_row(f.below, players, n_teams, f.criterion as int, f.team as int, 1)
        }
    &&& m.objective@.len() == NUM_CRITERIA - first
    &&& forall|k: int|
        0 <= k < m.objective@.len() ==> #[trigger] m.objective@[k] == gap_var(
            n,
            n_teams,
            first + k,
        )
}

/// The sizes that a model can be built for: the variables can be numbered and
/// every coefficient fits in 64 bits.
pub open spec fn model_fits(n_players: int, n_teams: int, size: int) -> bool {
    &&& 1 <= n_teams <= 0x7fff_ffff
    &&& 1 <= size <= 0x7fff_ffff_ffff_ffff
    &&& n_players * n_teams + NUM_CRITERIA <= usize::MAX
    &&& NUM_CRITERIA * n_teams <= usize::MAX
}

/// Whether a model can be built for these sizes.
pub fn model_fits_sizes(n_players: usize, n_teams: usize, size: usize) -> (r: bool)
    ensures
        r == model_fits(n_players as int, n_teams as int, size as int),
{
    if n_teams < 1 || n_teams > 0x7fff_ffff || size < 1 || size as u64 > 0x7fff_ffff_ffff_ffff {
        return false;
    }
    let gaps = n_teams.checked_mul(NUM_CRITERIA);
    let vars = n_players.checked_mul(n_teams);
    match (gaps, vars) {
        (Some(_), Some(v)) => v <= usize::MAX - NUM_CRITERIA,
        _ => false,
    }
}

proof fn lemma_var_in_range(n: int, n_teams: int, p: int, t: int)
    requires
        0 <= p < n,
        0 <= t < n_teams,
    ensures
        0 <= p * n_teams + t < n * n_teams,
{
    assert(0 <= p * n_teams + t < n * n_teams) by (nonlinear_arith)
        requires
            0 <= p < n,
            0 <= t < n_teams,
    ;
}

pub(crate) proof fn lemma_div_below(v: int, n: int, d: int)
    requires
        0 <= v < n * d,
        d > 0,
    ensures
        0 <= v / d < n,
        0 <= v % d < d,
{
    vstd::arithmetic::div_mod::lemma_fundamental_div_mod(v, d);
    vstd::arithmetic::div_mod::lemma_mod_bound(v, d);
    vstd::arithmetic::div_mod::lemma_div_pos_is_pos(v, d);
    let q = v / d;
    if q >= n {
        assert(d * q >= d * n) by (nonlinear_arith)
            requires
                q >= n,
                d > 0,
        ;
        assert(n * d == d * n) by (nonlinear_arith);
    }
}

fn player_row(n_players: usize, n_teams: usize, p: usize) -> (r: LinearConstraint)
    requires
        p < n_players,
        model_fits(n_players as int, n_teams as int, 1),
    ensures
        is_player_row(r, n_teams as int, p as int),
{
    let mut terms: Vec<Term> = Vec::new();
    let mut t: usize = 0;
    while t < n_teams
        invariant
            p < n_players,
            model_fits(n_players as int, n_teams as int, 1),
            t <= n_teams,
            terms@.len() == t,
            forall|u: int|
                0 <= u < t ==> {
                    &&& (#[trigger] terms@[u]).var == team_var(n_teams as int, p as int, u)
                    &&& terms@[u].coef == 1
                },
        decreases n_teams - t,
    {
        proof {
            lemma_var_in_range(n_players as int, n_teams as int, p as int, t as int);
        }
        terms.push(Term { var: p * n_teams + t, coef: 1 });
        t = t + 1;
    }
    LinearConstraint { terms, relation: Relation::Equal, rhs: 1 }
}

fn team_row(n_players: usize, n_teams: usize, t: usize, size: usize) -> (r: LinearConstraint)
    requires
        t < n_teams,
        model_fits(n_players as int, n_teams as int, size as int),
    ensures
        is_team_row(r, n_players as int, n_teams as int, t as int, size as int),
{
    let mut terms: Vec<Term> = Vec::new();
    let mut p: usize = 0;
    while p < n_players
        invariant
            t < n_teams,
            model_fits(n_players as int, n_teams as int, size as int),
            p <= n_players,
            terms@.len() == p,
            forall|q: int|
                0 <= q < p ==> {
                    &&& (#[trigger] terms@[q]).var == team_var(n_teams as int, q, t as int)
                    &&& terms@[q].coef == 1
                },
        decreases n_players - p,
    {
        proof {
            lemma_var_in_range(n_players as int, n_teams as int, p as int, t as int);
        }
        terms.push(Term { var: p * n_teams + t, coef: 1 });
        p = p + 1;
    }
    LinearConstraint { terms, relation: Relation::Equal, rhs: size as i64 }
}

fn fairness_row(players: &Vec<Player>, n_teams: usize, c: usize, t: usize, upward: bool) -> (r:
    LinearConstraint)
    requires
        c < NUM_CRITERIA,
        t < n_teams,
        model_fits(players@.len() as int, n_teams as int, 1),
    ensures
        is_fairness_row(
            r,
            players@,
            n_teams as int,
            c as int,
            t as int,
            if upward {
                1int
            } else {
                -1int
            },
        ),
{
    let ghost sign: int = if upward {
        1int
    } else {
        -1int
    };
    let n = players.len();
    let n_vars = n * n_teams;
    let criterion = Criteria::from_index(c);
    let mut terms: Vec<Term> = Vec::new();
    terms.push(Term { var: n_vars + c, coef: n_teams as i64 });
    let mut v: usize = 0;
    while v < n_vars
        invariant
            c < NUM_CRITERIA,
            t < n_teams,
            n == players@.len(),
            n_vars == n * n_teams,
            criterion.spec_index() == c,
            sign == (if upward {
                1int
            } else {
                -1int
            }),
            model_fits(n as int, n_teams as int, 1),
            v <= n_vars,
            terms@.len() == 1 + v,
            terms@[0].var == gap_var(n as int, n_teams as int, c as int),
            terms@[0].coef == n_teams,
            forall|k: int|
                1 <= k < terms@.len() ==> {
                    &&& (#[trigger] terms@[k]).var == k - 1
                    &&& terms@[k].coef == sign * score_coef(
                        players@,
                        n_teams as int,
                        c as int,
                        t as int,
                        k - 1,
                    )
                },
        decreases n_vars - v,
    {
        proof {
            lemma_div_below(v as int, n as int, n_teams as int);
        }
        let p = v / n_teams;
        let rating = players[p].rating_for(&criterion) as i64;
        let base: i64 = if v % n_teams == t {
            proof {
                assert(-0x8000_0000 * 0x7fff_ffff <= rating * (n_teams - 1) <= 0x7fff_ffff
                    * 0x7fff_ffff) by (nonlinear_arith)
                    requires
                        -0x8000_0000 <= rating <= 0x7fff_ffff,
                        0 <= n_teams - 1 <= 0x7fff_ffff,
                ;
            }
            rating * (n_teams as i64 - 1)
        } else {
            -rating
        };
        let coef = if upward {
            base
        } else {
            -base
        };
        assert(base as int == players@[(v / n_teams) as int].rating(c as int) * (if v % n_teams == t {
            n_teams - 1
        } else {
            -1
        }));
        let ghost sc = score_coef(players@, n_teams as int, c as int, t as int, v as int);
        assert(coef as int == sign * sc) by (nonlinear_arith)
            requires
                base == sc,
                upward ==> sign == 1 && coef == base,
                !upward ==> sign == -1 && coef == -base,
        ;
        terms.push(Term { var: v, coef });
        v = v + 1;
    }
    LinearConstraint { terms, relation: Relation::AtLeast, rhs: 0 }
}

/// Builds the model that splits `players` into `number_of_teams` teams of
/// `players_per_team` players, as evenly as possible on each balanced
/// criterion.
///
/// Every player goes to exactly one team, every team gets exactly
/// `players_per_team` players, and for each balanced criterion and team the
/// criterion's imbalance variable, times the number of teams, is at least the
/// distance between `number_of_teams` times the team's rating sum and the sum
/// over all teams (the team's distance from the average team, scaled). The
/// objective is the sum of the balanced criteria's imbalance variables. The
/// keeper criterion is balanced only when `include_keeper` is set.
pub fn build_model(
    players: &Vec<Player>,
    number_of_teams: usize,
    players_per_team: usize,
    include_keeper: bool,
) -> (m: AssignmentModel)
    requires
        model_fits(players@.len() as int, number_of_teams as int, players_per_team as int),
    ensures
        is_balance_model(
            m,
            players@,
            number_of_teams as int,
            players_per_team as int,
            include_keeper,
        ),
{
    let n = players.len();
    let n_teams = number_of_teams;
    let mut one_team: Vec<LinearConstraint> = Vec::new();
    let mut p: usize = 0;
    while p < n
        invariant
            n == players@.len(),
            model_fits(n as int, n_teams as int, players_per_team as int),
            p <= n,
            one_team@.len() == p,
            forall|q: int| 0 <= q < p ==> is_player_row(#[trigger] one_team@[q], n_teams as int, q),
        decreases n - p,
    {
        one_team.push(player_row(n, n_teams, p));
        p = p + 1;
    }
    let mut team_size: Vec<LinearConstraint> = Vec::new();
    let mut t: usize = 0;
    while t < n_teams
        invariant
            n == players@.len(),
            model_fits(n as int, n_teams as int, players_per_team as int),
            t <= n_teams,
            team_size@.len() == t,
            forall|u: int|
                0 <= u < t ==> is_team_row(
                    #[trigger] team_size@[u],
                    n as int,
                    n_teams as int,
                    u,
                    players_per_team as int,
                ),
        decreases n_teams - t,
    {
        team_size.push(team_row(n, n_teams, t, players_per_team));
        t = t + 1;
    }
    let first: usize = if include_keeper {
        0
    } else {
        1
    };
    let n_balanced = NUM_CRITERIA - first;
    assert(n_balanced * n_teams <= NUM_CRITERIA * n_teams) by (nonlinear_arith)
        requires
            n_balanced <= NUM_CRITERIA,
            n_teams >= 1,
    ;
    let n_bounds = n_balanced * n_teams;
    let mut fairness: Vec<FairnessBound> = Vec::new();
    let mut j: usize = 0;
    while j < n_bounds
        invariant
            n == players@.len(),
            model_fits(n as int, n_teams as int, players_per_team as int),
            first == first_balanced(include_keeper),
            n_balanced == NUM_CRITERIA - first,
            n_bounds == n_balanced * n_teams,
            j <= n_bounds,
            fairness@.len() == j,
            forall|i: int|
                0 <= i < j ==> {
                    let f = #[trigger] fairness@[i];
                    &&& f.criterion == first + i / n_teams as int
                    &&& f.team == i % n_teams as int
                    &&& is_fairness_row(
                        f.above,
                        players@,
                        n_teams as int,
                        f.criterion as int,
                        f.team as int,
                        -1,
                    )
                    &&& is_fairness_row(
                        f.below,
                        players@,
                        n_teams as int,
                        f.criterion as int,
                        f.team as int,
                        1,
                    )
                },
        decreases n_bounds - j,
    {
        proof {
            lemma_div_below(j as int, n_balanced as int, n_teams as int);
        }
        let c = first + j / n_teams;
        let team = j % n_teams;
        let above = fairness_row(players, n_teams, c, team, false);
        let below = fairness_row(players, n_teams, c, team, true);
        fairness.push(FairnessBound { criterion: c, team, above, below });
        j = j + 1;
    }
    let mut objective: Vec<usize> = Vec::new();
    let mut c: usize = first;
    while c < NUM_CRITERIA
        invariant
            n == players@.len(),
            model_fits(n as int, n_teams as int, players_per_team as int),
            first == first_balanced(include_keeper),
            first <= c <= NUM_CRITERIA,
            objective@.len() == c - first,
            forall|k: int|
                0 <= k < objective@.len() ==> #[trigger] objective@[k] == gap_var(
                    n as int,
                    n_teams as int,
                    first + k,
                ),
        decreases NUM_CRITERIA - c,
    {
        objective.push(n * n_teams + c);
        c = c + 1;
    }
    AssignmentModel {
        num_players: n,
        num_teams: n_teams,
        players_per_team,
        one_team,
        team_size,
        fairness,
        objective,
    }
}

} // verus!
