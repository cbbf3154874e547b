use vstd::prelude::*;

use crate::model::{
    first_balanced, gap_var, is_balance_model, is_fairness_row, score_coef, AssignmentModel, Term,
};
use crate::player::{Criteria, Player, NUM_CRITERIA};
use crate::model::{is_player_row, is_team_row};
use crate::solution::{lemma_uneven_roster_has_wrong_team, members, valid_assignment};

verus! {

/// Sum of criterion `c`'s ratings over the first `n` players that the assignment
/// puts in team `t`.
pub open spec fn team_score(players: Seq<Player>, a: Seq<usize>, c: int, t: int, n: int) -> int
    decreases n,
{
    if n <= 0 {
        0
    } else {
        team_score(players, a, c, t, n - 1) + if a[n - 1] == t {
            players[n - 1].rating(c)
        } else {
            0
        }
    }
}

/// Sum of criterion `c`'s ratings over the first `n` players.
pub open spec fn total_score(players: Seq<Player>, c: int, n: int) -> int
    decreases n,
{
    if n <= 0 {
        0
    } else {
        total_score(players, c, n - 1) + players[n - 1].rating(c)
    }
}

pub open spec fn abs(x: int) -> int {
    if x < 0 {
        -x
    } else {
        x
    }
}

/// How far team `t`'s score for criterion `c` is from the average team's,
/// scaled by the number of teams: `|n_teams * score(t) - total|`.
pub open spec fn scaled_deviation(
    players: Seq<Player>,
    a: Seq<usize>,
    n_teams: int,
    c: int,
    t: int,
) -> int {
    let n = players.len() as int;
    abs(n_teams * team_score(players, a, c, t, n) - total_score(players, c, n))
}

/// Largest scaled deviation for criterion `c` over the first `k` teams.
pub open spec fn max_deviation(
    players: Seq<Player>,
    a: Seq<usize>,
    n_teams: int,
    c: int,
    k: int,
) -> int
    decreases k,
{
    if k <= 0 {
        0
    } else {
        let rest = max_deviation(players, a, n_teams, c, k - 1);
        let d = scaled_deviation(players, a, n_teams, c, k - 1);
        if d > rest {
            d
        } else {
            rest
        }
    }
}

/// Sum of the largest scaled deviations of criteria `c .. NUM_CRITERIA`: the
/// smallest objective value that the assignment allows, times the number of
/// teams.
pub open spec fn objective_from(
    players: Seq<Player>,
    a: Seq<usize>,
    n_teams: int,
    c: int,
) -> int
    decreases NUM_CRITERIA - c,
{
    if c >= NUM_CRITERIA || c < 0 {
        0
    } else {
        max_deviation(players, a, n_teams, c, n_teams) + objective_from(players, a, n_teams, c + 1)
    }
}

/// The imbalance variable of a criterion can be no smaller than the largest
/// deviation of a team from the average team, and that largest deviation is one
/// team's: for every team `t`, `max_deviation` bounds its deviation, and some
/// team reaches it.
pub proof fn lemma_gap_bounds_every_team(
    players: Seq<Player>,
    a: Seq<usize>,
    n_teams: int,
    c: int,
    k: int,
)
    requires
        k >= 1,
    ensures
        forall|t: int|
            0 <= t < k ==> #[trigger] scaled_deviation(players, a, n_teams, c, t) <= max_deviation(
                players,
                a,
                n_teams,
                c,
                k,
            ),
        exists|t: int|
            0 <= t < k && #[trigger] scaled_deviation(players, a, n_teams, c, t) == max_deviation(
                players,
                a,
                n_teams,
                c,
                k,
            ),
    decreases k,
{
    let d = scaled_deviation(players, a, n_teams, c, k - 1);
    assert(d >= 0);
    if k > 1 {
        lemma_gap_bounds_every_team(players, a, n_teams, c, k - 1);
        if d <= max_deviation(players, a, n_teams, c, k - 1) {
            let t0 = choose|t0: int|
                0 <= t0 < k - 1 && #[trigger] scaled_deviation(players, a, n_teams, c, t0)
                    == max_deviation(players, a, n_teams, c, k - 1);
            assert(scaled_deviation(players, a, n_teams, c, t0) == max_deviation(
                players,
                a,
                n_teams,
                c,
                k,
            ));
        }
    }
}

/// Two rosters that differ at most in their keeper ratings.
pub open spec fn same_but_keeper(ps1: Seq<Player>, ps2: Seq<Player>) -> bool {
    &&& ps1.len() == ps2.len()
    &&& forall|p: int, c: int|
        0 <= p < ps1.len() && 1 <= c < NUM_CRITERIA ==> #[trigger] ps1[p].rating(c) == ps2[p].rating(
            c,
        )
}

proof fn lemma_scores_ignore_keeper(ps1: Seq<Player>, ps2: Seq<Player>, a: Seq<usize>, c: int, t: int, n: int)
    requires
        same_but_keeper(ps1, ps2),
        1 <= c < NUM_CRITERIA,
        n <= ps1.len(),
    ensures
        team_score(ps1, a, c, t, n) == team_score(ps2, a, c, t, n),
        total_score(ps1, c, n) == total_score(ps2, c, n),
    decreases n,
{
    if n > 0 {
        lemma_scores_ignore_keeper(ps1, ps2, a, c, t, n - 1);
        assert(ps1[n - 1].rating(c) == ps2[n - 1].rating(c));
    }
}

proof fn lemma_max_ignores_keeper(ps1: Seq<Player>, ps2: Seq<Player>, a: Seq<usize>, n_teams: int, c: int, k: int)
    requires
        same_but_keeper(ps1, ps2),
        1 <= c < NUM_CRITERIA,
    ensures
        max_deviation(ps1, a, n_teams, c, k) == max_deviation(ps2, a, n_teams, c, k),
    decreases k,
{
    if k > 0 {
        lemma_max_ignores_keeper(ps1, ps2, a, n_teams, c, k - 1);
        lemma_scores_ignore_keeper(ps1, ps2, a, c, k - 1, ps1.len() as int);
    }
}

proof fn lemma_objective_ignores_keeper(ps1: Seq<Player>, ps2: Seq<Player>, a: Seq<usize>, n_teams: int, c: int)
    requires
        same_but_keeper(ps1, ps2),
        c >= 1,
    ensures
        objective_from(ps1, a, n_teams, c) == objective_from(ps2, a, n_teams, c),
    decreases NUM_CRITERIA - c,
{
    if c < NUM_CRITERIA {
        lemma_objective_ignores_keeper(ps1, ps2, a, n_teams, c + 1);
        lemma_max_ignores_keeper(ps1, ps2, a, n_teams, c, n_teams);
    }
}

/// Keeper ratings do not enter the balancing when the keeper is left out: two
/// rosters that differ only there give every assignment the same objective
/// value, and the model built for one is the model for the other, so the
/// optimum and the partitions that reach it are the same.
pub proof fn lemma_keeper_excluded(
    ps1: Seq<Player>,
    ps2: Seq<Player>,
    a: Seq<usize>,
    m: crate::model::AssignmentModel,
    n_teams: int,
    size: int,
)
    requires
        same_but_keeper(ps1, ps2),
    ensures
        objective_from(ps1, a, n_teams, first_balanced(false)) == objective_from(
            ps2,
            a,
            n_teams,
            first_balanced(false),
        ),
        is_balance_model(m, ps1, n_teams, size, false) <==> is_balance_model(
            m,
            ps2,
            n_teams,
            size,
            false,
        ),
{
    lemma_objective_ignores_keeper(ps1, ps2, a, n_teams, 1);
    if n_teams > 0 {
        assert forall|j: int| 0 <= j < 5 * n_teams implies ({
            let f = #[trigger] m.fairness@[j];
            &&& is_fairness_row(f.above, ps1, n_teams, 1 + j / n_teams, j % n_teams, -1)
                == is_fairness_row(f.above, ps2, n_teams, 1 + j / n_teams, j % n_teams, -1)
            &&& is_fairness_row(f.below, ps1, n_teams, 1 + j / n_teams, j % n_teams, 1)
                == is_fairness_row(f.below, ps2, n_teams, 1 + j / n_teams, j % n_teams, 1)
        }) by {
            crate::model::lemma_div_below(j, 5, n_teams);
            let f = m.fairness@[j];
            lemma_fairness_row_ignores_keeper(f.above, ps1, ps2, n_teams, 1 + j / n_teams, j % n_teams, -1);
            lemma_fairness_row_ignores_keeper(f.below, ps1, ps2, n_teams, 1 + j / n_teams, j % n_teams, 1);
        }
    }
}

proof fn lemma_fairness_row_ignores_keeper(
    row: crate::model::LinearConstraint,
    ps1: Seq<Player>,
    ps2: Seq<Player>,
    n_teams: int,
    c: int,
    t: int,
    sign: int,
)
    requires
        same_but_keeper(ps1, ps2),
        1 <= c < NUM_CRITERIA,
        n_teams > 0,
    ensures
        is_fairness_row(row, ps1, n_teams, c, t, sign) == is_fairness_row(
            row,
            ps2,
            n_teams,
            c,
            t,
            sign,
        ),
{
    if is_fairness_row(row, ps1, n_teams, c, t, sign) || is_fairness_row(row, ps2, n_teams, c, t, sign) {
        assert forall|k: int| 1 <= k < row.terms@.len() implies #[trigger] row.terms@[k].coef == sign
            * score_coef(ps1, n_teams, c, t, k - 1) <==> row.terms@[k].coef == sign * score_coef(
            ps2,
            n_teams,
            c,
            t,
            k - 1,
        ) by {
            crate::model::lemma_div_below(k - 1, ps1.len() as int, n_teams);
            assert(ps1[(k - 1) / n_teams].rating(c) == ps2[(k - 1) / n_teams].rating(c));
        }
    }
}

proof fn lemma_score_bounds(players: Seq<Player>, a: Seq<usize>, c: int, t: int, n: int)
    requires
        0 <= c < NUM_CRITERIA,
        0 <= n <= players.len(),
    ensures
        abs(team_score(players, a, c, t, n)) <= n * 0x8000_0000,
        abs(total_score(players, c, n)) <= n * 0x8000_0000,
    decreases n,
{
    if n > 0 {
        lemma_score_bounds(players, a, c, t, n - 1);
        let r = players[n - 1].rating(c);
        assert(-0x8000_0000 <= r < 0x8000_0000);
    }
}

/// The largest deviation of a team from the average team for a criterion, scaled
/// by the number of teams: the least value, times `number_of_teams`, that the
/// criterion's imbalance variable can take under this assignment.
pub fn imbalance(players: &Vec<Player>, a: &Vec<usize>, number_of_teams: usize, c: &Criteria) -> (r:
    i128)
    requires
        a@.len() == players@.len(),
        valid_assignment(a@, number_of_teams as int),
        1 <= number_of_teams <= 0x7fff_ffff,
        players@.len() * number_of_teams <= usize::MAX,
    ensures
        r == max_deviation(players@, a@, number_of_teams as int, c.spec_index(), number_of_teams as int),
{
    let n = players.len();
    let ghost ci = c.spec_index();
    let mut scores: Vec<i128> = Vec::new();
    let mut t: usize = 0;
    while t < number_of_teams
        invariant
            t <= number_of_teams,
            scores@.len() == t,
            forall|u: int| 0 <= u < t ==> #[trigger] scores@[u] == 0,
        decreases number_of_teams - t,
    {
        scores.push(0);
        t = t + 1;
    }
    let mut total: i128 = 0;
    let mut p: usize = 0;
    while p < n
        invariant
            n == players@.len() == a@.len(),
            valid_assignment(a@, number_of_teams as int),
            ci == c.spec_index(),
            0 <= ci < NUM_CRITERIA,
            n * number_of_teams <= usize::MAX,
            number_of_teams >= 1,
            p <= n,
            scores@.len() == number_of_teams,
            total == total_score(players@, ci, p as int),
            forall|u: int|
                0 <= u < number_of_teams ==> #[trigger] scores@[u] == team_score(
                    players@,
                    a@,
                    ci,
                    u,
                    p as int,
                ),
        decreases n - p,
    {
        let team = a[p];
        let r = players[p].rating_for(c);
        proof {
            lemma_score_bounds(players@, a@, ci, team as int, p as int);
            assert(n <= usize::MAX) by (nonlinear_arith)
                requires
                    n * number_of_teams <= usize::MAX,
                    number_of_teams >= 1,
            ;
            assert((p + 1) * 0x8000_0000 <= 0x8000_0000 * 0xffff_ffff_ffff_ffff) by (nonlinear_arith)
                requires
                    p < n <= 0xffff_ffff_ffff_ffff,
            ;
        }
        scores.set(team, scores[team] + r as i128);
        total = total + r as i128;
        p = p + 1;
        proof {
            assert forall|u: int| 0 <= u < number_of_teams implies #[trigger] scores@[u] == team_score(
                players@,
                a@,
                ci,
                u,
                p as int,
            ) by {
                if u != team as int {
                    assert(team_score(players@, a@, ci, u, p as int) == team_score(
                        players@,
                        a@,
                        ci,
                        u,
                        p - 1,
                    ));
                }
            }
        }
    }
    let nt = number_of_teams as i128;
    let mut best: i128 = 0;
    let mut t: usize = 0;
    while t < number_of_teams
        invariant
            n == players@.len() == a@.len(),
            ci == c.spec_index(),
            0 <= ci < NUM_CRITERIA,
            n * number_of_teams <= usize::MAX,
            1 <= number_of_teams <= 0x7fff_ffff,
            nt == number_of_teams,
            t <= number_of_teams,
            scores@.len() == number_of_teams,
            total == total_score(players@, ci, n as int),
            forall|u: int|
                0 <= u < number_of_teams ==> #[trigger] scores@[u] == team_score(
                    players@,
                    a@,
                    ci,
                    u,
                    n as int,
                ),
            best == max_deviation(players@, a@, number_of_teams as int, ci, t as int),
        decreases number_of_teams - t,
    {
        let s = scores[t];
        proof {
            lemma_score_bounds(players@, a@, ci, t as int, n as int);
            assert(n * number_of_teams <= 0xffff_ffff_ffff_ffff);
            assert(n <= n * number_of_teams) by (nonlinear_arith)
                requires
                    number_of_teams >= 1,
                    n >= 0,
            ;
            assert(s == team_score(players@, a@, ci, t as int, n as int));
            let nn = n as int;
            let tt = nt as int;
            let ss = s as int;
            assert(-(tt * (nn * 0x8000_0000)) <= tt * ss <= tt * (nn * 0x8000_0000)) by (nonlinear_arith)
                requires
                    -(nn * 0x8000_0000) <= ss <= nn * 0x8000_0000,
                    tt >= 1,
            ;
            assert(tt * (nn * 0x8000_0000) == (nn * tt) * 0x8000_0000) by (nonlinear_arith);
            assert(nn * tt <= 0xffff_ffff_ffff_ffff);
            assert(-0x8000_0000 * 0xffff_ffff_ffff_ffff <= nt * s <= 0x8000_0000 * 0xffff_ffff_ffff_ffff);
        }
        let diff = nt * s - total;
        let d = if diff < 0 {
            -diff
        } else {
            diff
        };
        if d > best {
            best = d;
        }
        t = t + 1;
    }
    best
}

/// The objective value that the assignment allows, times `number_of_teams`: the
/// sum over the balanced criteria of each one's largest scaled deviation. The
/// keeper counts only when `include_keeper` is set.
pub fn fairness_objective(
    players: &Vec<Player>,
    a: &Vec<usize>,
    number_of_teams: usize,
    include_keeper: bool,
) -> (r: i128)
    requires
        a@.len() == players@.len(),
        valid_assignment(a@, number_of_teams as int),
        1 <= number_of_teams <= 0x7fff_ffff,
        players@.len() * number_of_teams <= usize::MAX,
    ensures
        r == objective_from(players@, a@, number_of_teams as int, first_balanced(include_keeper)),
{
    let first: usize = if include_keeper {
        0
    } else {
        1
    };
    let mut sum: i128 = 0;
    let mut c: usize = NUM_CRITERIA;
    while c > first
        invariant
            first == first_balanced(include_keeper),
            first <= c <= NUM_CRITERIA,
            a@.len() == players@.len(),
            valid_assignment(a@, number_of_teams as int),
            1 <= number_of_teams <= 0x7fff_ffff,
            players@.len() * number_of_teams <= usize::MAX,
            sum == objective_from(players@, a@, number_of_teams as int, c as int),
            0 <= sum <= (NUM_CRITERIA - c) * 0x1_0000_0000_0000_0000_0000_0000,
        decreases c,
    {
        c = c - 1;
        let crit = Criteria::from_index(c);
        let m = imbalance(players, a, number_of_teams, &crit);
        proof {
            lemma_deviation_bound(players@, a@, number_of_teams as int, c as int, number_of_teams as int);
        }
        sum = sum + m;
    }
    sum
}

proof fn lemma_deviation_bound(players: Seq<Player>, a: Seq<usize>, n_teams: int, c: int, k: int)
    requires
        0 <= c < NUM_CRITERIA,
        1 <= n_teams <= 0x7fff_ffff,
        players.len() * n_teams <= 0xffff_ffff_ffff_ffff,
    ensures
        0 <= max_deviation(players, a, n_teams, c, k) <= 0x1_0000_0000_0000_0000_0000_0000,
    decreases k,
{
    if k > 0 {
        lemma_deviation_bound(players, a, n_teams, c, k - 1);
        let n = players.len() as int;
        lemma_score_bounds(players, a, c, k - 1, n);
        let s = team_score(players, a, c, k - 1, n);
        let tot = total_score(players, c, n);
        assert(abs(n_teams * s) <= 0x8000_0000 * 0xffff_ffff_ffff_ffff) by (nonlinear_arith)
            requires
                abs(s) <= n * 0x8000_0000,
                n * n_teams <= 0xffff_ffff_ffff_ffff,
                n_teams >= 1,
                n >= 0,
        ;
        assert(abs(tot) <= 0x8000_0000 * 0xffff_ffff_ffff_ffff) by (nonlinear_arith)
            requires
                abs(tot) <= n * 0x8000_0000,
                n * n_teams <= 0xffff_ffff_ffff_ffff,
                n_teams >= 1,
                n >= 0,
        ;
    }
}

/// Value of a linear expression at the variable values `x`.
pub open spec fn terms_value(terms: Seq<Term>, x: Seq<int>) -> int
    decreases terms.len(),
{
    if terms.len() == 0 {
        0
    } else {
        terms_value(terms.drop_last(), x) + terms.last().coef * x[terms.last().var as int]
    }
}

/// The values of a model's variables for an assignment: each team variable is
/// one exactly when the assignment puts its player in its team, and criterion
/// `c`'s imbalance variable is `gaps[c]`.
pub open spec fn assignment_values(a: Seq<usize>, n_teams: int, gaps: Seq<int>) -> Seq<int> {
    let n_vars = a.len() * n_teams;
    Seq::new(
        (n_vars + NUM_CRITERIA) as nat,
        |v: int|
            if v < n_vars {
                if a[v / n_teams] == v % n_teams {
                    1int
                } else {
                    0int
                }
            } else {
                gaps[v - n_vars]
            },
    )
}

/// Sum of `score_coef(v) * x[v]` over the team variables `v < k`.
pub open spec fn coef_sum(
    players: Seq<Player>,
    x: Seq<int>,
    n_teams: int,
    c: int,
    t: int,
    k: int,
) -> int
    decreases k,
{
    if k <= 0 {
        0
    } else {
        coef_sum(players, x, n_teams, c, t, k - 1) + score_coef(players, n_teams, c, t, k - 1) * x[k
            - 1]
    }
}

proof fn lemma_coef_sum_player(
    players: Seq<Player>,
    a: Seq<usize>,
    gaps: Seq<int>,
    n_teams: int,
    c: int,
    t: int,
    p: int,
    j: int,
)
    requires
        a.len() == players.len(),
        valid_assignment(a, n_teams),
        n_teams >= 1,
        0 <= p < players.len(),
        0 <= j <= n_teams,
    ensures
        ({
            let x = assignment_values(a, n_teams, gaps);
            let r = players[p].rating(c);
            coef_sum(players, x, n_teams, c, t, p * n_teams + j) == coef_sum(
                players,
                x,
                n_teams,
                c,
                t,
                p * n_teams,
            ) + if a[p] < j {
                r * (if a[p] == t {
                    n_teams - 1
                } else {
                    -1
                })
            } else {
                0
            }
        }),
    decreases j,
{
    if j > 0 {
        lemma_coef_sum_player(players, a, gaps, n_teams, c, t, p, j - 1);
        let v = p * n_teams + j - 1;
        let x = assignment_values(a, n_teams, gaps);
        vstd::arithmetic::div_mod::lemma_fundamental_div_mod_converse(v, n_teams, p, j - 1);
        let nn = players.len() as int;
        assert((p + 1) * n_teams <= nn * n_teams) by (nonlinear_arith)
            requires
                p + 1 <= nn,
                n_teams >= 1,
        ;
        assert((p + 1) * n_teams == p * n_teams + n_teams) by (nonlinear_arith);
        assert(v < players.len() * n_teams);
        assert(v >= 0) by (nonlinear_arith)
            requires
                v == p * n_teams + j - 1,
                j >= 1,
                p >= 0,
                n_teams >= 1,
        ;
        let r = players[p].rating(c);
        assert(score_coef(players, n_teams, c, t, v) == r * (if j - 1 == t {
            n_teams - 1
        } else {
            -1
        }));
        if a[p] == j - 1 {
            assert(x[v] == 1);
        } else {
            assert(x[v] == 0);
        }
    }
}

proof fn lemma_coef_sum_scores(
    players: Seq<Player>,
    a: Seq<usize>,
    gaps: Seq<int>,
    n_teams: int,
    c: int,
    t: int,
    p: int,
)
    requires
        a.len() == players.len(),
        valid_assignment(a, n_teams),
        n_teams >= 1,
        0 <= p <= players.len(),
    ensures
        coef_sum(players, assignment_values(a, n_teams, gaps), n_teams, c, t, p * n_teams)
            == n_teams * team_score(players, a, c, t, p) - total_score(players, c, p),
    decreases p,
{
    if p > 0 {
        lemma_coef_sum_scores(players, a, gaps, n_teams, c, t, p - 1);
        lemma_coef_sum_player(players, a, gaps, n_teams, c, t, p - 1, n_teams);
        assert((p - 1) * n_teams + n_teams == p * n_teams) by (nonlinear_arith);
        let r = players[p - 1].rating(c);
        assert(n_teams * team_score(players, a, c, t, p) == n_teams * team_score(
            players,
            a,
            c,
            t,
            p - 1,
        ) + n_teams * (if a[p - 1] == t {
            r
        } else {
            0
        })) by (nonlinear_arith)
            requires
                team_score(players, a, c, t, p) == team_score(players, a, c, t, p - 1) + (if a[p
                    - 1] == t {
                    r
                } else {
                    0
                }),
        ;
        assert(r * (n_teams - 1) == n_teams * r - r) by (nonlinear_arith);
    } else {
        assert(0 * n_teams == 0);
    }
}

proof fn lemma_row_prefix(
    row: crate::model::LinearConstraint,
    players: Seq<Player>,
    a: Seq<usize>,
    gaps: Seq<int>,
    n_teams: int,
    c: int,
    t: int,
    sign: int,
    m: int,
)
    requires
        is_fairness_row(row, players, n_teams, c, t, sign),
        a.len() == players.len(),
        n_teams >= 1,
        0 <= c < NUM_CRITERIA,
        gaps.len() == NUM_CRITERIA,
        sign == 1 || sign == -1,
        1 <= m <= row.terms@.len(),
    ensures
        ({
            let x = assignment_values(a, n_teams, gaps);
            terms_value(row.terms@.take(m), x) == n_teams * gaps[c] + sign * coef_sum(
                players,
                x,
                n_teams,
                c,
                t,
                m - 1,
            )
        }),
    decreases m,
{
    let x = assignment_values(a, n_teams, gaps);
    let n_vars = players.len() * n_teams;
    if m == 1 {
        assert(row.terms@.take(1).drop_last() =~= Seq::<Term>::empty());
        assert(row.terms@.take(1).last() == row.terms@[0]);
        assert(x[gap_var(players.len() as int, n_teams, c)] == gaps[c]);
        assert(sign * coef_sum(players, x, n_teams, c, t, 0) == 0);
        assert(terms_value(row.terms@.take(1).drop_last(), x) == 0);
        assert(terms_value(row.terms@.take(1), x) == n_teams * gaps[c]);
    } else {
        lemma_row_prefix(row, players, a, gaps, n_teams, c, t, sign, m - 1);
        assert(row.terms@.take(m).drop_last() =~= row.terms@.take(m - 1));
        let term = row.terms@[m - 1];
        assert(term.var == m - 2);
        let sc = score_coef(players, n_teams, c, t, m - 2);
        assert(term.coef == sign * sc);
        let xv = x[m - 2];
        assert(row.terms@.take(m).last() == term);
        assert(term.coef * xv == sign * (sc * xv)) by (nonlinear_arith)
            requires
                term.coef == sign * sc,
        ;
        let prev = coef_sum(players, x, n_teams, c, t, m - 2);
        assert(coef_sum(players, x, n_teams, c, t, m - 1) == prev + sc * xv);
        assert(sign * (prev + sc * xv) == sign * prev + sign * (sc * xv)) by (nonlinear_arith);
        assert(terms_value(row.terms@.take(m - 1), x) == n_teams * gaps[c] + sign * prev);
        assert(terms_value(row.terms@.take(m), x) == terms_value(row.terms@.take(m - 1), x) + term.coef * x[term.var as int]);
        assert(x[term.var as int] == xv);
    }
}

/// At the values an assignment gives the team variables, with `gaps` as the
/// imbalance variables, the two fairness rows of criterion `f.criterion` and
/// team `f.team` hold exactly when the criterion's imbalance variable, times the
/// number of teams, is at least that team's scaled deviation from the average
/// team. So the least imbalance the model allows an assignment is
/// `max_deviation`, which bounds every team's deviation.
pub proof fn lemma_fairness_rows_bound_deviation(
    m: AssignmentModel,
    players: Seq<Player>,
    a: Seq<usize>,
    n_teams: int,
    size: int,
    include_keeper: bool,
    gaps: Seq<int>,
    j: int,
)
    requires
        is_balance_model(m, players, n_teams, size, include_keeper),
        a.len() == players.len(),
        valid_assignment(a, n_teams),
        n_teams >= 1,
        gaps.len() == NUM_CRITERIA,
        0 <= j < m.fairness@.len(),
    ensures
        ({
            let f = m.fairness@[j];
            let x = assignment_values(a, n_teams, gaps);
            (terms_value(f.above.terms@, x) >= f.above.rhs && terms_value(f.below.terms@, x)
                >= f.below.rhs) <==> n_teams * gaps[f.criterion as int] >= scaled_deviation(
                players,
                a,
                n_teams,
                f.criterion as int,
                f.team as int,
            )
        }),
{
    let f = m.fairness@[j];
    let first = first_balanced(include_keeper);
    crate::model::lemma_div_below(j, NUM_CRITERIA - first, n_teams);
    let c = f.criterion as int;
    let t = f.team as int;
    let x = assignment_values(a, n_teams, gaps);
    let n = players.len() as int;
    let len = 1 + n * n_teams;
    lemma_row_prefix(f.above, players, a, gaps, n_teams, c, t, -1, len);
    lemma_row_prefix(f.below, players, a, gaps, n_teams, c, t, 1, len);
    assert(f.above.terms@.take(len) =~= f.above.terms@);
    assert(f.below.terms@.take(len) =~= f.below.terms@);
    lemma_coef_sum_scores(players, a, gaps, n_teams, c, t, n);
}

proof fn lemma_x_team(a: Seq<usize>, n_teams: int, gaps: Seq<int>, p: int, t: int)
    requires
        valid_assignment(a, n_teams),
        n_teams >= 1,
        0 <= p < a.len(),
        0 <= t < n_teams,
    ensures
        0 <= p * n_teams + t < a.len() * n_teams,
        assignment_values(a, n_teams, gaps)[p * n_teams + t] == if a[p] == t {
            1int
        } else {
            0int
        },
{
    vstd::arithmetic::div_mod::lemma_fundamental_div_mod_converse(p * n_teams + t, n_teams, p, t);
    assert(0 <= p * n_teams + t < a.len() * n_teams) by (nonlinear_arith)
        requires
            0 <= p < a.len(),
            0 <= t < n_teams,
    ;
}

proof fn lemma_player_row_prefix(
    row: crate::model::LinearConstraint,
    a: Seq<usize>,
    gaps: Seq<int>,
    n_teams: int,
    p: int,
    k: int,
)
    requires
        is_player_row(row, n_teams, p),
        valid_assignment(a, n_teams),
        n_teams >= 1,
        0 <= p < a.len(),
        0 <= k <= n_teams,
    ensures
        terms_value(row.terms@.take(k), assignment_values(a, n_teams, gaps)) == if a[p] < k {
            1int
        } else {
            0int
        },
    decreases k,
{
    let x = assignment_values(a, n_teams, gaps);
    if k == 0 {
        assert(row.terms@.take(0) =~= Seq::<Term>::empty());
    } else {
        lemma_player_row_prefix(row, a, gaps, n_teams, p, k - 1);
        assert(row.terms@.take(k).drop_last() =~= row.terms@.take(k - 1));
        assert(row.terms@.take(k).last() == row.terms@[k - 1]);
        lemma_x_team(a, n_teams, gaps, p, k - 1);
    }
}

proof fn lemma_team_row_prefix(
    row: crate::model::LinearConstraint,
    a: Seq<usize>,
    gaps: Seq<int>,
    n_teams: int,
    t: int,
    size: int,
    k: int,
)
    requires
        is_team_row(row, a.len() as int, n_teams, t, size),
        valid_assignment(a, n_teams),
        n_teams >= 1,
        0 <= t < n_teams,
        0 <= k <= a.len(),
    ensures
        terms_value(row.terms@.take(k), assignment_values(a, n_teams, gaps)) == members(
            a,
            t,
            k,
        ).len(),
    decreases k,
{
    if k == 0 {
        assert(row.terms@.take(0) =~= Seq::<Term>::empty());
    } else {
        lemma_team_row_prefix(row, a, gaps, n_teams, t, size, k - 1);
        assert(row.terms@.take(k).drop_last() =~= row.terms@.take(k - 1));
        assert(row.terms@.take(k).last() == row.terms@[k - 1]);
        lemma_x_team(a, n_teams, gaps, k - 1, t);
    }
}

/// At the values an assignment gives the team variables, every row that puts a
/// player in exactly one team holds, and the row of team `t` holds exactly when
/// the assignment gives that team the requested number of players. A roster
/// whose size is not the number of teams times the team size therefore leaves
/// some team row broken under every assignment: the model has no solution.
pub proof fn lemma_assignment_rows(
    m: AssignmentModel,
    players: Seq<Player>,
    a: Seq<usize>,
    n_teams: int,
    size: int,
    include_keeper: bool,
    gaps: Seq<int>,
)
    requires
        is_balance_model(m, players, n_teams, size, include_keeper),
        a.len() == players.len(),
        valid_assignment(a, n_teams),
        n_teams >= 1,
    ensures
        forall|p: int|
            0 <= p < players.len() ==> terms_value(
                (#[trigger] m.one_team@[p]).terms@,
                assignment_values(a, n_teams, gaps),
            ) == m.one_team@[p].rhs,
        forall|t: int|
            0 <= t < n_teams ==> (terms_value(
                (#[trigger] m.team_size@[t]).terms@,
                assignment_values(a, n_teams, gaps),
            ) == m.team_size@[t].rhs <==> members(a, t, a.len() as int).len() == size),
        players.len() != n_teams * size ==> exists|t: int|
            0 <= t < n_teams && terms_value(
                (#[trigger] m.team_size@[t]).terms@,
                assignment_values(a, n_teams, gaps),
            ) != m.team_size@[t].rhs,
{
    let x = assignment_values(a, n_teams, gaps);
    assert forall|p: int| 0 <= p < players.len() implies terms_value(
        (#[trigger] m.one_team@[p]).terms@,
        x,
    ) == m.one_team@[p].rhs by {
        let row = m.one_team@[p];
        lemma_player_row_prefix(row, a, gaps, n_teams, p, n_teams);
        assert(row.terms@.take(n_teams) =~= row.terms@);
    }
    assert forall|t: int| 0 <= t < n_teams implies (terms_value(
        (#[trigger] m.team_size@[t]).terms@,
        x,
    ) == m.team_size@[t].rhs <==> members(a, t, a.len() as int).len() == size) by {
        let row = m.team_size@[t];
        lemma_team_row_prefix(row, a, gaps, n_teams, t, size, a.len() as int);
        assert(row.terms@.take(a.len() as int) =~= row.terms@);
    }
    if players.len() != n_teams * size {
        lemma_uneven_roster_has_wrong_team(a, n_teams, size);
        let t0 = choose|t0: int|
            0 <= t0 < n_teams && #[trigger] members(a, t0, a.len() as int).len() != size;
        assert(terms_value(m.team_size@[t0].terms@, x) != m.team_size@[t0].rhs);
    }
}

} // verus!
