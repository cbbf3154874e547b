use vstd::prelude::*;

use crate::player::Player;

verus! {

/// Solver values are handed over in thousandths.
pub const VALUE_SCALE: i64 = 1000;

/// A team variable above this many thousandths puts the player in that team.
pub const MEMBERSHIP_THRESHOLD: i64 = 500;

/// Why a roster cannot be laid out as teams of the requested size.
#[derive(Clone, Copy, Debug, PartialEq, Eq, Structural)]
pub enum LayoutError {
    /// Teams of zero players were requested.
    ZeroTeamSize,
    /// Fewer players were selected than one team needs.
    TooFewPlayers,
    /// The players do not divide evenly into teams of the requested size.
    UnevenSplit,
}

/// Why a solver's answer does not describe a partition into teams.
#[derive(Clone, Copy, Debug, PartialEq, Eq, Structural)]
pub enum SolutionError {
    /// Fewer values than team variables were handed over.
    MissingValues,
    /// No team variable of this player is set.
    Unassigned(usize),
    /// More than one team variable of this player is set.
    SeveralTeams(usize),
    /// This team does not have the requested number of players.
    WrongTeamSize(usize),
}

/// Number of teams of `players_per_team` players that `n_selected` players make,
/// rejecting a roster that leaves players over.
pub fn number_of_teams(n_selected: usize, players_per_team: usize) -> (r: Result<
    usize,
    LayoutError,
>)
    ensures
        players_per_team == 0 <==> r == Err::<usize, LayoutError>(LayoutError::ZeroTeamSize),
        r == Err::<usize, LayoutError>(LayoutError::TooFewPlayers) <==> (players_per_team > 0
            && n_selected < players_per_team),
        r == Err::<usize, LayoutError>(LayoutError::UnevenSplit) <==> (players_per_team > 0
            && n_selected >= players_per_team && n_selected % players_per_team != 0),
        r matches Ok(t) ==> t >= 1 && t * players_per_team == n_selected,
{
    if players_per_team == 0 {
        return Err(LayoutError::ZeroTeamSize);
    }
    if n_selected < players_per_team {
        return Err(LayoutError::TooFewPlayers);
    }
    if n_selected % players_per_team != 0 {
        return Err(LayoutError::UnevenSplit);
    }
    let t = n_selected / players_per_team;
    proof {
        vstd::arithmetic::div_mod::lemma_fundamental_div_mod(
            n_selected as int,
            players_per_team as int,
        );
        assert(t * players_per_team == players_per_team * t) by (nonlinear_arith);
        if t == 0 {
            assert(n_selected == players_per_team * t + 0);
        }
    }
    Ok(t)
}

/// The solver set player `p`'s variable for team `t`.
pub open spec fn chosen(values: Seq<i64>, n_teams: int, p: int, t: int) -> bool {
    values[p * n_teams + t] > MEMBERSHIP_THRESHOLD
}

/// The solver set exactly one team variable of player `p`, the one of team `t`.
pub open spec fn chosen_only(values: Seq<i64>, n_teams: int, p: int, t: int) -> bool {
    &&& 0 <= t < n_teams
    &&& chosen(values, n_teams, p, t)
    &&& forall|u: int| 0 <= u < n_teams && u != t ==> !#[trigger] chosen(values, n_teams, p, u)
}

/// The solver set exactly one team variable of player `p`.
pub open spec fn placed(values: Seq<i64>, n_teams: int, p: int) -> bool {
    exists|t: int| #[trigger] chosen_only(values, n_teams, p, t)
}

/// Each player of the first `n` has exactly one team variable set.
pub open spec fn all_placed(values: Seq<i64>, n_teams: int, n: int) -> bool {
    forall|p: int| 0 <= p < n ==> #[trigger] placed(values, n_teams, p)
}

/// The team of each of the first `n` players that the solver's values give, where
/// each has exactly one team variable set.
pub open spec fn placement(values: Seq<i64>, n_teams: int, n: int) -> Seq<usize> {
    Seq::new(n as nat, |p: int| (choose|t: int| chosen_only(values, n_teams, p, t)) as usize)
}

/// `team` holds, in roster order, the players that the assignment puts in team
/// `t`.
pub open spec fn is_team_of(
    team: Seq<Player>,
    players: Seq<Player>,
    a: Seq<usize>,
    t: int,
) -> bool {
    let m = members(a, t, players.len() as int);
    &&& team.len() == m.len()
    &&& forall|k: int| 0 <= k < m.len() ==> #[trigger] team[k] == players[m[k]]
}

/// An assignment of each player to one of `n_teams` teams.
pub open spec fn valid_assignment(a: Seq<usize>, n_teams: int) -> bool {
    forall|p: int| 0 <= p < a.len() ==> #[trigger] a[p] < n_teams
}

/// The players among the first `n` that the assignment puts in team `t`, in
/// order.
pub open spec fn members(a: Seq<usize>, t: int, n: int) -> Seq<int>
    decreases n,
{
    if n <= 0 {
        Seq::empty()
    } else if a[n - 1] == t {
        members(a, t, n - 1).push(n - 1)
    } else {
        members(a, t, n - 1)
    }
}

/// Sum of the sizes of the first `k` teams, counting the first `n` players.
pub open spec fn sizes_total(a: Seq<usize>, k: int, n: int) -> int
    decreases k,
{
    if k <= 0 {
        0
    } else {
        sizes_total(a, k - 1, n) + members(a, k - 1, n).len()
    }
}

proof fn lemma_members_shape(a: Seq<usize>, t: int, n: int)
    requires
        0 <= n <= a.len(),
    ensures
        members(a, t, n).len() <= n,
        forall|k: int|
            0 <= k < members(a, t, n).len() ==> 0 <= #[trigger] members(a, t, n)[k] < n
                && a[members(a, t, n)[k]] == t,
        forall|i: int, j: int|
            0 <= i < j < members(a, t, n).len() ==> members(a, t, n)[i] < members(a, t, n)[j],
        forall|p: int| 0 <= p < n && a[p] == t ==> #[trigger] members(a, t, n).contains(p),
    decreases n,
{
    if n > 0 {
        lemma_members_shape(a, t, n - 1);
        assert(members(a, t, n).len() <= n);
        let prev = members(a, t, n - 1);
        assert forall|p: int| 0 <= p < n && a[p] == t implies #[trigger] members(
            a,
            t,
            n,
        ).contains(p) by {
            if p < n - 1 {
                assert(prev.contains(p));
                let k = choose|k: int| 0 <= k < prev.len() && prev[k] == p;
                assert(members(a, t, n)[k] == p);
            } else {
                assert(members(a, t, n)[prev.len() as int] == p);
            }
        }
    }
}

/// Every player is in exactly one team: player `p` appears among the members of
/// team `t` exactly when the assignment puts it there, and then exactly once.
pub proof fn lemma_partition_complete(a: Seq<usize>, n_teams: int, p: int, t: int)
    requires
        valid_assignment(a, n_teams),
        0 <= p < a.len(),
        0 <= t < n_teams,
    ensures
        members(a, t, a.len() as int).contains(p) <==> a[p] == t,
        a[p] == t ==> exists|k: int|
            {
                &&& 0 <= k < members(a, t, a.len() as int).len()
                &&& members(a, t, a.len() as int)[k] == p
                &&& forall|j: int|
                    0 <= j < members(a, t, a.len() as int).len() && #[trigger] members(
                        a,
                        t,
                        a.len() as int,
                    )[j] == p ==> j == k
            },
{
    let n = a.len() as int;
    lemma_members_shape(a, t, n);
    let m = members(a, t, n);
    if a[p] == t {
        assert(m.contains(p));
        let k = choose|k: int| 0 <= k < m.len() && m[k] == p;
        assert forall|j: int| 0 <= j < m.len() && #[trigger] m[j] == p implies j == k by {
            if j < k {
                assert(m[j] < m[k]);
            } else if k < j {
                assert(m[k] < m[j]);
            }
        }
    }
}

proof fn lemma_sizes_step(a: Seq<usize>, k: int, n: int)
    requires
        0 <= n < a.len(),
        k >= 0,
    ensures
        sizes_total(a, k, n + 1) == sizes_total(a, k, n) + if a[n] < k {
            1int
        } else {
            0int
        },
    decreases k,
{
    if k > 0 {
        lemma_sizes_step(a, k - 1, n);
    }
}

proof fn lemma_sizes_cover(a: Seq<usize>, n_teams: int, n: int)
    requires
        valid_assignment(a, n_teams),
        0 <= n <= a.len(),
        n_teams >= 0,
    ensures
        sizes_total(a, n_teams, n) == n,
    decreases n,
{
    if n > 0 {
        lemma_sizes_cover(a, n_teams, n - 1);
        lemma_sizes_step(a, n_teams, n - 1);
    } else {
        lemma_sizes_empty(a, n_teams);
    }
}

proof fn lemma_sizes_empty(a: Seq<usize>, k: int)
    requires
        k >= 0,
    ensures
        sizes_total(a, k, 0) == 0,
    decreases k,
{
    if k > 0 {
        lemma_sizes_empty(a, k - 1);
    }
}

proof fn lemma_sizes_equal(a: Seq<usize>, k: int, n: int, size: int)
    requires
        k >= 0,
        forall|t: int| 0 <= t < k ==> #[trigger] members(a, t, n).len() == size,
    ensures
        sizes_total(a, k, n) == k * size,
    decreases k,
{
    if k > 0 {
        lemma_sizes_equal(a, k - 1, n, size);
        assert(members(a, k - 1, n).len() == size);
        assert(k * size == (k - 1) * size + size) by (nonlinear_arith);
    } else {
        assert(k * size == 0) by (nonlinear_arith)
            requires
                k == 0,
        ;
    }
}

/// A roster whose size is not the number of teams times the team size cannot be
/// split into full teams: whatever the assignment, some team has another size.
pub proof fn lemma_uneven_roster_has_wrong_team(a: Seq<usize>, n_teams: int, size: int)
    requires
        valid_assignment(a, n_teams),
        n_teams >= 0,
        a.len() != n_teams * size,
    ensures
        exists|t: int| 0 <= t < n_teams && #[trigger] members(a, t, a.len() as int).len() != size,
{
    let n = a.len() as int;
    lemma_sizes_cover(a, n_teams, n);
    if forall|t: int| 0 <= t < n_teams ==> #[trigger] members(a, t, n).len() == size {
        lemma_sizes_equal(a, n_teams, n, size);
    }
}

/// Reads the team of each player from the solver's team variables, given in
/// thousandths: the one above one half. A player with none or with several is
/// reported, never placed by guess.
pub fn extract_assignment(values: &Vec<i64>, n_players: usize, n_teams: usize) -> (r: Result<
    Vec<usize>,
    SolutionError,
>)
    requires
        n_teams >= 1,
        n_players * n_teams <= usize::MAX,
    ensures
        r is Ok <==> (values@.len() >= n_players * n_teams && all_placed(
            values@,
            n_teams as int,
            n_players as int,
        )),
        r == Err::<Vec<usize>, SolutionError>(SolutionError::MissingValues) <==> values@.len()
            < n_players * n_teams,
        r matches Err(SolutionError::Unassigned(p)) ==> p < n_players && forall|t: int|
            0 <= t < n_teams ==> !#[trigger] chosen(values@, n_teams as int, p as int, t),
        r matches Err(SolutionError::SeveralTeams(p)) ==> p < n_players && exists|t: int, u: int|
            0 <= t < u < n_teams && #[trigger] chosen(values@, n_teams as int, p as int, t)
                && #[trigger] chosen(values@, n_teams as int, p as int, u),
        !(r matches Err(SolutionError::WrongTeamSize(_))),
        r matches Ok(a) ==> {
            &&& a@ == placement(values@, n_teams as int, n_players as int)
            &&& valid_assignment(a@, n_teams as int)
            &&& a@.len() == n_players
            &&& forall|p: int|
                0 <= p < n_players ==> #[trigger] chosen_only(
                    values@,
                    n_teams as int,
                    p,
                    a@[p] as int,
                )
        },
{
    if values.len() < n_players * n_teams {
        return Err(SolutionError::MissingValues);
    }
    let mut a: Vec<usize> = Vec::new();
    let mut p: usize = 0;
    while p < n_players
        invariant
            n_teams >= 1,
            n_players * n_teams <= usize::MAX,
            values@.len() >= n_players * n_teams,
            p <= n_players,
            a@.len() == p,
            forall|q: int|
                0 <= q < p ==> #[trigger] chosen_only(values@, n_teams as int, q, a@[q] as int),
        decreases n_players - p,
    {
        let mut found: usize = n_teams;
        let mut t: usize = 0;
        while t < n_teams
            invariant
                n_teams >= 1,
                p < n_players,
                n_players * n_teams <= usize::MAX,
                values@.len() >= n_players * n_teams,
                t <= n_teams,
                found == n_teams || found < t,
                found == n_teams ==> forall|u: int|
                    0 <= u < t ==> !#[trigger] chosen(values@, n_teams as int, p as int, u),
                found < n_teams ==> chosen(values@, n_teams as int, p as int, found as int),
                found < n_teams ==> forall|u: int|
                    0 <= u < t && u != found ==> !#[trigger] chosen(
                        values@,
                        n_teams as int,
                        p as int,
                        u,
                    ),
            decreases n_teams - t,
        {
            proof {
                assert(0 <= p * n_teams + t < n_players * n_teams) by (nonlinear_arith)
                    requires
                        p < n_players,
                        t < n_teams,
                ;
            }
            if values[p * n_teams + t] > MEMBERSHIP_THRESHOLD {
                if found < n_teams {
                    proof {
                        assert(chosen(values@, n_teams as int, p as int, t as int));
                        assert(chosen(values@, n_teams as int, p as int, found as int));
                        assert(exists|t1: int, u1: int|
                            0 <= t1 < u1 < n_teams && #[trigger] chosen(
                                values@,
                                n_teams as int,
                                p as int,
                                t1,
                            ) && #[trigger] chosen(values@, n_teams as int, p as int, u1)) by {
                            assert(0 <= found < t < n_teams);
                            assert(chosen(values@, n_teams as int, p as int, found as int));
                            assert(chosen(values@, n_teams as int, p as int, t as int));
                        }
                        assert(!all_placed(values@, n_teams as int, n_players as int)) by {
                            if all_placed(values@, n_teams as int, n_players as int) {
                                assert(placed(values@, n_teams as int, p as int));
                                let t0 = choose|t0: int| #[trigger]
                                    chosen_only(values@, n_teams as int, p as int, t0);
                                assert(t0 == t as int || !chosen(values@, n_teams as int, p as int, t as int));
                                assert(t0 == found as int || !chosen(values@, n_teams as int, p as int, found as int));
                            }
                        }
                    }
                    return Err(SolutionError::SeveralTeams(p));
                }
                found = t;
            }
            t = t + 1;
        }
        if found == n_teams {
            proof {
                assert(!all_placed(values@, n_teams as int, n_players as int)) by {
                    if all_placed(values@, n_teams as int, n_players as int) {
                        assert(placed(values@, n_teams as int, p as int));
                        let t0 = choose|t0: int| #[trigger]
                            chosen_only(values@, n_teams as int, p as int, t0);
                        assert(!chosen(values@, n_teams as int, p as int, t0));
                    }
                }
            }
            return Err(SolutionError::Unassigned(p));
        }
        a.push(found);
        p = p + 1;
    }
    proof {
        assert forall|q: int| 0 <= q < n_players implies #[trigger] placed(
            values@,
            n_teams as int,
            q,
        ) by {
            assert(chosen_only(values@, n_teams as int, q, a@[q] as int));
        }
        assert forall|q: int| 0 <= q < n_players implies #[trigger] a@[q] == placement(
            values@,
            n_teams as int,
            n_players as int,
        )[q] by {
            assert(placed(values@, n_teams as int, q));
            let t0 = choose|t0: int| chosen_only(values@, n_teams as int, q, t0);
            assert(chosen_only(values@, n_teams as int, q, t0));
            assert(chosen_only(values@, n_teams as int, q, a@[q] as int));
        }
        assert(a@ =~= placement(values@, n_teams as int, n_players as int));
        assert forall|q: int| 0 <= q < a@.len() implies #[trigger] a@[q] < n_teams by {
            assert(chosen_only(values@, n_teams as int, q, a@[q] as int));
        }
    }
    Ok(a)
}

/// Number of players in each team under the assignment.
pub fn team_sizes(a: &Vec<usize>, n_teams: usize) -> (r: Vec<usize>)
    requires
        valid_assignment(a@, n_teams as int),
    ensures
        r@.len() == n_teams,
        forall|t: int| 0 <= t < n_teams ==> #[trigger] r@[t] == members(a@, t, a@.len() as int).len(),
{
    let mut sizes: Vec<usize> = Vec::new();
    let mut t: usize = 0;
    while t < n_teams
        invariant
            t <= n_teams,
            sizes@.len() == t,
            forall|u: int| 0 <= u < t ==> #[trigger] sizes@[u] == 0,
        decreases n_teams - t,
    {
        sizes.push(0);
        t = t + 1;
    }
    let mut p: usize = 0;
    while p < a.len()
        invariant
            valid_assignment(a@, n_teams as int),
            p <= a@.len(),
            sizes@.len() == n_teams,
            forall|u: int|
                0 <= u < n_teams ==> #[trigger] sizes@[u] == members(a@, u, p as int).len(),
        decreases a@.len() - p,
    {
        let team = a[p];
        proof {
            lemma_members_shape(a@, team as int, p as int);
        }
        sizes.set(team, sizes[team] + 1);
        p = p + 1;
        proof {
            assert forall|u: int| 0 <= u < n_teams implies #[trigger] sizes@[u] == members(
                a@,
                u,
                p as int,
            ).len() by {
                if u != team as int {
                    assert(members(a@, u, p as int) == members(a@, u, p - 1));
                }
            }
        }
    }
    sizes
}

/// The teams that the assignment makes, each with its players in roster order.
pub fn group_teams(players: &Vec<Player>, a: &Vec<usize>, n_teams: usize) -> (r: Vec<Vec<Player>>)
    requires
        a@.len() == players@.len(),
        valid_assignment(a@, n_teams as int),
    ensures
        r@.len() == n_teams,
        forall|t: int| 0 <= t < n_teams ==> is_team_of(#[trigger] r@[t]@, players@, a@, t),
{
    let n = players.len();
    let mut teams: Vec<Vec<Player>> = Vec::new();
    let mut t: usize = 0;
    while t < n_teams
        invariant
            n == players@.len() == a@.len(),
            t <= n_teams,
            teams@.len() == t,
            forall|u: int| 0 <= u < t ==> is_team_of(#[trigger] teams@[u]@, players@, a@, u),
        decreases n_teams - t,
    {
        let mut team: Vec<Player> = Vec::new();
        let mut p: usize = 0;
        while p < n
            invariant
                n == players@.len() == a@.len(),
                t < n_teams,
                p <= n,
                team@.len() == members(a@, t as int, p as int).len(),
                forall|k: int|
                    0 <= k < team@.len() ==> #[trigger] team@[k] == players@[members(
                        a@,
                        t as int,
                        p as int,
                    )[k]],
            decreases n - p,
        {
            if a[p] == t {
                team.push(players[p].clone());
            }
            p = p + 1;
        }
        teams.push(team);
        t = t + 1;
    }
    teams
}

/// Turns the solver's team variables, in thousandths, into teams: each player
/// goes to the one team whose variable is above one half, and every team must
/// come out with `players_per_team` players. Anything else is reported: a
/// player with no team or several, or a team of another size.
pub fn assemble_teams(
    players: &Vec<Player>,
    number_of_teams: usize,
    players_per_team: usize,
    values: &Vec<i64>,
) -> (r: Result<Vec<Vec<Player>>, SolutionError>)
    requires
        number_of_teams >= 1,
        players@.len() * number_of_teams <= usize::MAX,
    ensures
        ({
            let n = players@.len() as int;
            let nt = number_of_teams as int;
            let a = placement(values@, nt, n);
            &&& r is Ok <==> {
                &&& values@.len() >= n * nt
                &&& all_placed(values@, nt, n)
                &&& forall|t: int| 0 <= t < nt ==> #[trigger] members(a, t, n).len() == players_per_team
            }
            &&& r == Err::<Vec<Vec<Player>>, SolutionError>(SolutionError::MissingValues) <==> values@.len() < n * nt
            &&& r matches Err(SolutionError::Unassigned(p)) ==> p < n && forall|t: int|
                0 <= t < nt ==> !#[trigger] chosen(values@, nt, p as int, t)
            &&& r matches Err(SolutionError::SeveralTeams(p)) ==> p < n && exists|t: int, u: int|
                0 <= t < u < nt && #[trigger] chosen(values@, nt, p as int, t)
                    && #[trigger] chosen(values@, nt, p as int, u)
            &&& r matches Err(SolutionError::WrongTeamSize(t)) ==> t < nt && all_placed(values@, nt, n)
                && members(a, t as int, n).len() != players_per_team
            &&& r matches Ok(teams) ==> {
                &&& valid_assignment(a, nt)
                &&& teams@.len() == nt
                &&& forall|t: int| 0 <= t < nt ==> is_team_of(#[trigger] teams@[t]@, players@, a, t)
            }
            &&& n != nt * players_per_team ==> r is Err
        }),
{
    let n = players.len();
    let a = match extract_assignment(values, n, number_of_teams) {
        Ok(a) => a,
        Err(e) => {
            return Err(e);
        },
    };
    let sizes = team_sizes(&a, number_of_teams);
    let mut t: usize = 0;
    while t < number_of_teams
        invariant
            t <= number_of_teams,
            n == players@.len(),
            a@.len() == n,
            a@ == placement(values@, number_of_teams as int, n as int),
            valid_assignment(a@, number_of_teams as int),
            values@.len() >= n * number_of_teams,
            all_placed(values@, number_of_teams as int, n as int),
            sizes@.len() == number_of_teams,
            forall|u: int|
                0 <= u < number_of_teams ==> #[trigger] sizes@[u] == members(a@, u, a@.len() as int).len(),
            forall|u: int|
                0 <= u < t ==> #[trigger] members(a@, u, a@.len() as int).len() == players_per_team,
        decreases number_of_teams - t,
    {
        if sizes[t] != players_per_team {
            proof {
                assert(members(a@, t as int, n as int).len() != players_per_team);
            }
            return Err(SolutionError::WrongTeamSize(t));
        }
        t = t + 1;
    }
    proof {
        if n != number_of_teams * players_per_team {
            lemma_uneven_roster_has_wrong_team(a@, number_of_teams as int, players_per_team as int);
        }
    }
    Ok(group_teams(players, &a, number_of_teams))
}

} // verus!
