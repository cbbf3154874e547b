use vstd::prelude::*;

use crate::player::{Criteria, Player};

verus! {

/// An exact fraction `num / den`, as the reporter's averages are given.
#[derive(Clone, Copy, Debug, PartialEq, Eq, Structural)]
pub struct Ratio {
    pub num: i64,
    pub den: u64,
}

/// Largest team size the reporter accepts: its sums then fit in 64 bits.
pub const MAX_TEAM_LEN: usize = 0x0fff_ffff;

impl Ratio {
    /// `self <= other` as fractions, for positive denominators.
    pub open spec fn spec_at_most(self, other: Ratio) -> bool {
        self.num * other.den <= other.num * self.den
    }

    pub fn at_most(&self, other: &Ratio) -> (r: bool)
        ensures
            r == self.spec_at_most(*other),
    {
        let a = self.num as i128;
        let b = other.num as i128;
        let da = self.den as i128;
        let db = other.den as i128;
        proof {
            lemma_product_fits(a as int, db as int);
            lemma_product_fits(b as int, da as int);
        }
        a * db <= b * da
    }
}

proof fn lemma_product_fits(a: int, d: int)
    requires
        -0x8000_0000_0000_0000 <= a <= 0x7fff_ffff_ffff_ffff,
        0 <= d <= 0xffff_ffff_ffff_ffff,
    ensures
        -0x8000_0000_0000_0000_0000_0000_0000_0000 <= a * d <= 0x7fff_ffff_ffff_ffff_ffff_ffff_ffff_ffff,
{
    assert(a * d <= 0x7fff_ffff_ffff_ffff * d) by (nonlinear_arith)
        requires
            a <= 0x7fff_ffff_ffff_ffff,
            d >= 0,
    ;
    assert(a * d >= -0x8000_0000_0000_0000 * d) by (nonlinear_arith)
        requires
            a >= -0x8000_0000_0000_0000,
            d >= 0,
    ;
}

/// Ordering of fractions is transitive through one with a positive denominator.
proof fn lemma_at_most_trans(x: Ratio, y: Ratio, z: Ratio)
    requires
        x.spec_at_most(y),
        y.spec_at_most(z),
        y.den > 0,
    ensures
        x.spec_at_most(z),
{
    let (xn, xd, yn, yd, zn, zd) = (
        x.num as int,
        x.den as int,
        y.num as int,
        y.den as int,
        z.num as int,
        z.den as int,
    );
    assert(xn * yd * zd <= yn * xd * zd) by (nonlinear_arith)
        requires
            xn * yd <= yn * xd,
            zd >= 0,
    ;
    assert(yn * zd * xd <= zn * yd * xd) by (nonlinear_arith)
        requires
            yn * zd <= zn * yd,
            xd >= 0,
    ;
    assert(yn * xd * zd == yn * zd * xd) by (nonlinear_arith);
    assert(zn * yd * xd == zn * xd * yd) by (nonlinear_arith);
    assert(xn * yd * zd == xn * zd * yd) by (nonlinear_arith);
    assert(xn * zd <= zn * xd) by (nonlinear_arith)
        requires
            xn * zd * yd <= zn * xd * yd,
            yd > 0,
    ;
}

/// A rating if it counts towards an average (it is positive), else zero.
pub open spec fn positive_part(x: int) -> int {
    if x > 0 {
        x
    } else {
        0
    }
}

/// Sum of the positive ratings of criterion `c` over the team.
pub open spec fn positive_total(team: Seq<Player>, c: int) -> int
    decreases team.len(),
{
    if team.len() == 0 {
        0
    } else {
        positive_total(team.drop_last(), c) + positive_part(team.last().rating(c))
    }
}

/// Number of players of the team with a positive rating for criterion `c`.
pub open spec fn positive_count(team: Seq<Player>, c: int) -> int
    decreases team.len(),
{
    if team.len() == 0 {
        0
    } else {
        positive_count(team.drop_last(), c) + if team.last().rating(c) > 0 {
            1int
        } else {
            0int
        }
    }
}

/// The team's average for criterion `c` over its players rated above zero; zero
/// (as `0 / 1`) when no player is.
pub open spec fn team_average(team: Seq<Player>, c: int) -> Ratio {
    if positive_count(team, c) == 0 {
        Ratio { num: 0, den: 1 }
    } else {
        Ratio { num: positive_total(team, c) as i64, den: positive_count(team, c) as u64 }
    }
}

/// Sum of a player's six ratings.
pub open spec fn rating_sum(p: Player) -> int {
    p.qualidade_goleiro + p.qualidade_zagueiro + p.qualidade_meio + p.qualidade_atacante + p.speed
        + p.stamina
}

/// Sum of all six ratings of all players of the team.
pub open spec fn team_rating_total(team: Seq<Player>) -> int
    decreases team.len(),
{
    if team.len() == 0 {
        0
    } else {
        team_rating_total(team.drop_last()) + rating_sum(team.last())
    }
}

proof fn lemma_positive_bounds(team: Seq<Player>, c: int)
    requires
        0 <= c < 6,
    ensures
        0 <= positive_total(team, c) <= team.len() * 0x7fff_ffff,
        0 <= positive_count(team, c) <= team.len(),
        positive_count(team, c) == 0 ==> positive_total(team, c) == 0,
    decreases team.len(),
{
    if team.len() > 0 {
        lemma_positive_bounds(team.drop_last(), c);
    }
}

proof fn lemma_rating_total_bounds(team: Seq<Player>)
    ensures
        -6 * 0x8000_0000 * team.len() <= team_rating_total(team) <= 6 * 0x7fff_ffff * team.len(),
    decreases team.len(),
{
    if team.len() > 0 {
        lemma_rating_total_bounds(team.drop_last());
        let p = team.last();
        let n = team.len() as int;
        let prev = team_rating_total(team.drop_last());
        assert(-6 * 0x8000_0000 <= rating_sum(p) <= 6 * 0x7fff_ffff);
        assert(team_rating_total(team) == prev + rating_sum(p));
        assert(-6 * 0x8000_0000 * n <= prev + rating_sum(p) <= 6 * 0x7fff_ffff * n)
            by (nonlinear_arith)
            requires
                -6 * 0x8000_0000 * (n - 1) <= prev <= 6 * 0x7fff_ffff * (n - 1),
                -6 * 0x8000_0000 <= rating_sum(p) <= 6 * 0x7fff_ffff,
        ;
    }
}

/// Average rating of the team for a criterion, counting only players rated above
/// zero; `0 / 1` where no player is.
pub fn rate_average(time: &[Player], position: &Criteria) -> (r: Ratio)
    requires
        time@.len() <= MAX_TEAM_LEN,
    ensures
        r == team_average(time@, position.spec_index()),
        r.den > 0,
{
    let c = Ghost(position.spec_index());
    let mut total: i64 = 0;
    let mut count: u64 = 0;
    let mut i: usize = 0;
    while i < time.len()
        invariant
            0 <= i <= time@.len() <= MAX_TEAM_LEN,
            c@ == position.spec_index(),
            total as int == positive_total(time@.subrange(0, i as int), c@),
            count as int == positive_count(time@.subrange(0, i as int), c@),
        decreases time@.len() - i,
    {
        proof {
            lemma_positive_bounds(time@.subrange(0, i as int), c@);
            assert(time@.subrange(0, i + 1).drop_last() =~= time@.subrange(0, i as int));
            assert(i * 0x7fff_ffff + 0x7fff_ffff <= 0x7fff_ffff_ffff_ffff) by (nonlinear_arith)
                requires
                    i < 0x0fff_ffff,
            ;
        }
        let x = time[i].rating_for(position);
        if x > 0 {
            total = total + x as i64;
            count = count + 1;
        }
        i = i + 1;
    }
    proof {
        assert(time@.subrange(0, time@.len() as int) =~= time@);
        lemma_positive_bounds(time@, c@);
    }
    if count == 0 {
        Ratio { num: 0, den: 1 }
    } else {
        Ratio { num: total, den: count }
    }
}

/// Highest rating of the team for a criterion; zero for an empty team.
pub fn rate_max(team: &[Player], position: &Criteria) -> (r: i32)
    ensures
        team@.len() == 0 ==> r == 0,
        team@.len() > 0 ==> exists|j: int|
            0 <= j < team@.len() && r as int == #[trigger] team@[j].rating(position.spec_index()),
        forall|j: int|
            0 <= j < team@.len() ==> #[trigger] team@[j].rating(position.spec_index()) <= r,
{
    if team.len() == 0 {
        return 0;
    }
    let mut best: i32 = team[0].rating_for(position);
    let mut i: usize = 1;
    while i < team.len()
        invariant
            1 <= i <= team@.len(),
            exists|j: int|
                0 <= j < i && best as int == #[trigger] team@[j].rating(position.spec_index()),
            forall|j: int|
                0 <= j < i ==> #[trigger] team@[j].rating(position.spec_index()) <= best,
        decreases team@.len() - i,
    {
        let x = team[i].rating_for(position);
        if x > best {
            best = x;
        }
        i = i + 1;
    }
    best
}

/// A player's mean rating over the six criteria, as `sum / 6`.
pub fn media_qualidade_jogador(jogador: &Player) -> (r: Ratio)
    ensures
        r.num == rating_sum(*jogador),
        r.den == 6,
{
    let s = jogador.qualidade_goleiro as i64 + jogador.qualidade_zagueiro as i64
        + jogador.qualidade_meio as i64 + jogador.qualidade_atacante as i64
        + jogador.speed as i64 + jogador.stamina as i64;
    Ratio { num: s, den: 6 }
}

/// The mean over the team of its players' mean ratings, as `total / (6 * len)`;
/// `0 / 1` for an empty team.
pub fn media_do_jogadores(time: &[Player]) -> (r: Ratio)
    requires
        time@.len() <= MAX_TEAM_LEN,
    ensures
        time@.len() == 0 ==> r == (Ratio { num: 0, den: 1 }),
        time@.len() > 0 ==> r.num == team_rating_total(time@) && r.den == 6 * time@.len(),
{
    let mut total: i64 = 0;
    let mut i: usize = 0;
    while i < time.len()
        invariant
            0 <= i <= time@.len() <= MAX_TEAM_LEN,
            total as int == team_rating_total(time@.subrange(0, i as int)),
        decreases time@.len() - i,
    {
        proof {
            lemma_rating_total_bounds(time@.subrange(0, i as int));
            assert(time@.subrange(0, i + 1).drop_last() =~= time@.subrange(0, i as int));
            assert(6 * 0x7fff_ffff * i + 6 * 0x7fff_ffff <= 0x7fff_ffff_ffff_ffff
                && -6 * 0x8000_0000 * i - 6 * 0x8000_0000 >= -0x8000_0000_0000_0000)
                by (nonlinear_arith)
                requires
                    i < 0x0fff_ffff,
            ;
        }
        let m = media_qualidade_jogador(&time[i]);
        total = total + m.num;
        i = i + 1;
    }
    proof {
        assert(time@.subrange(0, time@.len() as int) =~= time@);
    }
    if time.len() == 0 {
        Ratio { num: 0, den: 1 }
    } else {
        Ratio { num: total, den: 6 * time.len() as u64 }
    }
}

/// The highest and the lowest team average for a criterion, over all teams;
/// `None` when there are no teams.
pub fn criterion_extremes(times: &Vec<Vec<Player>>, position: &Criteria) -> (r: Option<
    (Ratio, Ratio),
>)
    requires
        forall|t: int| 0 <= t < times@.len() ==> (#[trigger] times@[t])@.len() <= MAX_TEAM_LEN,
    ensures
        r is None <==> times@.len() == 0,
        r matches Some((hi, lo)) ==> {
            &&& exists|t: int|
                0 <= t < times@.len() && hi == team_average(
                    #[trigger] times@[t]@,
                    position.spec_index(),
                )
            &&& exists|t: int|
                0 <= t < times@.len() && lo == team_average(
                    #[trigger] times@[t]@,
                    position.spec_index(),
                )
            &&& forall|t: int|
                0 <= t < times@.len() ==> {
                    &&& #[trigger] team_average(times@[t]@, position.spec_index()).spec_at_most(hi)
                    &&& lo.spec_at_most(team_average(times@[t]@, position.spec_index()))
                }
        },
{
    if times.len() == 0 {
        return None;
    }
    let first = rate_average(times[0].as_slice(), position);
    let mut hi = first;
    let mut lo = first;
    let mut i: usize = 1;
    while i < times.len()
        invariant
            1 <= i <= times@.len(),
            hi.den > 0,
            lo.den > 0,
            forall|t: int| 0 <= t < times@.len() ==> (#[trigger] times@[t])@.len() <= MAX_TEAM_LEN,
            exists|t: int|
                0 <= t < i && hi == team_average(#[trigger] times@[t]@, position.spec_index()),
            exists|t: int|
                0 <= t < i && lo == team_average(#[trigger] times@[t]@, position.spec_index()),
            forall|t: int|
                0 <= t < i ==> team_average(#[trigger] times@[t]@, position.spec_index()).spec_at_most(
                    hi,
                ),
            forall|t: int|
                0 <= t < i ==> lo.spec_at_most(
                    team_average(#[trigger] times@[t]@, position.spec_index()),
                ),
        decreases times@.len() - i,
    {
        let a = rate_average(times[i].as_slice(), position);
        if hi.at_most(&a) {
            proof {
                assert forall|t: int| 0 <= t < i implies team_average(
                    #[trigger] times@[t]@,
                    position.spec_index(),
                ).spec_at_most(a) by {
                    lemma_at_most_trans(team_average(times@[t]@, position.spec_index()), hi, a);
                }
            }
            hi = a;
        }
        if a.at_most(&lo) {
            proof {
                assert forall|t: int| 0 <= t < i implies a.spec_at_most(
                    team_average(#[trigger] times@[t]@, position.spec_index()),
                ) by {
                    lemma_at_most_trans(a, lo, team_average(times@[t]@, position.spec_index()));
                }
            }
            lo = a;
        }
        i = i + 1;
    }
    Some((hi, lo))
}

} // verus!
