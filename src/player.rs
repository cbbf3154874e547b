use vstd::prelude::*;

verus! {

/// A rated player: a name, which is the player's identity, and six ratings.
#[derive(Debug)]
pub struct Player {
    pub name: String,
    pub qualidade_goleiro: i32,
    pub qualidade_zagueiro: i32,
    pub qualidade_meio: i32,
    pub qualidade_atacante: i32,
    pub speed: i32,
    pub stamina: i32,
}

impl Clone for Player {
    fn clone(&self) -> (r: Self)
        ensures
            r == *self,
    {
        Player {
            name: self.name.clone(),
            qualidade_goleiro: self.qualidade_goleiro,
            qualidade_zagueiro: self.qualidade_zagueiro,
            qualidade_meio: self.qualidade_meio,
            qualidade_atacante: self.qualidade_atacante,
            speed: self.speed,
            stamina: self.stamina,
        }
    }
}

impl PartialEq for Player {
    fn eq(&self, other: &Player) -> (r: bool)
        ensures
            r == (self.name@ == other.name@),
    {
        self.name == other.name
    }
}

impl vstd::std_specs::cmp::PartialEqSpecImpl for Player {
    open spec fn obeys_eq_spec() -> bool {
        true
    }

    open spec fn eq_spec(&self, other: &Player) -> bool {
        self.name@ == other.name@
    }
}

/// The six rated skills, in the fixed order of a player's ratings.
#[derive(Clone, Copy, Debug, PartialEq, Eq, Structural)]
pub enum Criteria {
    Keeper,
    Defender,
    Midfielder,
    Forward,
    Speed,
    Stamina,
}

/// Number of criteria a player is rated on.
pub const NUM_CRITERIA: usize = 6;

impl Criteria {
    /// Position of the criterion in a player's ratings.
    pub open spec fn spec_index(self) -> int {
        match self {
            Criteria::Keeper => 0,
            Criteria::Defender => 1,
            Criteria::Midfielder => 2,
            Criteria::Forward => 3,
            Criteria::Speed => 4,
            Criteria::Stamina => 5,
        }
    }

    pub fn index(&self) -> (r: usize)
        ensures
            r as int == self.spec_index(),
            r < NUM_CRITERIA,
    {
        match self {
            Criteria::Keeper => 0,
            Criteria::Defender => 1,
            Criteria::Midfielder => 2,
            Criteria::Forward => 3,
            Criteria::Speed => 4,
            Criteria::Stamina => 5,
        }
    }

    /// The criterion at position `i` of a player's ratings.
    pub fn from_index(i: usize) -> (r: Criteria)
        requires
            i < NUM_CRITERIA,
        ensures
            r.spec_index() == i as int,
    {
        if i == 0 {
            Criteria::Keeper
        } else if i == 1 {
            Criteria::Defender
        } else if i == 2 {
            Criteria::Midfielder
        } else if i == 3 {
            Criteria::Forward
        } else if i == 4 {
            Criteria::Speed
        } else {
            Criteria::Stamina
        }
    }

    /// The criterion's display label.
    pub fn label(&self) -> (r: String)
        ensures
            r@ == self.spec_label(),
    {
        match self {
            Criteria::Keeper => String::from_str("Goleiro"),
            Criteria::Defender => String::from_str("Zagueiro"),
            Criteria::Midfielder => String::from_str("Meio"),
            Criteria::Forward => String::from_str("Atacante"),
            Criteria::Speed => String::from_str("Velocidade"),
            Criteria::Stamina => String::from_str("Stamina"),
        }
    }

    pub closed spec fn spec_label(self) -> Seq<char> {
        match self {
            Criteria::Keeper => "Goleiro"@,
            Criteria::Defender => "Zagueiro"@,
            Criteria::Midfielder => "Meio"@,
            Criteria::Forward => "Atacante"@,
            Criteria::Speed => "Velocidade"@,
            Criteria::Stamina => "Stamina"@,
        }
    }
}

impl Player {
    /// The six ratings in criterion order.
    pub open spec fn ratings(self) -> Seq<i32> {
        seq![
            self.qualidade_goleiro,
            self.qualidade_zagueiro,
            self.qualidade_meio,
            self.qualidade_atacante,
            self.speed,
            self.stamina,
        ]
    }

    /// The rating at criterion position `c`.
    pub open spec fn rating(self, c: int) -> int {
        self.ratings()[c] as int
    }

    pub fn qualidades(&self) -> (r: Vec<i32>)
        ensures
            r@ == self.ratings(),
    {
        let r = vec![
            self.qualidade_goleiro,
            self.qualidade_zagueiro,
            self.qualidade_meio,
            self.qualidade_atacante,
            self.speed,
            self.stamina,
        ];
        assert(r@ =~= self.ratings());
        r
    }

    /// The rating for one criterion.
    pub fn rating_for(&self, c: &Criteria) -> (r: i32)
        ensures
            r as int == self.rating(c.spec_index()),
    {
        match c {
            Criteria::Keeper => self.qualidade_goleiro,
            Criteria::Defender => self.qualidade_zagueiro,
            Criteria::Midfielder => self.qualidade_meio,
            Criteria::Forward => self.qualidade_atacante,
            Criteria::Speed => self.speed,
            Criteria::Stamina => self.stamina,
        }
    }
}

} // verus!
