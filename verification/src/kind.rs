//! Block kinds, their static physical properties, and the block type.
use vstd::prelude::*;

verus! {

/// A unit step on the grid, as `(dx, dy)`. Rows grow downwards, so `dy == 1`
/// points towards the floor.
pub type Direction = (i8, i8);

pub const DOWN: Direction = (0, 1);

pub const LEFT: Direction = (-1, 0);

pub const RIGHT: Direction = (1, 0);

pub const DOWN_LEFT: Direction = (-1, 1);

pub const DOWN_RIGHT: Direction = (1, 1);

/// Life time of a block that never decays.
pub const IMMORTAL: i8 = -1;

/// Number of ticks a freshly placed fire block burns.
pub const FIRE_LIFE_TIME: i8 = 60;

/// The closed set of materials a block can be made of.
#[derive(Clone, Copy, Debug, PartialEq, Eq, Structural)]
pub enum BlockKind {
    Concrete,
    Steel,
    Sand,
    Water,
    Wood,
    Fire,
}

/// One particle. Its position is the cell that holds it; it carries no
/// coordinates of its own.
#[derive(Clone, Copy, Debug, PartialEq, Eq, Structural)]
pub struct Block {
    pub block_kind: BlockKind,
    pub velocity_x: i8,
    pub velocity_y: i8,
    pub life_time: i8,
}

impl BlockKind {
    pub open spec fn spec_density(&self) -> i32 {
        match self {
            BlockKind::Concrete => 4,
            BlockKind::Steel => 5,
            BlockKind::Sand => 3,
            BlockKind::Water => 2,
            BlockKind::Wood => 5,
            BlockKind::Fire => 0,
        }
    }

    /// A block displaces a neighbour only if its own density is strictly higher.
    #[verifier::when_used_as_spec(spec_density)]
    pub fn density(&self) -> (d: i32)
        ensures
            d == self.spec_density(),
    {
        match self {
            BlockKind::Concrete => 4,
            BlockKind::Steel => 5,
            BlockKind::Sand => 3,
            BlockKind::Water => 2,
            BlockKind::Wood => 5,
            BlockKind::Fire => 0,
        }
    }

    pub open spec fn spec_color(&self) -> (u8, u8, u8) {
        match self {
            BlockKind::Concrete => (90, 90, 90),
            BlockKind::Steel => (208, 212, 214),
            BlockKind::Sand => (194, 178, 128),
            BlockKind::Water => (0, 0, 255),
            BlockKind::Wood => (58, 29, 0),
            BlockKind::Fire => (255, 0, 0),
        }
    }

    /// The colour a block of this kind is drawn in, as red, green and blue.
    #[verifier::when_used_as_spec(spec_color)]
    pub fn color(&self) -> (c: (u8, u8, u8))
        ensures
            c == self.spec_color(),
    {
        match self {
            BlockKind::Concrete => (90, 90, 90),
            BlockKind::Steel => (208, 212, 214),
            BlockKind::Sand => (194, 178, 128),
            BlockKind::Water => (0, 0, 255),
            BlockKind::Wood => (58, 29, 0),
            BlockKind::Fire => (255, 0, 0),
        }
    }

    pub open spec fn spec_sliding_speed(&self) -> i8 {
        match self {
            BlockKind::Water => 10,
            _ => 0,
        }
    }

    /// How many cells a sideways step is stretched to; 0 means the kind does
    /// not slide.
    #[verifier::when_used_as_spec(spec_sliding_speed)]
    pub fn sliding_speed(&self) -> (s: i8)
        ensures
            s == self.spec_sliding_speed(),
    {
        match self {
            BlockKind::Concrete => 0,
            BlockKind::Steel => 0,
            BlockKind::Sand => 0,
            BlockKind::Water => 10,
            BlockKind::Wood => 0,
            BlockKind::Fire => 0,
        }
    }

    /// The directions a resting block tries, as groups from "try first" to
    /// "try last". The directions inside one group are alternatives of equal
    /// rank.
    pub open spec fn fall_groups(&self) -> Seq<Seq<Direction>> {
        match self {
            BlockKind::Concrete => seq![seq![DOWN]],
            BlockKind::Sand => seq![seq![DOWN], seq![DOWN_LEFT, DOWN_RIGHT]],
            BlockKind::Water => seq![seq![DOWN], seq![DOWN_LEFT, DOWN_RIGHT], seq![LEFT, RIGHT]],
            BlockKind::Steel | BlockKind::Wood | BlockKind::Fire => seq![],
        }
    }

    /// The fall preference of this kind, see [`BlockKind::fall_groups`].
    pub fn directions_to_fall(&self) -> (groups: Vec<Vec<Direction>>)
        ensures
            groups.deep_view() == self.fall_groups(),
    {
        let groups = match self {
            BlockKind::Concrete => vec![vec![DOWN]],
            BlockKind::Steel => vec![],
            BlockKind::Sand => vec![vec![DOWN], vec![DOWN_LEFT, DOWN_RIGHT]],
            BlockKind::Water => vec![vec![DOWN], vec![DOWN_LEFT, DOWN_RIGHT], vec![LEFT, RIGHT]],
            BlockKind::Wood => vec![],
            BlockKind::Fire => vec![],
        };
        assert(groups.deep_view() =~~= self.fall_groups());
        groups
    }

    pub open spec fn spec_affected_by_gravity(&self) -> bool {
        match self {
            BlockKind::Concrete | BlockKind::Sand | BlockKind::Water => true,
            BlockKind::Steel | BlockKind::Wood | BlockKind::Fire => false,
        }
    }

    /// Whether blocks of this kind move at all.
    #[verifier::when_used_as_spec(spec_affected_by_gravity)]
    pub fn affected_by_gravity(&self) -> (b: bool)
        ensures
            b == self.spec_affected_by_gravity(),
    {
        match self {
            BlockKind::Concrete => true,
            BlockKind::Steel => false,
            BlockKind::Sand => true,
            BlockKind::Water => true,
            BlockKind::Wood => false,
            BlockKind::Fire => false,
        }
    }

    pub open spec fn spec_has_lifecycle(&self) -> bool {
        *self == BlockKind::Fire
    }

    /// Whether blocks of this kind decay and vanish.
    #[verifier::when_used_as_spec(spec_has_lifecycle)]
    pub fn has_lifecycle(&self) -> (b: bool)
        ensures
            b == self.spec_has_lifecycle(),
    {
        match self {
            BlockKind::Concrete => false,
            BlockKind::Steel => false,
            BlockKind::Sand => false,
            BlockKind::Water => false,
            BlockKind::Wood => false,
            BlockKind::Fire => true,
        }
    }

    pub open spec fn spec_initial_life_time(&self) -> i8 {
        if self.spec_has_lifecycle() {
            FIRE_LIFE_TIME
        } else {
            IMMORTAL
        }
    }
}

impl Block {
    pub open spec fn spec_new(block_kind: BlockKind) -> Block {
        Block {
            block_kind,
            velocity_x: 0,
            velocity_y: 0,
            life_time: block_kind.spec_initial_life_time(),
        }
    }

    /// A block at rest, with the life time its kind starts with.
    #[verifier::when_used_as_spec(spec_new)]
    pub fn new(block_kind: BlockKind) -> (block: Block)
        ensures
            block == Block::spec_new(block_kind),
    {
        match block_kind {
            BlockKind::Fire => Block {
                block_kind,
                velocity_x: 0,
                velocity_y: 0,
                life_time: FIRE_LIFE_TIME,
            },
            _ => Block { block_kind, velocity_x: 0, velocity_y: 0, life_time: IMMORTAL },
        }
    }
}

} // verus!
