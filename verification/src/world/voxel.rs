use vstd::prelude::*;

verus! {

/// The kinds of block a voxel can hold.
#[derive(Clone, Copy, Debug, PartialEq, Eq, Structural)]
pub enum BlockType {
    Air,
    Grass,
    Dirt,
    Stone,
}

/// The face of a block, as far as texturing is concerned.
#[derive(Clone, Copy, Debug, PartialEq, Eq, Structural)]
pub enum BlockFace {
    Top,
    Bottom,
    Side,
}

/// The atlas tile `(column, row)` that a face of a block is drawn with;
/// air is never drawn.
pub open spec fn tile_of(block: BlockType, face: BlockFace) -> Option<(u32, u32)> {
    match block {
        BlockType::Air => None,
        BlockType::Stone => Some((0, 0)),
        BlockType::Dirt => Some((1, 0)),
        BlockType::Grass => match face {
            BlockFace::Top => Some((2, 0)),
            BlockFace::Side => Some((0, 1)),
            BlockFace::Bottom => Some((1, 1)),
        },
    }
}

/// The name a block is written under.
pub open spec fn block_name(block: BlockType) -> Seq<char> {
    match block {
        BlockType::Air => "Air"@,
        BlockType::Grass => "Grass"@,
        BlockType::Dirt => "Dirt"@,
        BlockType::Stone => "Stone"@,
    }
}

/// The block a name stands for; any name but those of grass, dirt and stone
/// stands for air.
pub open spec fn block_named(name: Seq<char>) -> BlockType {
    if name == "Stone"@ {
        BlockType::Stone
    } else if name == "Dirt"@ {
        BlockType::Dirt
    } else if name == "Grass"@ {
        BlockType::Grass
    } else {
        BlockType::Air
    }
}

/// Each block is read back from its name.
pub proof fn lemma_block_name_round_trip(block: BlockType)
    ensures
        block_named(block_name(block)) == block,
{
    reveal_strlit("Air");
    reveal_strlit("Grass");
    reveal_strlit("Dirt");
    reveal_strlit("Stone");
    assert("Air"@[0] != "Stone"@[0] && "Air"@[0] != "Dirt"@[0] && "Air"@[0] != "Grass"@[0]);
    assert("Grass"@[0] != "Stone"@[0] && "Grass"@[0] != "Dirt"@[0]);
    assert("Dirt"@[0] != "Stone"@[0]);
}

/// Law: a block has an atlas tile for each of its faces exactly when it
/// is solid; air has none.
pub proof fn law_tiles_of_solid_blocks(block: BlockType, face: BlockFace)
    ensures
        tile_of(block, face) is Some <==> block != BlockType::Air,
{
}

/// Law: stone and dirt show one tile on all their faces, stone the tile at
/// column 0, row 0 of the atlas and dirt the one at column 1, row 0; grass
/// shows three tiles (top, sides, bottom), different from each other and
/// from those of stone and dirt; every tile lies in the atlas of three
/// columns by two rows.
pub proof fn law_atlas_tiles(block: BlockType, face: BlockFace, other: BlockFace)
    ensures
        tile_of(BlockType::Stone, face) == tile_of(BlockType::Stone, other),
        tile_of(BlockType::Dirt, face) == tile_of(BlockType::Dirt, other),
        tile_of(BlockType::Stone, face) == Some((0u32, 0u32)),
        tile_of(BlockType::Dirt, face) == Some((1u32, 0u32)),
        face != other ==> tile_of(BlockType::Grass, face) != tile_of(BlockType::Grass, other),
        tile_of(BlockType::Grass, face) != tile_of(BlockType::Stone, other),
        tile_of(BlockType::Grass, face) != tile_of(BlockType::Dirt, other),
        tile_of(block, face) matches Some(t) ==> t.0 < 3 && t.1 < 2,
{
}

impl BlockType {
    /// The name the block is written under, as `Debug` prints it.
    pub fn name(self) -> (r: &'static str)
        ensures
            r@ == block_name(self),
    {
        match self {
            BlockType::Air => "Air",
            BlockType::Grass => "Grass",
            BlockType::Dirt => "Dirt",
            BlockType::Stone => "Stone",
        }
    }

    /// The block a name stands for: grass, dirt and stone by their names,
    /// air for any other text.
    pub fn from_name(name: &String) -> (r: BlockType)
        ensures
            r == block_named(name@),
    {
        if *name == String::from_str("Stone") {
            BlockType::Stone
        } else if *name == String::from_str("Dirt") {
            BlockType::Dirt
        } else if *name == String::from_str("Grass") {
            BlockType::Grass
        } else {
            BlockType::Air
        }
    }

    /// Whether the block is air.
    pub fn is_empty(self) -> (r: bool)
        ensures
            r == (self == BlockType::Air),
    {
        matches!(self, BlockType::Air)
    }

    /// Whether the block occupies its voxel (anything but air).
    pub fn is_solid(self) -> (r: bool)
        ensures
            r == (self != BlockType::Air),
    {
        !matches!(self, BlockType::Air)
    }

    /// The atlas tile of one face of the block.
    pub fn atlas_tile(self, face: BlockFace) -> (r: Option<(u32, u32)>)
        ensures
            r == tile_of(self, face),
    {
        match self {
            BlockType::Air => None,
            BlockType::Stone => Some((0, 0)),
            BlockType::Dirt => Some((1, 0)),
            BlockType::Grass => match face {
                BlockFace::Top => Some((2, 0)),
                BlockFace::Side => Some((0, 1)),
                BlockFace::Bottom => Some((1, 1)),
            },
        }
    }
}

} // verus!
