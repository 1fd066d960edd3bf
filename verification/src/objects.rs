use vstd::prelude::*;

verus! {

/// The things that stand on the map.
#[derive(Copy, Clone, PartialEq, Eq, Structural, Debug)]
pub enum Object {
    Pine,
    Oak,
    LittlePine,
    LittleOak,
    Stump,
    BigHouse,
    Worker,
}

/// One drawing operation on the console.
#[derive(Copy, Clone, PartialEq, Eq, Structural, Debug)]
pub enum DrawCommand {
    /// Tile `tile` of the sprite sheet drawn as a sprite with its top left
    /// corner at pixel `(x, y)`.
    Sprite { tile: usize, x: i32, y: i32 },
    /// Tile `tile` of the sprite sheet drawn as a terrain tile at `(x, y)`.
    Tile { tile: usize, x: i32, y: i32 },
    /// A water ripple: a horizontal line of 4 pixels in draw colour 2
    /// starting at `(x, y)`.
    Ripple { x: i32, y: i32 },
}

/// The sprite at row `j`, column `i` of a block of sheet tiles whose top left
/// tile is `first` (the sheet has 16 tiles per row), drawn with the block's
/// top left corner at `(x0, y0)` and 8 pixels per tile.
pub open spec fn block_sprite(first: int, x0: int, y0: int, j: int, i: int) -> DrawCommand {
    DrawCommand::Sprite {
        tile: (first + j * 16 + i) as usize,
        x: (x0 + i * 8) as i32,
        y: (y0 + j * 8) as i32,
    }
}

/// A block of `rows` rows of 2 tiles, row by row.
pub open spec fn block_of_two(first: int, rows: int, x0: int, y0: int) -> Seq<DrawCommand> {
    Seq::new((rows * 2) as nat, |k: int| block_sprite(first, x0, y0, k / 2, k % 2))
}

/// A block of `rows` rows of 3 tiles, row by row.
pub open spec fn block_of_three(first: int, rows: int, x0: int, y0: int) -> Seq<DrawCommand> {
    Seq::new((rows * 3) as nat, |k: int| block_sprite(first, x0, y0, k / 3, k % 3))
}

/// The sprites that draw object `o` standing at pixel `(x, y)`: trees are
/// 2 x 3 tiles shifted one tile left and two tiles up, the house is 3 x 4
/// tiles shifted one tile left and up; the small things are single tiles.
pub open spec fn object_sprites(o: Object, x: int, y: int) -> Seq<DrawCommand> {
    match o {
        Object::Pine => block_of_two(5, 3, x - 8, y - 16),
        Object::Oak => block_of_two(7, 3, x - 8, y - 16),
        Object::LittlePine => seq![DrawCommand::Sprite { tile: 52, x: (x - 4) as i32, y: (y - 8) as i32 }],
        Object::LittleOak => seq![DrawCommand::Sprite { tile: 53, x: (x - 4) as i32, y: (y - 8) as i32 }],
        Object::Stump => seq![DrawCommand::Sprite { tile: 53, x: (x - 4) as i32, y: (y - 4) as i32 }],
        Object::BigHouse => block_of_three(9, 4, x - 8, y - 8),
        Object::Worker => seq![DrawCommand::Sprite { tile: 14, x: (x - 1) as i32, y: (y - 7) as i32 }],
    }
}

/// The pixel coordinates used for drawing `o` at `(x, y)` fit in an `i32`.
pub open spec fn object_fits(o: Object, x: int, y: int) -> bool {
    match o {
        Object::Pine | Object::Oak => i32::MIN + 8 <= x && i32::MIN + 16 <= y,
        Object::LittlePine | Object::LittleOak => i32::MIN + 4 <= x && i32::MIN + 8 <= y,
        Object::Stump => i32::MIN + 4 <= x && i32::MIN + 4 <= y,
        Object::BigHouse => i32::MIN + 8 <= x <= i32::MAX - 8 && i32::MIN + 8 <= y <= i32::MAX - 16,
        Object::Worker => i32::MIN + 1 <= x && i32::MIN + 7 <= y,
    }
}

/// The sheet tile for each non-empty corner pattern of a terrain cell.
pub open spec fn wang_tile(bits: int) -> int
    recommends
        1 <= bits <= 15,
{
    seq![20int, 19, 1, 4, 16, 36, 0, 3, 35, 18, 2, 33, 32, 34, 48][bits - 1]
}

/// Corner bit of the north-west corner of a terrain cell.
pub const NORTH_WEST_BITS: u8 = 1;

/// Corner bit of the north-east corner.
pub const NORTH_EAST_BITS: u8 = 2;

/// Corner bit of the south-west corner.
pub const SOUTH_WEST_BITS: u8 = 4;

/// Corner bit of the south-east corner.
pub const SOUTH_EAST_BITS: u8 = 8;

/// A terrain cell, by which of its four corners are land.
#[derive(Copy, Clone, PartialEq, Eq, Structural, Debug)]
pub struct TerrainWangTile {
    pub bits: u8,
}

impl Object {
    /// The sprites that draw this object standing at `(x, y)`.
    pub fn blit(&self, x: i32, y: i32) -> (r: Vec<DrawCommand>)
        requires
            object_fits(*self, x as int, y as int),
        ensures
            r@ == object_sprites(*self, x as int, y as int),
    {
        let mut out: Vec<DrawCommand> = Vec::new();
        match self {
            Object::Pine | Object::Oak => {
                let start_tile_x: usize = match self {
                    Object::Pine => 5,
                    _ => 7,
                };
                let start_x = x - 8;
                let start_y = y - 16;
                let ghost want = block_of_two(start_tile_x as int, 3, start_x as int, start_y as int);
                let mut j: usize = 0;
                while j < 3
                    invariant
                        j <= 3,
                        start_x == x - 8,
                        start_y == y - 16,
                        object_fits(*self, x as int, y as int),
                        *self == Object::Pine || *self == Object::Oak,
                        *self == Object::Pine ==> start_tile_x == 5,
                        *self == Object::Oak ==> start_tile_x == 7,
                        want == block_of_two(start_tile_x as int, 3, start_x as int, start_y as int),
                        out@ =~= want.take((j * 2) as int),
                    decreases 3 - j,
                {
                    let mut i: usize = 0;
                    while i < 2
                        invariant
                            i <= 2,
                            j < 3,
                            start_x == x - 8,
                            start_y == y - 16,
                            object_fits(*self, x as int, y as int),
                            *self == Object::Pine || *self == Object::Oak,
                            *self == Object::Pine ==> start_tile_x == 5,
                            *self == Object::Oak ==> start_tile_x == 7,
                            want == block_of_two(start_tile_x as int, 3, start_x as int, start_y as int),
                            out@ =~= want.take((j * 2 + i) as int),
                        decreases 2 - i,
                    {
                        let tile = j * 16 + i + start_tile_x;
                        out.push(DrawCommand::Sprite {
                            tile,
                            x: i as i32 * 8 + start_x,
                            y: j as i32 * 8 + start_y,
                        });
                        proof {
                            let k = (j * 2 + i) as int;
                            assert(k / 2 == j && k % 2 == i);
                            assert(want.take(k + 1) =~= want.take(k).push(want[k]));
                        }
                        i += 1;
                    }
                    j += 1;
                }
            },
            Object::LittlePine => {
                out.push(DrawCommand::Sprite { tile: 52, x: x - 4, y: y - 8 });
            },
            Object::LittleOak => {
                out.push(DrawCommand::Sprite { tile: 53, x: x - 4, y: y - 8 });
            },
            Object::Stump => {
                out.push(DrawCommand::Sprite { tile: 53, x: x - 4, y: y - 4 });
            },
            Object::BigHouse => {
                let start_x = x - 8;
                let start_y = y - 8;
                let start_tile_x: usize = 9;
                let ghost want = block_of_three(start_tile_x as int, 4, start_x as int, start_y as int);
                let mut j: usize = 0;
                while j < 4
                    invariant
                        j <= 4,
                        start_x == x - 8,
                        start_y == y - 8,
                        start_tile_x == 9,
                        object_fits(*self, x as int, y as int),
                        *self == Object::BigHouse,
                        want == block_of_three(start_tile_x as int, 4, start_x as int, start_y as int),
                        out@ =~= want.take((j * 3) as int),
                    decreases 4 - j,
                {
                    let mut i: usize = 0;
                    while i < 3
                        invariant
                            i <= 3,
                            j < 4,
                            start_x == x - 8,
                            start_y == y - 8,
                            start_tile_x == 9,
                            object_fits(*self, x as int, y as int),
                            *self == Object::BigHouse,
                            want == block_of_three(start_tile_x as int, 4, start_x as int, start_y as int),
                            out@ =~= want.take((j * 3 + i) as int),
                        decreases 3 - i,
                    {
                        let tile = j * 16 + i + start_tile_x;
                        out.push(DrawCommand::Sprite {
                            tile,
                            x: i as i32 * 8 + start_x,
                            y: j as i32 * 8 + start_y,
                        });
                        proof {
                            let k = (j * 3 + i) as int;
                            assert(k / 3 == j && k % 3 == i);
                            assert(want.take(k + 1) =~= want.take(k).push(want[k]));
                        }
                        i += 1;
                    }
                    j += 1;
                }
            },
            Object::Worker => {
                out.push(DrawCommand::Sprite { tile: 14, x: x - 1, y: y - 7 });
            },
        }
        proof {
            let want = object_sprites(*self, x as int, y as int);
            assert(out@ =~= want.take(want.len() as int));
        }
        out
    }
}

/// The sheet tile for a non-empty corner pattern.
fn wang_index(bits: u8) -> (r: usize)
    requires
        1 <= bits <= 15,
    ensures
        r == wang_tile(bits as int),
{
    let table: [usize; 15] = [20, 19, 1, 4, 16, 36, 0, 3, 35, 18, 2, 33, 32, 34, 48];
    proof {
        assert(table@ =~= seq![20usize, 19, 1, 4, 16, 36, 0, 3, 35, 18, 2, 33, 32, 34, 48]);
    }
    table[(bits - 1) as usize]
}

impl TerrainWangTile {
    /// The terrain tile for this corner pattern at `(x, y)`; nothing when no
    /// corner is land (the background colour shows).
    pub fn blit(&self, x: i32, y: i32) -> (r: Option<DrawCommand>)
        requires
            self.bits <= 15,
        ensures
            r == (if self.bits == 0 {
                None
            } else {
                Some(DrawCommand::Tile { tile: wang_tile(self.bits as int) as usize, x, y })
            }),
    {
        if self.bits == 0 {
            return None;
        }
        let tile = wang_index(self.bits);
        Some(DrawCommand::Tile { tile, x, y })
    }
}

} // verus!
