use vstd::prelude::*;
use crate::objects::{
    DrawCommand, TerrainWangTile, wang_tile, NORTH_WEST_BITS, NORTH_EAST_BITS, SOUTH_WEST_BITS,
    SOUTH_EAST_BITS,
};

verus! {

/// Terrain corners: a 21 x 21 array in row-major order, 1 for land.
#[derive(Copy, Clone)]
pub struct Tilemap {
    pub map: [u8; 441],
}

/// The corner pattern of terrain cell `(i, j)`: bit 1 for a north-west land
/// corner, 2 north-east, 4 south-west, 8 south-east.
pub open spec fn corner_bits(map: Seq<u8>, i: int, j: int) -> int {
    (if map[j * 21 + i] == 1 { 1int } else { 0int })
    + (if map[j * 21 + i + 1] == 1 { 2int } else { 0int })
    + (if map[(j + 1) * 21 + i] == 1 { 4int } else { 0int })
    + (if map[(j + 1) * 21 + i + 1] == 1 { 8int } else { 0int })
}

/// What cell `(i, j)` contributes to the terrain drawing: a tile at pixel
/// `(2i, 2j)` unless no corner is land.
pub open spec fn cell_draws(map: Seq<u8>, i: int, j: int) -> Seq<DrawCommand> {
    let b = corner_bits(map, i, j);
    if b == 0 {
        Seq::empty()
    } else {
        seq![DrawCommand::Tile { tile: wang_tile(b) as usize, x: (i * 2) as i32, y: (j * 2) as i32 }]
    }
}

/// The drawing of the first `n` cells of row `j`, left to right.
pub open spec fn row_draws(map: Seq<u8>, j: int, n: int) -> Seq<DrawCommand>
    decreases n,
{
    if n <= 0 {
        Seq::empty()
    } else {
        row_draws(map, j, n - 1) + cell_draws(map, n - 1, j)
    }
}

/// The drawing of the first `m` rows of 20 cells, top to bottom.
pub open spec fn terrain_draws(map: Seq<u8>, m: int) -> Seq<DrawCommand>
    decreases m,
{
    if m <= 0 {
        Seq::empty()
    } else {
        terrain_draws(map, m - 1) + row_draws(map, m - 1, 20)
    }
}

proof fn lemma_or_fresh_bit(b: u8, m: u8)
    requires
        m == 2 || m == 4 || m == 8,
        b < m,
    ensures
        b | m == b + m,
{
    assert(b | m == b + m) by (bit_vector)
        requires
            m == 2 || m == 4 || m == 8,
            b < m,
    ;
}

impl Tilemap {
    /// The terrain tiles of the 20 x 20 cells, row by row.
    pub fn draw(&self) -> (r: Vec<DrawCommand>)
        ensures
            r@ == terrain_draws(self.map@, 20),
    {
        let mut out: Vec<DrawCommand> = Vec::new();
        let mut j: usize = 0;
        while j < 20
            invariant
                j <= 20,
                out@ == terrain_draws(self.map@, j as int),
            decreases 20 - j,
        {
            let ghost before = out@;
            let mut i: usize = 0;
            while i < 20
                invariant
                    i <= 20,
                    j < 20,
                    before == terrain_draws(self.map@, j as int),
                    out@ == before + row_draws(self.map@, j as int, i as int),
                decreases 20 - i,
            {
                let nw = self.map[j * 21 + i];
                let ne = self.map[j * 21 + i + 1];
                let sw = self.map[(j + 1) * 21 + i];
                let se = self.map[(j + 1) * 21 + i + 1];
                let mut bits: u8 = if nw == 1 { NORTH_WEST_BITS } else { 0 };
                if ne == 1 {
                    proof { lemma_or_fresh_bit(bits, 2); }
                    bits |= NORTH_EAST_BITS;
                }
                if sw == 1 {
                    proof { lemma_or_fresh_bit(bits, 4); }
                    bits |= SOUTH_WEST_BITS;
                }
                if se == 1 {
                    proof { lemma_or_fresh_bit(bits, 8); }
                    bits |= SOUTH_EAST_BITS;
                }
                assert(bits as int == corner_bits(self.map@, i as int, j as int));
                let tile = TerrainWangTile { bits };
                let x = (i * 2) as i32;
                let y = (j * 2) as i32;
                let ghost mid = out@;
                match tile.blit(x, y) {
                    Some(cmd) => {
                        out.push(cmd);
                    },
                    None => {},
                }
                proof {
                    assert(out@ =~= mid + cell_draws(self.map@, i as int, j as int));
                    assert(row_draws(self.map@, j as int, i + 1) == row_draws(self.map@, j as int, i as int)
                        + cell_draws(self.map@, i as int, j as int));
                    assert(out@ =~= before + row_draws(self.map@, j as int, i + 1));
                }
                i += 1;
            }
            proof {
                assert(terrain_draws(self.map@, j + 1) == before + row_draws(self.map@, j as int, 20));
            }
            j += 1;
        }
        out
    }
}

} // verus!
