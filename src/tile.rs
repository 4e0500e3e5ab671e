use vstd::prelude::*;

verus! {

/// The state of one cell of a board.
#[derive(Debug, Clone, Copy, PartialEq, Eq, Structural)]
pub enum Tile {
    Empty,
    Walkable,
    Wall,
}

/// The integer code of a tile in the serialized formats.
pub open spec fn code_of(t: Tile) -> int {
    match t {
        Tile::Empty => 0,
        Tile::Walkable => 1,
        Tile::Wall => 2,
    }
}

/// The tile that an integer code stands for; unknown codes read as `Empty`.
pub open spec fn tile_of_code(c: int) -> Tile {
    if c == 1 {
        Tile::Walkable
    } else if c == 2 {
        Tile::Wall
    } else {
        Tile::Empty
    }
}

/// The one-character glyph of a tile in the text rendering.
pub open spec fn glyph_of(t: Tile) -> Seq<char> {
    match t {
        Tile::Empty => seq![' '],
        Tile::Walkable => seq!['1'],
        Tile::Wall => seq!['2'],
    }
}

impl Tile {
    /// The integer code of this tile: `Empty` 0, `Walkable` 1, `Wall` 2.
    pub fn code(&self) -> (r: i32)
        ensures
            r as int == code_of(*self),
    {
        match self {
            Tile::Empty => 0,
            Tile::Walkable => 1,
            Tile::Wall => 2,
        }
    }

    /// The tile of an integer code; any code but 1 and 2 gives `Empty`.
    pub fn from_code(c: i32) -> (r: Tile)
        ensures
            r == tile_of_code(c as int),
    {
        if c == 1 {
            Tile::Walkable
        } else if c == 2 {
            Tile::Wall
        } else {
            Tile::Empty
        }
    }

    /// The glyph of this tile: a space, `1` or `2`.
    pub fn to_string(&self) -> (r: String)
        ensures
            r@ == glyph_of(*self),
    {
        match self {
            Tile::Empty => {
                proof {
                    reveal_strlit(" ");
                }
                String::from_str(" ")
            },
            Tile::Walkable => {
                proof {
                    reveal_strlit("1");
                }
                String::from_str("1")
            },
            Tile::Wall => {
                proof {
                    reveal_strlit("2");
                }
                String::from_str("2")
            },
        }
    }
}

/// Decoding the code of a tile gives the tile back.
pub proof fn lemma_code_round_trip(t: Tile)
    ensures
        tile_of_code(code_of(t)) == t,
        0 <= code_of(t) <= 2,
{
}

/// The rows of a grid of tiles, each as a sequence.
pub open spec fn grid_view(g: Vec<Vec<Tile>>) -> Seq<Seq<Tile>> {
    g@.map_values(|row: Vec<Tile>| row@)
}

/// The rows of a grid of integer codes, each as a sequence of integers.
pub open spec fn codes_view(g: Vec<Vec<i32>>) -> Seq<Seq<int>> {
    g@.map_values(|row: Vec<i32>| row@.map_values(|c: i32| c as int))
}

/// The code grid of a tile grid, cell by cell.
pub open spec fn encode_grid(g: Seq<Seq<Tile>>) -> Seq<Seq<int>> {
    g.map_values(|row: Seq<Tile>| row.map_values(|t: Tile| code_of(t)))
}

/// The tile grid of a code grid, cell by cell.
pub open spec fn decode_grid(g: Seq<Seq<int>>) -> Seq<Seq<Tile>> {
    g.map_values(|row: Seq<int>| row.map_values(|c: int| tile_of_code(c)))
}

/// Encodes a grid of tiles as a grid of integer codes, row by row.
pub fn grid_to_codes(g: &Vec<Vec<Tile>>) -> (r: Vec<Vec<i32>>)
    ensures
        codes_view(r) == encode_grid(grid_view(*g)),
{
    let mut out: Vec<Vec<i32>> = Vec::new();
    let mut i: usize = 0;
    while i < g.len()
        invariant
            i <= g@.len(),
            out@.len() == i,
            forall|k: int|
                0 <= k < i ==> (#[trigger] out@[k])@.map_values(|c: i32| c as int)
                    == g@[k]@.map_values(|t: Tile| code_of(t)),
        decreases g@.len() - i,
    {
        let row = &g[i];
        let mut codes: Vec<i32> = Vec::new();
        let mut j: usize = 0;
        while j < row.len()
            invariant
                j <= row@.len(),
                codes@.len() == j,
                forall|m: int| 0 <= m < j ==> #[trigger] codes@[m] as int == code_of(row@[m]),
            decreases row@.len() - j,
        {
            codes.push(row[j].code());
            j = j + 1;
        }
        assert(codes@.map_values(|c: i32| c as int) =~= row@.map_values(|t: Tile| code_of(t)));
        out.push(codes);
        i = i + 1;
    }
    assert(codes_view(out) =~= encode_grid(grid_view(*g)));
    out
}

/// Decodes a grid of integer codes into tiles, row by row; unknown codes
/// become `Empty`.
pub fn grid_from_codes(g: &Vec<Vec<i32>>) -> (r: Vec<Vec<Tile>>)
    ensures
        grid_view(r) == decode_grid(codes_view(*g)),
{
    let mut out: Vec<Vec<Tile>> = Vec::new();
    let mut i: usize = 0;
    while i < g.len()
        invariant
            i <= g@.len(),
            out@.len() == i,
            forall|k: int|
                0 <= k < i ==> (#[trigger] out@[k])@ == g@[k]@.map_values(
                    |c: i32| c as int,
                ).map_values(|c: int| tile_of_code(c)),
        decreases g@.len() - i,
    {
        let row = &g[i];
        let mut tiles: Vec<Tile> = Vec::new();
        let mut j: usize = 0;
        while j < row.len()
            invariant
                j <= row@.len(),
                tiles@.len() == j,
                forall|m: int| 0 <= m < j ==> #[trigger] tiles@[m] == tile_of_code(row@[m] as int),
            decreases row@.len() - j,
        {
            tiles.push(Tile::from_code(row[j]));
            j = j + 1;
        }
        assert(tiles@ =~= row@.map_values(|c: i32| c as int).map_values(|c: int| tile_of_code(c)));
        out.push(tiles);
        i = i + 1;
    }
    assert(grid_view(out) =~= decode_grid(codes_view(*g)));
    out
}

/// Decoding the encoding of a tile grid gives the same grid back.
pub proof fn lemma_grid_round_trip(g: Seq<Seq<Tile>>)
    ensures
        decode_grid(encode_grid(g)) == g,
{
    assert forall|i: int| 0 <= i < g.len() implies #[trigger] decode_grid(encode_grid(g))[i]
        == g[i] by {
        assert(decode_grid(encode_grid(g))[i] =~= g[i]);
    }
    assert(decode_grid(encode_grid(g)) =~= g);
}

} // verus!
