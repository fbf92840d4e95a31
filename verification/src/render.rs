use vstd::prelude::*;

use vstd::string::StringExecFns;

use crate::tile::Tile;
use crate::tile_map::{
    lemma_cell_index_bounds, lemma_neighbor_bombs_upto_bounds, tile_for_count, TileMap,
};

verus! {

/// The decimal digit character for `d` (0 through 9).
pub open spec fn digit_char(d: int) -> char {
    if d == 0 {
        '0'
    } else if d == 1 {
        '1'
    } else if d == 2 {
        '2'
    } else if d == 3 {
        '3'
    } else if d == 4 {
        '4'
    } else if d == 5 {
        '5'
    } else if d == 6 {
        '6'
    } else if d == 7 {
        '7'
    } else if d == 8 {
        '8'
    } else {
        '9'
    }
}

/// The decimal rendering of a non-negative number, most significant
/// digit first.
pub open spec fn dec_rep(n: int) -> Seq<char>
    decreases n,
{
    if n < 10 {
        seq![digit_char(n)]
    } else {
        dec_rep(n / 10) + seq![digit_char(n % 10)]
    }
}

/// A run of `k` dashes.
pub open spec fn dash_line(k: int) -> Seq<char>
    decreases k,
{
    if k <= 0 {
        Seq::empty()
    } else {
        dash_line(k - 1) + seq!['-']
    }
}

/// The character one tile renders as: a blank for `Empty`, an asterisk
/// for a bomb, the digit for a numbered cell.
pub open spec fn tile_char(t: Tile) -> char {
    match t {
        Tile::Empty => ' ',
        Tile::Bomb => '*',
        Tile::BombNeighbor(v) => digit_char(v as int),
    }
}

/// Appends one decimal digit character.
fn push_digit(buf: &mut String, d: u16)
    requires
        d <= 9,
    ensures
        final(buf)@ == old(buf)@ + seq![digit_char(d as int)],
{
    proof {
        reveal_strlit("0");
        reveal_strlit("1");
        reveal_strlit("2");
        reveal_strlit("3");
        reveal_strlit("4");
        reveal_strlit("5");
        reveal_strlit("6");
        reveal_strlit("7");
        reveal_strlit("8");
        reveal_strlit("9");
    }
    if d == 0 {
        buf.append("0");
    } else if d == 1 {
        buf.append("1");
    } else if d == 2 {
        buf.append("2");
    } else if d == 3 {
        buf.append("3");
    } else if d == 4 {
        buf.append("4");
    } else if d == 5 {
        buf.append("5");
    } else if d == 6 {
        buf.append("6");
    } else if d == 7 {
        buf.append("7");
    } else if d == 8 {
        buf.append("8");
    } else {
        buf.append("9");
    }
    proof {
        assert(buf@ =~= old(buf)@ + seq![digit_char(d as int)]);
    }
}

/// Appends the decimal rendering of `n`.
fn push_decimal(buf: &mut String, n: u16)
    ensures
        final(buf)@ == old(buf)@ + dec_rep(n as int),
    decreases n,
{
    if n < 10 {
        push_digit(buf, n);
    } else {
        push_decimal(buf, n / 10);
        push_digit(buf, n % 10);
        proof {
            assert(buf@ =~= old(buf)@ + dec_rep(n as int));
        }
    }
}

/// Appends `k` dashes.
fn push_dashes(buf: &mut String, k: u32)
    ensures
        final(buf)@ == old(buf)@ + dash_line(k as int),
{
    proof {
        assert(old(buf)@ =~= old(buf)@ + dash_line(0));
    }
    let mut i: u32 = 0;
    while i < k
        invariant
            i <= k,
            buf@ == old(buf)@ + dash_line(i as int),
        decreases k - i,
    {
        proof {
            reveal_strlit("-");
        }
        buf.append("-");
        proof {
            assert(buf@ =~= old(buf)@ + dash_line(i as int + 1));
        }
        i += 1;
    }
}

/// Appends one tile's character.
fn push_tile(buf: &mut String, t: Tile)
    requires
        t matches Tile::BombNeighbor(v) ==> v <= 9,
    ensures
        final(buf)@ == old(buf)@ + seq![tile_char(t)],
{
    match t {
        Tile::Empty => {
            proof {
                reveal_strlit(" ");
            }
            buf.append(" ");
            proof {
                assert(buf@ =~= old(buf)@ + seq![tile_char(t)]);
            }
        },
        Tile::Bomb => {
            proof {
                reveal_strlit("*");
            }
            buf.append("*");
            proof {
                assert(buf@ =~= old(buf)@ + seq![tile_char(t)]);
            }
        },
        Tile::BombNeighbor(v) => {
            push_digit(buf, v as u16);
        },
    }
}

impl TileMap {
    /// The characters of the first `k` cells of row `y`, left to right.
    pub open spec fn row_chars(self, y: int, k: int) -> Seq<char>
        decreases k,
    {
        if k <= 0 {
            Seq::empty()
        } else {
            self.row_chars(y, k - 1) + seq![tile_char(self.tile_at(k - 1, y))]
        }
    }

    /// The first `k` rendered rows, highest row first, each between
    /// vertical bars.
    pub open spec fn rows_rendered(self, k: int) -> Seq<char>
        decreases k,
    {
        if k <= 0 {
            Seq::empty()
        } else {
            self.rows_rendered(k - 1) + seq!['|'] + self.row_chars(
                self.height as int - k,
                self.width as int,
            ) + seq!['|', '\n']
        }
    }

    /// The full text rendering: a header naming the dimensions and bomb
    /// total, a dashed rule, the rows from the top of the board down,
    /// and a closing dashed rule.
    pub open spec fn spec_console_output(self) -> Seq<char> {
        "Map ("@ + dec_rep(self.width as int) + ", "@ + dec_rep(self.height as int) + ") with "@
            + dec_rep(self.bomb_count as int) + " bombs:\n"@ + dash_line(self.width as int + 2)
            + "\n"@ + self.rows_rendered(self.height as int) + dash_line(self.width as int + 2)
    }

    /// Renders the map as text, one row per line with the top row first.
    pub fn console_output(&self) -> (s: String)
        requires
            self.inv(),
        ensures
            s@ == self.spec_console_output(),
    {
        let mut buffer = String::new();
        proof {
            reveal_strlit("Map (");
        }
        buffer.append("Map (");
        push_decimal(&mut buffer, self.width);
        proof {
            reveal_strlit(", ");
        }
        buffer.append(", ");
        push_decimal(&mut buffer, self.height);
        proof {
            reveal_strlit(") with ");
        }
        buffer.append(") with ");
        push_decimal(&mut buffer, self.bomb_count);
        proof {
            reveal_strlit(" bombs:\n");
        }
        buffer.append(" bombs:\n");
        let dash_count: u32 = self.width as u32 + 2;
        push_dashes(&mut buffer, dash_count);
        proof {
            reveal_strlit("\n");
        }
        buffer.append("\n");
        let ghost head = buffer@;
        proof {
            assert(buffer@ =~= head + self.rows_rendered(0));
        }
        let mut k: u16 = 0;
        while k < self.height
            invariant
                self.inv(),
                k <= self.height,
                buffer@ == head + self.rows_rendered(k as int),
            decreases self.height - k,
        {
            proof {
                reveal_strlit("|");
            }
            buffer.append("|");
            let y: u16 = self.height - 1 - k;
            let ghost rowbase = buffer@;
            proof {
                assert(buffer@ =~= rowbase + self.row_chars(y as int, 0));
            }
            let mut x: u16 = 0;
            while x < self.width
                invariant
                    self.inv(),
                    x <= self.width,
                    y < self.height,
                    buffer@ == rowbase + self.row_chars(y as int, x as int),
                decreases self.width - x,
            {
                proof {
                    lemma_cell_index_bounds(
                        self.width as int,
                        self.height as int,
                        x as int,
                        y as int,
                    );
                }
                let idx: usize = (y as usize) * (self.width as usize) + (x as usize);
                let t = self.tiles[idx];
                proof {
                    assert(t == self.tile_at(x as int, y as int));
                    if !(t is Bomb) {
                        lemma_neighbor_bombs_upto_bounds(*self, x as int, y as int, 8);
                        assert(t == tile_for_count(self.neighbor_bombs(x as int, y as int)));
                    }
                }
                push_tile(&mut buffer, t);
                proof {
                    assert(buffer@ =~= rowbase + self.row_chars(y as int, x as int + 1));
                }
                x += 1;
            }
            proof {
                reveal_strlit("|\n");
            }
            buffer.append("|\n");
            proof {
                assert(buffer@ =~= head + self.rows_rendered(k as int + 1));
            }
            k += 1;
        }
        push_dashes(&mut buffer, dash_count);
        proof {
            assert(buffer@ =~= self.spec_console_output());
        }
        buffer
    }
}

} // verus!
