use vstd::prelude::*;

verus! {

/// One of the five placeable tile values: four "normal" kinds and one "wild"
/// kind. The wild kind exists for representational completeness; the dealing
/// generator never produces it.
#[derive(Clone, Copy, Debug, Eq, Hash, PartialEq, Structural)]
pub enum Block {
    Normal1,
    Normal2,
    Normal3,
    Normal4,
    Wild,
}

impl Block {
    /// How many block kinds there are.
    pub const NUM: usize = 5;

    /// The smallest raw encoding.
    pub const MIN_VALUE: u8 = 1;

    /// The largest raw encoding.
    pub const MAX_VALUE: u8 = 5;

    /// Raw encoding of a block: the ordinal integer `1..=5`.
    pub open spec fn inner_spec(self) -> u8 {
        match self {
            Block::Normal1 => 1,
            Block::Normal2 => 2,
            Block::Normal3 => 3,
            Block::Normal4 => 4,
            Block::Wild => 5,
        }
    }

    /// Zero-based index of a block: `0..=4`.
    pub open spec fn index_spec(self) -> int {
        self.inner_spec() - 1
    }

    pub open spec fn from_inner_spec(inner: u8) -> Option<Block> {
        match inner {
            1u8 => Some(Block::Normal1),
            2u8 => Some(Block::Normal2),
            3u8 => Some(Block::Normal3),
            4u8 => Some(Block::Normal4),
            5u8 => Some(Block::Wild),
            _ => None,
        }
    }

    pub fn from_inner(inner: u8) -> (r: Option<Block>)
        ensures
            r == Block::from_inner_spec(inner),
            r is Some <==> 1 <= inner <= 5,
            r matches Some(b) ==> b.inner_spec() == inner,
    {
        match inner {
            1u8 => Some(Block::Normal1),
            2u8 => Some(Block::Normal2),
            3u8 => Some(Block::Normal3),
            4u8 => Some(Block::Normal4),
            5u8 => Some(Block::Wild),
            _ => None,
        }
    }

    pub fn to_inner(self) -> (r: u8)
        ensures
            r == self.inner_spec(),
            1 <= r <= 5,
    {
        match self {
            Block::Normal1 => 1,
            Block::Normal2 => 2,
            Block::Normal3 => 3,
            Block::Normal4 => 4,
            Block::Wild => 5,
        }
    }

    pub fn to_index(self) -> (r: usize)
        ensures
            r == self.index_spec(),
            r < 5,
    {
        (self.to_inner() - 1) as usize
    }

    pub fn is_valid(inner: u8) -> (r: bool)
        ensures
            r == (1 <= inner <= 5),
    {
        1 <= inner && inner <= 5
    }

    pub fn all() -> (r: [Block; 5])
        ensures
            r@ =~= seq![
                Block::Normal1,
                Block::Normal2,
                Block::Normal3,
                Block::Normal4,
                Block::Wild,
            ],
    {
        let r = [
            Block::Normal1,
            Block::Normal2,
            Block::Normal3,
            Block::Normal4,
            Block::Wild,
        ];
        proof {
            assert(r@[0] == Block::Normal1);
            assert(r@[1] == Block::Normal2);
            assert(r@[2] == Block::Normal3);
            assert(r@[3] == Block::Normal4);
            assert(r@[4] == Block::Wild);
        }
        r
    }
}

/// The playfield: 8 columns by 6 rows, row-major, each cell either empty or
/// holding one block.
pub type Blocks = [Option<Block>; 48];

/// The character a cell prints as: `.` for empty, `1`-`4` for the normal
/// kinds, `5` for wild.
pub open spec fn cell_char(c: Option<Block>) -> char {
    match c {
        None => '.',
        Some(Block::Normal1) => '1',
        Some(Block::Normal2) => '2',
        Some(Block::Normal3) => '3',
        Some(Block::Normal4) => '4',
        Some(Block::Wild) => '5',
    }
}

/// The rendering of a board: six rows of eight cell characters, row-major,
/// each row ended by a newline.
pub open spec fn render_spec(b: Seq<Option<Block>>) -> Seq<char> {
    Seq::new(
        54,
        |i: int|
            if i % 9 == 8 {
                '\n'
            } else {
                cell_char(b[(i / 9) * 8 + (i % 9)])
            },
    )
}

/// Relies on `String::push`: appends the given character at the end of the
/// string.
#[verifier::external_body]
fn push_char(s: &mut String, c: char)
    ensures
        final(s)@ == old(s)@.push(c),
{
    s.push(c);
}

pub fn blocks_display<'a>(blocks: &'a Blocks) -> (r: BlocksDisplay<'a>)
    ensures
        r.0 == blocks,
{
    BlocksDisplay(blocks)
}

/// A board wrapped for printing.
#[derive(Debug)]
pub struct BlocksDisplay<'a>(pub &'a Blocks);

impl<'a> BlocksDisplay<'a> {
    /// The board's printable form, exactly as `render_spec` lays it out.
    pub fn render(&self) -> (r: String)
        ensures
            r@ == render_spec(self.0@),
    {
        let mut s = String::new();
        let ghost target = render_spec(self.0@);
        proof {
            assert(s@ =~= target.subrange(0, 0));
        }
        let mut y: usize = 0;
        while y < 6
            invariant
                y <= 6,
                s@ == render_spec(self.0@).subrange(0, 9 * y as int),
            decreases 6 - y,
        {
            let mut x: usize = 0;
            while x < 8
                invariant
                    y < 6,
                    x <= 8,
                    s@ == render_spec(self.0@).subrange(0, 9 * y as int + x as int),
                decreases 8 - x,
            {
                let c = match self.0[8 * y + x] {
                    None => '.',
                    Some(Block::Normal1) => '1',
                    Some(Block::Normal2) => '2',
                    Some(Block::Normal3) => '3',
                    Some(Block::Normal4) => '4',
                    Some(Block::Wild) => '5',
                };
                push_char(&mut s, c);
                proof {
                    let i = 9 * y as int + x as int;
                    assert(i % 9 == x as int && i / 9 == y as int) by (nonlinear_arith)
                        requires
                            0 <= x < 9,
                            0 <= y,
                            i == 9 * y as int + x as int,
                    ;
                    assert(render_spec(self.0@)[i] == cell_char(self.0@[8 * y as int + x as int]));
                    assert(s@ =~= render_spec(self.0@).subrange(0, i + 1));
                }
                x = x + 1;
            }
            push_char(&mut s, '\n');
            proof {
                let i = 9 * y as int + 8;
                assert(i % 9 == 8) by (nonlinear_arith)
                    requires
                        0 <= y,
                        i == 9 * y as int + 8,
                ;
                assert(render_spec(self.0@)[i] == '\n');
                assert(s@ =~= render_spec(self.0@).subrange(0, 9 * (y as int + 1)));
            }
            y = y + 1;
        }
        proof {
            assert(render_spec(self.0@).subrange(0, 54) =~= render_spec(self.0@));
        }
        s
    }
}

} // verus!
