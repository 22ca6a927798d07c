use vstd::prelude::*;

use crate::block::Block;
use crate::rom::Rom;

verus! {

/// 5-bit rotate-right of an 8-bit value: the low four bits move to the top,
/// `carry` is rotated into bit 4.
pub open spec fn ror4_spec(x: u8, carry: bool) -> u8 {
    (x >> 4) | ((x & 7) << 5) | (if carry {
        0x10u8
    } else {
        0u8
    })
}

pub fn ror4(x: u8, carry: bool) -> (r: u8)
    ensures
        r == ror4_spec(x, carry),
{
    (x >> 4) | ((x & 7) << 5) | (if carry {
        0x10
    } else {
        0
    })
}

/// Any value of the form `0x8000 | (z & 0x1FFF)` is a cursor into the top
/// `0x2000`-byte window of the program segment.
proof fn lemma_masked_ptr_range(z: u16)
    by (bit_vector)
    ensures
        0x8000 <= (0x8000u16 | (z & 0x1fff)) <= 0x9fff,
{
}

/// The pseudo-random generator behind a deal: two 8-bit counters and a
/// cursor into the program segment from which raw bytes are read.
#[derive(Clone, Copy, Debug, Eq, PartialEq)]
pub struct DealRng {
    pub state: [u8; 2],
    pub ptr: u16,
}

/// The transient cursor read in the second half of a generation step,
/// computed from the already-updated counters and persistent cursor.
pub open spec fn transient_cursor(st: DealRng) -> u16 {
    0x8000u16 | (((st.state[1] as u16) | ((st.state[0] as u16) << 8)).wrapping_sub(st.ptr)
        & 0x1fff)
}

/// Select the 2-bit field of `x` chosen by `sel` (bits 0-1, 2-3, 4-5 or 6-7).
pub open spec fn field_of(x: u8, sel: u8) -> u8 {
    if sel == 0 {
        x & 3
    } else if sel == 1 {
        (x >> 2) & 3
    } else if sel == 2 {
        (x >> 4) & 3
    } else {
        (x >> 6) & 3
    }
}

/// The normal block of zero-based index `field` (always in `0..4`, so the
/// wild kind is never produced).
pub open spec fn block_of_field(field: u8) -> Block {
    if field == 0 {
        Block::Normal1
    } else if field == 1 {
        Block::Normal2
    } else if field == 2 {
        Block::Normal3
    } else {
        Block::Normal4
    }
}

/// One generation step: bump both counters (wrapping), read a raw byte at
/// the persistent cursor, advance the cursor by the 16-bit value assembled
/// low-byte-first from the counters, read a selector byte at the transient
/// cursor, and pick a 2-bit field of the raw byte.
pub open spec fn gen_step(st: DealRng, prg: Seq<u8>) -> (DealRng, Block) {
    let s0 = st.state[0].wrapping_add(1);
    let s1 = st.state[1].wrapping_sub(1);
    let x = prg[st.ptr - 0x8000];
    let st2 = DealRng {
        state: [s0, s1],
        ptr: 0x8000u16 | (st.ptr.wrapping_add((s0 as u16) | ((s1 as u16) << 8)) & 0x1fff),
    };
    let y = prg[transient_cursor(st2) - 0x8000];
    (st2, block_of_field(field_of(x, (y >> 1) & 3)))
}

/// The 2-bit field and the selector are both below 4, whatever the bytes.
proof fn lemma_field_bounds(x: u8, y: u8)
    by (bit_vector)
    ensures
        (y >> 1) & 3 < 4,
        x & 3 < 4,
        (x >> 2) & 3 < 4,
        (x >> 4) & 3 < 4,
        (x >> 6) & 3 < 4,
{
}

impl DealRng {
    /// The cursor lies in `[0x8000, 0x9FFF]`: it always offsets into the
    /// top `0x2000`-byte window of the program segment.
    pub open spec fn wf(self) -> bool {
        0x8000 <= self.ptr <= 0x9fff
    }

    /// The generator state produced by seeding: counters from the raw seed,
    /// cursor from the masked first seed byte and the rotated second one.
    pub open spec fn init_spec(state: [u8; 2], carry: bool) -> DealRng {
        DealRng {
            state,
            ptr: 0x8000u16 | (((state[0] & 0x1f) as u16) << 8) | (ror4_spec(state[1], carry)
                as u16),
        }
    }

    pub fn new(state: [u8; 2], carry: bool) -> (r: DealRng)
        ensures
            r == DealRng::init_spec(state, carry),
            r.wf(),
    {
        let ptr = 0x8000u16 | (((state[0] & 0x1f) as u16) << 8) | (ror4(state[1], carry)
            as u16);
        proof {
            lemma_init_ptr_range(state[0], ror4_spec(state[1], carry));
        }
        DealRng { state, ptr }
    }

    /// One call of the generator: mutates the counters and the persistent
    /// cursor exactly as `gen_step` describes and returns the drawn block,
    /// which is never the wild kind.
    pub fn gen_block(&mut self, rom: &Rom) -> (r: Block)
        requires
            old(self).wf(),
            rom.wf(),
        ensures
            (*final(self), r) == gen_step(*old(self), rom.prg_spec()),
            final(self).wf(),
            r != Block::Wild,
            0 <= r.index_spec() < 4,
    {
        let s0 = self.state[0].wrapping_add(1);
        let s1 = self.state[1].wrapping_sub(1);
        self.state = [s0, s1];

        let x = rom.prg()[(self.ptr - 0x8000) as usize];

        let rhs: u16 = (s0 as u16) | ((s1 as u16) << 8);
        proof {
            lemma_masked_ptr_range(self.ptr.wrapping_add(rhs));
        }
        self.ptr = 0x8000u16 | (self.ptr.wrapping_add(rhs) & 0x1fff);

        let lhs: u16 = (s1 as u16) | ((s0 as u16) << 8);
        proof {
            lemma_masked_ptr_range(lhs.wrapping_sub(self.ptr));
        }
        let tptr: u16 = 0x8000u16 | (lhs.wrapping_sub(self.ptr) & 0x1fff);
        let y = rom.prg()[(tptr - 0x8000) as usize];

        let sel = (y >> 1) & 3;
        proof {
            lemma_field_bounds(x, y);
        }
        let field = if sel == 0 {
            x & 3
        } else if sel == 1 {
            (x >> 2) & 3
        } else if sel == 2 {
            (x >> 4) & 3
        } else {
            (x >> 6) & 3
        };

        Block::from_inner(1 + field).unwrap()
    }
}

/// The fixed 32-entry table mapping `stage mod 32` to a stage kind in
/// `{0, 1, 2}`. Fixed game data: no closed form derives it.
pub open spec fn stage_kind_table() -> Seq<u8> {
    seq![
        0u8, 0, 0, 1, 1, 1, 1, 2,
        2, 2, 2, 1, 2, 2, 2, 1,
        1, 1, 1, 1, 1, 1, 1, 2,
        2, 2, 2, 2, 2, 0, 1, 1,
    ]
}

/// The stage kind of a stage index: only the low five bits matter.
pub open spec fn stage_kind_spec(stage: u8) -> int {
    stage_kind_table()[(stage & 0x1f) as int] as int
}

/// The fixed 12-row quota table: row `kind * 4 + sel` holds the per-kind
/// quota vector of the first half and of the second half. Fixed game
/// data: no closed form derives it.
pub open spec fn block_counts_table() -> Seq<(Seq<u8>, Seq<u8>)> {
    seq![
        (seq![3u8, 2, 2, 2], seq![4u8, 4, 4, 4]),
        (seq![2u8, 3, 2, 2], seq![4u8, 4, 4, 4]),
        (seq![2u8, 2, 3, 2], seq![4u8, 4, 4, 4]),
        (seq![2u8, 2, 2, 3], seq![4u8, 4, 4, 4]),
        (seq![2u8, 2, 3, 3], seq![5u8, 5, 5, 5]),
        (seq![3u8, 3, 2, 2], seq![5u8, 5, 5, 5]),
        (seq![2u8, 3, 2, 3], seq![5u8, 5, 5, 5]),
        (seq![3u8, 2, 3, 2], seq![5u8, 5, 5, 5]),
        (seq![2u8, 3, 3, 3], seq![7u8, 6, 6, 6]),
        (seq![3u8, 2, 3, 3], seq![6u8, 7, 6, 6]),
        (seq![3u8, 3, 2, 3], seq![6u8, 6, 7, 6]),
        (seq![3u8, 3, 3, 2], seq![6u8, 6, 6, 7]),
    ]
}

/// The quota vector for a stage, a seed's first byte and a half: the row is
/// picked by the stage kind and bits 2-3 of the seed byte.
pub open spec fn counts_spec(stage: u8, seed0: u8, second: bool) -> Seq<u8> {
    let row = block_counts_table()[stage_kind_spec(stage) * 4 + ((seed0 >> 2) & 3)];
    if second {
        row.1
    } else {
        row.0
    }
}

/// The fixed per-kind, per-half ordered list of board positions to fill
/// (row-major index `8 * row + column`). Fixed game data: no closed form
/// derives it.
pub open spec fn idxs_spec(kind: int, second: bool) -> Seq<usize> {
    if kind == 0 {
        if !second {
            seq![8usize, 9, 10, 11, 12, 20, 28, 36, 44]
        } else {
            seq![16usize, 17, 18, 19, 24, 25, 26, 27, 32, 33, 34, 35, 40, 41, 42, 43]
        }
    } else if kind == 1 {
        if !second {
            seq![0usize, 1, 2, 3, 4, 12, 20, 28, 36, 44]
        } else {
            seq![8usize, 9, 10, 11, 16, 17, 18, 19, 24, 25, 26, 27, 32, 33, 34, 35, 40, 41, 42,
                43]
        }
    } else {
        if !second {
            seq![0usize, 1, 2, 3, 4, 5, 13, 21, 29, 37, 45]
        } else {
            seq![8usize, 9, 10, 11, 12, 16, 17, 18, 19, 20, 24, 25, 26, 27, 28, 32, 33, 34, 35,
                36, 40, 41, 42, 43, 44]
        }
    }
}

/// The sum of a four-entry quota vector.
pub open spec fn sum4(s: Seq<u8>) -> int {
    s[0] + s[1] + s[2] + s[3]
}

/// Every entry of the stage-kind table is one of the three kinds.
pub proof fn lemma_stage_kind_range(stage: u8)
    ensures
        0 <= stage_kind_spec(stage) <= 2,
{
    assert((stage & 0x1f) < 32) by (bit_vector);
    assert(forall|i: int|
        0 <= i < 32 ==> #[trigger] stage_kind_table()[i] == 0 || stage_kind_table()[i] == 1
            || stage_kind_table()[i] == 2);
}

/// The cell-order lists hold no duplicates and only valid board positions.
pub proof fn lemma_idxs_props(kind: int, second: bool)
    ensures
        idxs_spec(kind, second).no_duplicates(),
        forall|i: int|
            0 <= i < idxs_spec(kind, second).len() ==> (#[trigger] idxs_spec(kind, second)[i])
                < 48,
{
}

/// In every quota row, the quotas sum to the length of the cell-order list
/// of the same stage kind and half: a deal has exactly one draw per cell.
pub proof fn lemma_counts_cover_cells(stage: u8, seed0: u8, second: bool)
    ensures
        counts_spec(stage, seed0, second).len() == 4,
        sum4(counts_spec(stage, seed0, second)) == idxs_spec(stage_kind_spec(stage), second).len(),
{
    lemma_stage_kind_range(stage);
    assert(((seed0 >> 2) & 3) < 4) by (bit_vector);
}

/// The two halves of a stage kind fill disjoint sets of board positions.
pub proof fn lemma_halves_disjoint(kind: int)
    ensures
        forall|i: int, j: int|
            #![trigger idxs_spec(kind, false)[i], idxs_spec(kind, true)[j]]
            0 <= i < idxs_spec(kind, false).len() && 0 <= j < idxs_spec(kind, true).len()
                ==> idxs_spec(kind, false)[i] != idxs_spec(kind, true)[j],
{
}

/// The parameters of one half of a deal: the per-kind quotas and the
/// ordered board positions to fill.
#[derive(Debug)]
pub struct DealParams {
    pub block_counts: [u8; 4],
    pub idxs: Vec<usize>,
}

impl DealParams {
    /// What the placement pass relies on: four quotas summing to the number
    /// of listed positions, which are distinct and on the board.
    pub open spec fn wf(self) -> bool {
        &&& self.idxs@.no_duplicates()
        &&& forall|i: int| 0 <= i < self.idxs@.len() ==> (#[trigger] self.idxs@[i]) < 48
        &&& sum4(self.block_counts@) == self.idxs@.len()
    }

    pub fn new(stage: u8, rng_state: [u8; 2], second: bool) -> (r: Self)
        ensures
            r.block_counts@ == counts_spec(stage, rng_state[0], second),
            r.idxs@ == idxs_spec(stage_kind_spec(stage), second),
            r.wf(),
    {
        let table: Vec<u8> = vec![
            0, 0, 0, 1, 1, 1, 1, 2,
            2, 2, 2, 1, 2, 2, 2, 1,
            1, 1, 1, 1, 1, 1, 1, 2,
            2, 2, 2, 2, 2, 0, 1, 1,
        ];
        proof {
            assert(table@ =~= stage_kind_table());
            assert((stage & 0x1f) < 32) by (bit_vector);
            lemma_stage_kind_range(stage);
        }
        let stage_kind = table[(stage & 0x1f) as usize] as usize;

        let seed0 = rng_state[0];
        proof {
            assert(((seed0 >> 2) & 3) < 4) by (bit_vector);
        }
        let sel = ((seed0 >> 2) & 3) as usize;
        let row = stage_kind * 4 + sel;

        let block_counts = counts_row(row, second);

        let idxs: Vec<usize> = if stage_kind == 0 {
            if !second {
                vec![8, 9, 10, 11, 12, 20, 28, 36, 44]
            } else {
                vec![16, 17, 18, 19, 24, 25, 26, 27, 32, 33, 34, 35, 40, 41, 42, 43]
            }
        } else if stage_kind == 1 {
            if !second {
                vec![0, 1, 2, 3, 4, 12, 20, 28, 36, 44]
            } else {
                vec![8, 9, 10, 11, 16, 17, 18, 19, 24, 25, 26, 27, 32, 33, 34, 35, 40, 41, 42, 43]
            }
        } else {
            if !second {
                vec![0, 1, 2, 3, 4, 5, 13, 21, 29, 37, 45]
            } else {
                vec![8, 9, 10, 11, 12, 16, 17, 18, 19, 20, 24, 25, 26, 27, 28, 32, 33, 34, 35, 36,
                    40, 41, 42, 43, 44]
            }
        };
        proof {
            assert(idxs@ =~= idxs_spec(stage_kind_spec(stage), second));
            assert(block_counts@ =~= counts_spec(stage, rng_state[0], second));
            lemma_idxs_props(stage_kind_spec(stage), second);
            lemma_counts_cover_cells(stage, rng_state[0], second);
        }

        DealParams { block_counts, idxs }
    }
}

/// The quota vector of one row and half of the fixed quota table.
fn counts_row(row: usize, second: bool) -> (r: [u8; 4])
    requires
        row < 12,
    ensures
        r@ == (if second {
            block_counts_table()[row as int].1
        } else {
            block_counts_table()[row as int].0
        }),
{
    let r: [u8; 4] = match row {
        0 => if second { [4, 4, 4, 4] } else { [3, 2, 2, 2] },
        1 => if second { [4, 4, 4, 4] } else { [2, 3, 2, 2] },
        2 => if second { [4, 4, 4, 4] } else { [2, 2, 3, 2] },
        3 => if second { [4, 4, 4, 4] } else { [2, 2, 2, 3] },
        4 => if second { [5, 5, 5, 5] } else { [2, 2, 3, 3] },
        5 => if second { [5, 5, 5, 5] } else { [3, 3, 2, 2] },
        6 => if second { [5, 5, 5, 5] } else { [2, 3, 2, 3] },
        7 => if second { [5, 5, 5, 5] } else { [3, 2, 3, 2] },
        8 => if second { [7, 6, 6, 6] } else { [2, 3, 3, 3] },
        9 => if second { [6, 7, 6, 6] } else { [3, 2, 3, 3] },
        10 => if second { [6, 6, 7, 6] } else { [3, 3, 2, 3] },
        _ => if second { [6, 6, 6, 7] } else { [3, 3, 3, 2] },
    };
    proof {
        assert(r@ =~= (if second {
            block_counts_table()[row as int].1
        } else {
            block_counts_table()[row as int].0
        }));
    }
    r
}

/// `j` is a board position that the list does not mention.
pub open spec fn absent(idxs: Seq<usize>, j: int) -> bool {
    forall|k: int| 0 <= k < idxs.len() ==> (#[trigger] idxs[k]) as int != j
}

/// Every position the list mentions is still empty on the board.
pub open spec fn cells_none(blocks: Seq<Option<Block>>, idxs: Seq<usize>) -> bool {
    forall|k: int| 0 <= k < idxs.len() ==> blocks[(#[trigger] idxs[k]) as int] is None
}

/// One half of a deal as a recursive relation on the generator state, the
/// remaining quotas, the positions still to fill and the board. Each
/// generation step costs one unit of fuel; a draw whose kind has no quota
/// left is rejected and the position is retried. `None` means the fuel ran
/// out before the half was complete; the placement loop itself has no
/// bound, so its result is characterised as the value this function takes
/// for *some* sufficient fuel.
pub open spec fn part_rec(
    st: DealRng,
    prg: Seq<u8>,
    remains: Seq<u8>,
    idxs: Seq<usize>,
    blocks: Seq<Option<Block>>,
    fuel: nat,
) -> Option<(DealRng, Seq<u8>, Seq<Option<Block>>)>
    decreases fuel,
{
    if idxs.len() == 0 {
        Some((st, remains, blocks))
    } else if fuel == 0 {
        None
    } else {
        let (st2, b) = gen_step(st, prg);
        if remains[b.index_spec()] > 0 {
            part_rec(
                st2,
                prg,
                remains.update(b.index_spec(), (remains[b.index_spec()] - 1) as u8),
                idxs.drop_first(),
                blocks.update(idxs[0] as int, Some(b)),
                (fuel - 1) as nat,
            )
        } else {
            part_rec(st2, prg, remains, idxs, blocks, (fuel - 1) as nat)
        }
    }
}

/// The board `blocks2` and generator state `st2` are a possible outcome of
/// running one half from `st` with quotas `counts` over the positions
/// `idxs`, starting from the board `blocks0`.
pub open spec fn part_models(
    st: DealRng,
    prg: Seq<u8>,
    counts: Seq<u8>,
    idxs: Seq<usize>,
    blocks0: Seq<Option<Block>>,
    st2: DealRng,
    blocks2: Seq<Option<Block>>,
) -> bool {
    exists|fuel: nat|
        (#[trigger] part_rec(st, prg, counts, idxs, blocks0, fuel)) matches Some(t) && t.0 == st2
            && t.2 == blocks2
}

/// As `part_models`, with the witnessing fuel bounded: the outcome is
/// reached within `bound` generation steps.
pub open spec fn part_models_within(
    st: DealRng,
    prg: Seq<u8>,
    counts: Seq<u8>,
    idxs: Seq<usize>,
    blocks0: Seq<Option<Block>>,
    st2: DealRng,
    blocks2: Seq<Option<Block>>,
    bound: nat,
) -> bool {
    exists|fuel: nat|
        {
            &&& fuel <= bound
            &&& (#[trigger] part_rec(st, prg, counts, idxs, blocks0, fuel)) matches Some(t)
                && t.0 == st2 && t.2 == blocks2
        }
}

/// Cap on the number of generation steps one placement pass may take. The
/// generator has fewer than `2^29` distinct states and the quotas never
/// grow, so a pass that makes no progress within this many steps is
/// cycling and would spin forever; a pass that can finish finishes far
/// below it.
pub const DRAW_FUEL: u64 = 0x8_0000_0000;

/// Fill the listed positions in order, drawing from the shared generator
/// and rejecting draws whose kind has exhausted its quota. Requires the
/// listed cells to be empty: the core never writes a cell twice.
///
/// Returns `true` on completion. The rejection loop has no algorithmic
/// bound: for a degenerate program image the draw sequence can avoid the
/// kinds with quota left forever. The pass therefore stops after
/// `DRAW_FUEL` generation steps and returns `false`, which the contract
/// states exactly: the recursive model yields `None` for that much fuel.
pub fn deal_part(
    rom: &Rom,
    params: &DealParams,
    rng: &mut DealRng,
    blocks: &mut crate::block::Blocks,
) -> (ok: bool)
    requires
        rom.wf(),
        old(rng).wf(),
        params.wf(),
        cells_none(old(blocks)@, params.idxs@),
    ensures
        final(rng).wf(),
        ok ==> part_models_within(
            *old(rng),
            rom.prg_spec(),
            params.block_counts@,
            params.idxs@,
            old(blocks)@,
            *final(rng),
            final(blocks)@,
            DRAW_FUEL as nat,
        ),
        ok ==> forall|j: int|
            0 <= j < 48 && absent(params.idxs@, j) ==> final(blocks)@[j] == old(blocks)@[j],
        ok ==> forall|k: int|
            0 <= k < params.idxs@.len() ==> ((#[trigger] final(blocks)@[params.idxs@[k] as int])
                matches Some(b) && b.index_spec() < 4),
        !ok ==> part_rec(
            *old(rng),
            rom.prg_spec(),
            params.block_counts@,
            params.idxs@,
            old(blocks)@,
            DRAW_FUEL as nat,
        ) is None,
{
    let ghost st0 = *rng;
    let ghost blocks0 = blocks@;
    let ghost rem0 = params.block_counts@;
    let ghost prg = rom.prg_spec();
    let ghost idxs = params.idxs@;

    let mut remains: [u8; 4] = params.block_counts;
    let mut fuel_used: u64 = 0;
    let mut ok = true;
    proof {
        assert(idxs.skip(0) =~= idxs);
    }

    let n = params.idxs.len();
    let mut i: usize = 0;
    while i < n
        invariant_except_break
            ok,
            forall|k: int| i <= k < n ==> blocks@[(#[trigger] idxs[k]) as int] is None,
            forall|k: int|
                0 <= k < i ==> ((#[trigger] blocks@[idxs[k] as int]) matches Some(b)
                    && b.index_spec() < 4),
            forall|j: int| 0 <= j < 48 && absent(idxs, j) ==> blocks@[j] == blocks0[j],
            forall|f: nat|
                part_rec(st0, prg, rem0, idxs, blocks0, (fuel_used + f) as nat)
                    == #[trigger] part_rec(*rng, prg, remains@, idxs.skip(i as int), blocks@, f),
        invariant
            n == idxs.len(),
            idxs == params.idxs@,
            i <= n,
            rom.wf(),
            params.wf(),
            rng.wf(),
            rom.prg_spec() == prg,
            fuel_used <= DRAW_FUEL,
        ensures
            rng.wf(),
            ok ==> i == n,
            ok ==> forall|k: int|
                0 <= k < n ==> ((#[trigger] blocks@[idxs[k] as int]) matches Some(b)
                    && b.index_spec() < 4),
            ok ==> forall|j: int| 0 <= j < 48 && absent(idxs, j) ==> blocks@[j] == blocks0[j],
            ok ==> fuel_used <= DRAW_FUEL && forall|f: nat|
                part_rec(st0, prg, rem0, idxs, blocks0, (fuel_used + f) as nat)
                    == #[trigger] part_rec(*rng, prg, remains@, idxs.skip(n as int), blocks@, f),
            !ok ==> part_rec(st0, prg, rem0, idxs, blocks0, DRAW_FUEL as nat) is None,
        decreases n - i,
    {
        let idx = params.idxs[i];
        let ghost st_in = *rng;
        let ghost rem_in = remains@;
        let ghost blocks_in = blocks@;
        let ghost fuel_in = fuel_used;
        let ghost rest = idxs.skip(i as int);
        proof {
            assert(rest.len() == n - i);
            assert(rest[0] == idxs[i as int]);
            assert(forall|f: nat|
                part_rec(st0, prg, rem0, idxs, blocks0, (fuel_in + f) as nat)
                    == #[trigger] part_rec(st_in, prg, rem_in, rest, blocks_in, f));
        }

        let mut drawn: Block = Block::Normal1;
        let mut accepted = true;
        loop
            invariant_except_break
                remains@ == rem_in,
                forall|f: nat|
                    part_rec(st_in, prg, rem_in, rest, blocks_in, ((fuel_used - fuel_in) + f) as nat)
                        == #[trigger] part_rec(*rng, prg, rem_in, rest, blocks_in, f),
            invariant
                rng.wf(),
                rom.wf(),
                rom.prg_spec() == prg,
                rest.len() > 0,
                fuel_used <= DRAW_FUEL,
                fuel_used >= fuel_in,
            ensures
                rng.wf(),
                fuel_used <= DRAW_FUEL,
                fuel_used >= fuel_in,
                accepted ==> drawn.index_spec() < 4,
                accepted ==> rem_in[drawn.index_spec()] > 0,
                accepted ==> remains@ == rem_in.update(
                    drawn.index_spec(),
                    (rem_in[drawn.index_spec()] - 1) as u8,
                ),
                accepted ==> forall|f: nat|
                    part_rec(st_in, prg, rem_in, rest, blocks_in, ((fuel_used - fuel_in) + f) as nat)
                        == #[trigger] part_rec(
                        *rng,
                        prg,
                        remains@,
                        rest.drop_first(),
                        blocks_in.update(rest[0] as int, Some(drawn)),
                        f,
                    ),
                !accepted ==> fuel_used == DRAW_FUEL && part_rec(
                    st_in,
                    prg,
                    rem_in,
                    rest,
                    blocks_in,
                    ((fuel_used - fuel_in) + 0) as nat,
                ) is None,
            decreases DRAW_FUEL - fuel_used,
        {
            if fuel_used >= DRAW_FUEL {
                proof {
                    assert(part_rec(*rng, prg, rem_in, rest, blocks_in, 0) is None);
                }
                accepted = false;
                break ;
            }
            let ghost st_a = *rng;
            let ghost used_a = fuel_used;
            let b = rng.gen_block(rom);
            let bi = b.to_index();
            fuel_used = fuel_used + 1;
            if remains[bi] > 0 {
                proof {
                    assert forall|f: nat|
                        part_rec(st_in, prg, rem_in, rest, blocks_in, ((fuel_used - fuel_in)
                            + f) as nat) == #[trigger] part_rec(
                        *rng,
                        prg,
                        rem_in.update(b.index_spec(), (rem_in[b.index_spec()] - 1) as u8),
                        rest.drop_first(),
                        blocks_in.update(rest[0] as int, Some(b)),
                        f,
                    ) by {
                        assert(part_rec(st_in, prg, rem_in, rest, blocks_in, ((used_a - fuel_in) + (
                        f + 1)) as nat) == part_rec(st_a, prg, rem_in, rest, blocks_in, (f
                            + 1) as nat));
                        assert(part_rec(st_a, prg, rem_in, rest, blocks_in, (f + 1) as nat)
                            == part_rec(
                            *rng,
                            prg,
                            rem_in.update(b.index_spec(), (rem_in[b.index_spec()] - 1) as u8),
                            rest.drop_first(),
                            blocks_in.update(rest[0] as int, Some(b)),
                            f,
                        ));
                    }
                }
                remains[bi] = remains[bi] - 1;
                drawn = b;
                accepted = true;
                break ;
            } else {
                proof {
                    assert forall|f: nat|
                        part_rec(st_in, prg, rem_in, rest, blocks_in, ((fuel_used - fuel_in)
                            + f) as nat) == #[trigger] part_rec(*rng, prg, rem_in, rest, blocks_in, f)
                        by {
                        assert(part_rec(st_in, prg, rem_in, rest, blocks_in, ((used_a - fuel_in) + (
                        f + 1)) as nat) == part_rec(st_a, prg, rem_in, rest, blocks_in, (f
                            + 1) as nat));
                        assert(part_rec(st_a, prg, rem_in, rest, blocks_in, (f + 1) as nat)
                            == part_rec(*rng, prg, rem_in, rest, blocks_in, f));
                    }
                }
            }
        }

        if !accepted {
            proof {
                assert(part_rec(st_in, prg, rem_in, rest, blocks_in, (DRAW_FUEL - fuel_in) as nat)
                    is None);
                assert(part_rec(st0, prg, rem0, idxs, blocks0, (fuel_in + ((DRAW_FUEL
                    - fuel_in) as nat)) as nat) is None);
                assert((fuel_in + ((DRAW_FUEL - fuel_in) as nat)) as nat == DRAW_FUEL as nat);
            }
            ok = false;
            break ;
        }

        blocks[idx] = Some(drawn);
        i = i + 1;
        proof {
            assert(blocks@ == blocks_in.update(idxs[i - 1] as int, Some(drawn)));
            assert(rest.drop_first() =~= idxs.skip(i as int));
            assert forall|f: nat|
                part_rec(st0, prg, rem0, idxs, blocks0, (fuel_used + f) as nat)
                    == #[trigger] part_rec(*rng, prg, remains@, idxs.skip(i as int), blocks@, f) by {
                assert(part_rec(st_in, prg, rem_in, rest, blocks_in, ((fuel_used - fuel_in)
                    + f) as nat) == part_rec(
                    *rng,
                    prg,
                    remains@,
                    rest.drop_first(),
                    blocks_in.update(rest[0] as int, Some(drawn)),
                    f,
                ));
                assert(part_rec(st0, prg, rem0, idxs, blocks0, (fuel_in + ((fuel_used - fuel_in)
                    + f)) as nat) == part_rec(st_in, prg, rem_in, rest, blocks_in, ((fuel_used
                    - fuel_in) + f) as nat));
                assert((fuel_in + ((fuel_used - fuel_in) + f)) as nat == (fuel_used + f) as nat);
            }
        }
    }

    if ok {
        proof {
            assert(idxs.skip(n as int).len() == 0);
            assert(part_rec(*rng, prg, remains@, idxs.skip(n as int), blocks@, 0) == Some(
                (*rng, remains@, blocks@),
            ));
            assert(part_rec(st0, prg, rem0, idxs, blocks0, (fuel_used + 0) as nat) == Some(
                (*rng, remains@, blocks@),
            ));
        }
    }
    ok
}


/// The carry bit fed into seeding: bit 1 of the stage index.
pub open spec fn deal_carry(stage: u8) -> bool {
    stage & 2 != 0
}

/// The board before any placement: every cell empty.
pub open spec fn empty_board() -> Seq<Option<Block>> {
    Seq::new(48, |i: int| None::<Block>)
}

/// Position `j` is filled by one of the stage's two cell-order lists.
pub open spec fn covered(stage: u8, j: int) -> bool {
    !absent(idxs_spec(stage_kind_spec(stage), false), j) || !absent(
        idxs_spec(stage_kind_spec(stage), true),
        j,
    )
}

/// `blocks` is the outcome of a whole deal: the first half run from the
/// seeded generator on an empty board, then the second half run from the
/// state the first left behind, each within the fuel cap.
pub open spec fn deal_models_within(
    prg: Seq<u8>,
    stage: u8,
    seed: [u8; 2],
    blocks: Seq<Option<Block>>,
) -> bool {
    exists|st1: DealRng, mid: Seq<Option<Block>>, st2: DealRng|
        {
            &&& part_models_within(
                DealRng::init_spec(seed, deal_carry(stage)),
                prg,
                counts_spec(stage, seed[0], false),
                idxs_spec(stage_kind_spec(stage), false),
                empty_board(),
                st1,
                mid,
                DRAW_FUEL as nat,
            )
            &&& #[trigger] part_models_within(
                st1,
                prg,
                counts_spec(stage, seed[0], true),
                idxs_spec(stage_kind_spec(stage), true),
                mid,
                st2,
                blocks,
                DRAW_FUEL as nat,
            )
        }
}

/// One of the deal's two halves ran out of fuel: its draw sequence made no
/// further progress within the cap, so the unbounded algorithm would spin
/// forever.
pub open spec fn deal_exhausted(prg: Seq<u8>, stage: u8, seed: [u8; 2]) -> bool {
    ||| part_rec(
        DealRng::init_spec(seed, deal_carry(stage)),
        prg,
        counts_spec(stage, seed[0], false),
        idxs_spec(stage_kind_spec(stage), false),
        empty_board(),
        DRAW_FUEL as nat,
    ) is None
    ||| exists|st1: DealRng, mid: Seq<Option<Block>>|
        {
            &&& #[trigger] part_models_within(
                DealRng::init_spec(seed, deal_carry(stage)),
                prg,
                counts_spec(stage, seed[0], false),
                idxs_spec(stage_kind_spec(stage), false),
                empty_board(),
                st1,
                mid,
                DRAW_FUEL as nat,
            )
            &&& part_rec(
                st1,
                prg,
                counts_spec(stage, seed[0], true),
                idxs_spec(stage_kind_spec(stage), true),
                mid,
                DRAW_FUEL as nat,
            ) is None
        }
}

/// What `deal_blocks` promises of its result: a completed deal is modelled
/// by the two-pass relation, a failed one exhausted its fuel.
pub open spec fn deal_post(
    prg: Seq<u8>,
    stage: u8,
    seed: [u8; 2],
    r: Option<Seq<Option<Block>>>,
) -> bool {
    match r {
        Some(blocks) => deal_models_within(prg, stage, seed, blocks),
        None => deal_exhausted(prg, stage, seed),
    }
}

/// Deal a whole board: classify both halves, seed one generator and run
/// the two placement passes over it in sequence.
///
/// `Some` holds the completed board; `None` is returned exactly when a
/// pass exhausted its fuel cap, which the unbounded algorithm answers by
/// spinning forever.
pub fn deal_blocks(rom: &Rom, stage: u8, rng_state: [u8; 2]) -> (r: Option<crate::block::Blocks>)
    requires
        rom.wf(),
    ensures
        deal_post(
            rom.prg_spec(),
            stage,
            rng_state,
            match r {
                Some(blocks) => Some(blocks@),
                None => None,
            },
        ),
        r matches Some(blocks) ==> forall|j: int|
            0 <= j < 48 ==> ((#[trigger] blocks@[j]) is Some <==> covered(stage, j)),
        r matches Some(blocks) ==> forall|j: int|
            0 <= j < 48 ==> (#[trigger] blocks@[j]) != Some(Block::Wild),
{
    let params_first = DealParams::new(stage, rng_state, false);
    let params_second = DealParams::new(stage, rng_state, true);

    let carry = (stage & 2) != 0;
    let mut rng = DealRng::new(rng_state, carry);

    let mut blocks: crate::block::Blocks = [None; 48];
    let ghost prg = rom.prg_spec();
    let ghost kind = stage_kind_spec(stage);
    let ghost idxs1 = idxs_spec(kind, false);
    let ghost idxs2 = idxs_spec(kind, true);
    proof {
        assert(blocks@ =~= empty_board());
        assert(cells_none(blocks@, params_first.idxs@));
    }

    let ok1 = deal_part(rom, &params_first, &mut rng, &mut blocks);
    if !ok1 {
        return None;
    }

    let ghost st1 = rng;
    let ghost mid = blocks@;
    proof {
        lemma_halves_disjoint(kind);
        assert forall|k: int| 0 <= k < idxs2.len() implies absent(idxs1, (#[trigger] idxs2[k]) as int) by {
            assert(forall|m: int|
                0 <= m < idxs1.len() ==> (#[trigger] idxs1[m]) != idxs2[k]);
        }
        assert(cells_none(blocks@, params_second.idxs@));
    }

    let ok2 = deal_part(rom, &params_second, &mut rng, &mut blocks);
    if !ok2 {
        proof {
            assert(part_models_within(
                DealRng::init_spec(rng_state, deal_carry(stage)),
                prg,
                counts_spec(stage, rng_state[0], false),
                idxs1,
                empty_board(),
                st1,
                mid,
                DRAW_FUEL as nat,
            ));
        }
        return None;
    }

    proof {
        assert(part_models_within(
            DealRng::init_spec(rng_state, deal_carry(stage)),
            prg,
            counts_spec(stage, rng_state[0], false),
            idxs1,
            empty_board(),
            st1,
            mid,
            DRAW_FUEL as nat,
        ));
        assert(part_models_within(
            st1,
            prg,
            counts_spec(stage, rng_state[0], true),
            idxs2,
            mid,
            rng,
            blocks@,
            DRAW_FUEL as nat,
        ));
        assert(deal_models_within(prg, stage, rng_state, blocks@));

        assert forall|j: int| 0 <= j < 48 implies ((#[trigger] blocks@[j]) is Some <==> covered(
            stage,
            j,
        )) && blocks@[j] != Some(Block::Wild) by {
            if !absent(idxs1, j) {
                let k = choose|k: int| 0 <= k < idxs1.len() && (#[trigger] idxs1[k]) as int == j;
                assert(mid[idxs1[k] as int] matches Some(b) && b.index_spec() < 4);
                assert forall|m: int| 0 <= m < idxs2.len() implies (#[trigger] idxs2[m]) as int
                    != j by {
                    assert(idxs1[k] != idxs2[m]);
                }
                assert(absent(idxs2, j));
                assert(blocks@[j] == mid[j]);
            } else if !absent(idxs2, j) {
                let k = choose|k: int| 0 <= k < idxs2.len() && (#[trigger] idxs2[k]) as int == j;
                assert(blocks@[idxs2[k] as int] matches Some(b) && b.index_spec() < 4);
            } else {
                assert(mid[j] == empty_board()[j]);
                assert(blocks@[j] == mid[j]);
            }
        }
    }

    Some(blocks)
}

/// With more fuel the placement relation keeps any outcome it already
/// reached: fuel only decides how far the draw sequence is explored.
pub proof fn lemma_part_rec_mono(
    st: DealRng,
    prg: Seq<u8>,
    remains: Seq<u8>,
    idxs: Seq<usize>,
    blocks: Seq<Option<Block>>,
    fuel: nat,
    fuel2: nat,
)
    requires
        fuel <= fuel2,
        part_rec(st, prg, remains, idxs, blocks, fuel) is Some,
    ensures
        part_rec(st, prg, remains, idxs, blocks, fuel2) == part_rec(
            st,
            prg,
            remains,
            idxs,
            blocks,
            fuel,
        ),
    decreases fuel,
{
    if idxs.len() == 0 {
    } else {
        assert(fuel > 0);
        let (st2, b) = gen_step(st, prg);
        if remains[b.index_spec()] > 0 {
            lemma_part_rec_mono(
                st2,
                prg,
                remains.update(b.index_spec(), (remains[b.index_spec()] - 1) as u8),
                idxs.drop_first(),
                blocks.update(idxs[0] as int, Some(b)),
                (fuel - 1) as nat,
                (fuel2 - 1) as nat,
            );
        } else {
            lemma_part_rec_mono(st2, prg, remains, idxs, blocks, (fuel - 1) as nat, (fuel2
                - 1) as nat);
        }
    }
}

/// A placement pass from a given state over given quotas and positions has
/// at most one outcome: the fuel witness does not matter.
pub proof fn lemma_part_outcome_unique(
    st: DealRng,
    prg: Seq<u8>,
    counts: Seq<u8>,
    idxs: Seq<usize>,
    blocks0: Seq<Option<Block>>,
    st_a: DealRng,
    b_a: Seq<Option<Block>>,
    st_b: DealRng,
    b_b: Seq<Option<Block>>,
)
    requires
        part_models(st, prg, counts, idxs, blocks0, st_a, b_a),
        part_models(st, prg, counts, idxs, blocks0, st_b, b_b),
    ensures
        st_a == st_b,
        b_a == b_b,
{
    let f1 = choose|fuel: nat|
        (#[trigger] part_rec(st, prg, counts, idxs, blocks0, fuel)) matches Some(t) && t.0 == st_a
            && t.2 == b_a;
    let f2 = choose|fuel: nat|
        (#[trigger] part_rec(st, prg, counts, idxs, blocks0, fuel)) matches Some(t) && t.0 == st_b
            && t.2 == b_b;
    if f1 <= f2 {
        lemma_part_rec_mono(st, prg, counts, idxs, blocks0, f1, f2);
    } else {
        lemma_part_rec_mono(st, prg, counts, idxs, blocks0, f2, f1);
    }
}

/// A bounded outcome is an outcome.
pub proof fn lemma_part_within_models(
    st: DealRng,
    prg: Seq<u8>,
    counts: Seq<u8>,
    idxs: Seq<usize>,
    blocks0: Seq<Option<Block>>,
    st2: DealRng,
    blocks2: Seq<Option<Block>>,
    bound: nat,
)
    requires
        part_models_within(st, prg, counts, idxs, blocks0, st2, blocks2, bound),
    ensures
        part_models(st, prg, counts, idxs, blocks0, st2, blocks2),
        part_rec(st, prg, counts, idxs, blocks0, bound) matches Some(t) && t.0 == st2 && t.2
            == blocks2,
{
    let f = choose|fuel: nat|
        {
            &&& fuel <= bound
            &&& (#[trigger] part_rec(st, prg, counts, idxs, blocks0, fuel)) matches Some(t)
                && t.0 == st2 && t.2 == blocks2
        };
    lemma_part_rec_mono(st, prg, counts, idxs, blocks0, f, bound);
}

/// Determinism of the whole deal: the result of `deal_blocks`, success or
/// failure alike, is a function of the program image, the stage and the
/// seed; two calls meeting its contract agree exactly.
pub proof fn lemma_deal_deterministic(
    prg: Seq<u8>,
    stage: u8,
    seed: [u8; 2],
    r1: Option<Seq<Option<Block>>>,
    r2: Option<Seq<Option<Block>>>,
)
    requires
        deal_post(prg, stage, seed, r1),
        deal_post(prg, stage, seed, r2),
    ensures
        r1 == r2,
{
    let st0 = DealRng::init_spec(seed, deal_carry(stage));
    let c1 = counts_spec(stage, seed[0], false);
    let c2 = counts_spec(stage, seed[0], true);
    let i1 = idxs_spec(stage_kind_spec(stage), false);
    let i2 = idxs_spec(stage_kind_spec(stage), true);
    let e = empty_board();
    let bound = DRAW_FUEL as nat;

    match r1 {
        Some(b1) => {
            let (st1_a, mid_a, st2_a) = choose|st1: DealRng, mid: Seq<Option<Block>>, st2: DealRng|
                {
                    &&& part_models_within(st0, prg, c1, i1, e, st1, mid, bound)
                    &&& #[trigger] part_models_within(st1, prg, c2, i2, mid, st2, b1, bound)
                };
            lemma_part_within_models(st0, prg, c1, i1, e, st1_a, mid_a, bound);
            lemma_part_within_models(st1_a, prg, c2, i2, mid_a, st2_a, b1, bound);
            match r2 {
                Some(b2) => {
                    let (st1_b, mid_b, st2_b) = choose|
                        st1: DealRng,
                        mid: Seq<Option<Block>>,
                        st2: DealRng,
                    |
                        {
                            &&& part_models_within(st0, prg, c1, i1, e, st1, mid, bound)
                            &&& #[trigger] part_models_within(st1, prg, c2, i2, mid, st2, b2, bound)
                        };
                    lemma_part_within_models(st0, prg, c1, i1, e, st1_b, mid_b, bound);
                    lemma_part_within_models(st1_b, prg, c2, i2, mid_b, st2_b, b2, bound);
                    lemma_part_outcome_unique(st0, prg, c1, i1, e, st1_a, mid_a, st1_b, mid_b);
                    lemma_part_outcome_unique(st1_a, prg, c2, i2, mid_a, st2_a, b1, st2_b, b2);
                },
                None => {
                    lemma_deal_complete_not_exhausted(prg, stage, seed, b1);
                },
            }
        },
        None => {
            match r2 {
                Some(b2) => {
                    lemma_deal_complete_not_exhausted(prg, stage, seed, b2);
                },
                None => {},
            }
        },
    }
}

/// A deal that completes within the fuel cap did not exhaust it: the two
/// outcomes of `deal_blocks` exclude each other.
pub proof fn lemma_deal_complete_not_exhausted(
    prg: Seq<u8>,
    stage: u8,
    seed: [u8; 2],
    b: Seq<Option<Block>>,
)
    requires
        deal_models_within(prg, stage, seed, b),
    ensures
        !deal_exhausted(prg, stage, seed),
{
    let st0 = DealRng::init_spec(seed, deal_carry(stage));
    let c1 = counts_spec(stage, seed[0], false);
    let c2 = counts_spec(stage, seed[0], true);
    let i1 = idxs_spec(stage_kind_spec(stage), false);
    let i2 = idxs_spec(stage_kind_spec(stage), true);
    let e = empty_board();
    let bound = DRAW_FUEL as nat;

    if deal_exhausted(prg, stage, seed) {
        let (st1_a, mid_a, st2_a) = choose|st1: DealRng, mid: Seq<Option<Block>>, st2: DealRng|
            {
                &&& part_models_within(st0, prg, c1, i1, e, st1, mid, bound)
                &&& #[trigger] part_models_within(st1, prg, c2, i2, mid, st2, b, bound)
            };
        lemma_part_within_models(st0, prg, c1, i1, e, st1_a, mid_a, bound);
        lemma_part_within_models(st1_a, prg, c2, i2, mid_a, st2_a, b, bound);
        if part_rec(st0, prg, c1, i1, e, bound) is None {
        } else {
            let (st1_b, mid_b) = choose|st1: DealRng, mid: Seq<Option<Block>>|
                {
                    &&& #[trigger] part_models_within(st0, prg, c1, i1, e, st1, mid, bound)
                    &&& part_rec(st1, prg, c2, i2, mid, bound) is None
                };
            lemma_part_within_models(st0, prg, c1, i1, e, st1_b, mid_b, bound);
            lemma_part_outcome_unique(st0, prg, c1, i1, e, st1_a, mid_a, st1_b, mid_b);
        }
    }
}


/// After a generation step, both cursors again lie in `[0x8000, 0x9FFF]`
/// and offset into the program segment's top window below `0x2000`.
pub proof fn lemma_cursor_invariant(st: DealRng, prg: Seq<u8>)
    requires
        st.wf(),
    ensures
        gen_step(st, prg).0.wf(),
        0x8000 <= transient_cursor(gen_step(st, prg).0) <= 0x9fff,
        0 <= gen_step(st, prg).0.ptr - 0x8000 < 0x2000,
        0 <= transient_cursor(gen_step(st, prg).0) - 0x8000 < 0x2000,
{
    let s0 = st.state[0].wrapping_add(1);
    let s1 = st.state[1].wrapping_sub(1);
    let st2 = gen_step(st, prg).0;
    lemma_masked_ptr_range(st.ptr.wrapping_add((s0 as u16) | ((s1 as u16) << 8)));
    lemma_masked_ptr_range(
        ((st2.state[1] as u16) | ((st2.state[0] as u16) << 8)).wrapping_sub(st2.ptr),
    );
}

/// How many of the positions in `idxs` hold a block of zero-based kind
/// index `k` on the board `blocks`.
pub open spec fn count_kind(blocks: Seq<Option<Block>>, idxs: Seq<usize>, k: int) -> nat
    decreases idxs.len(),
{
    if idxs.len() == 0 {
        0
    } else {
        (match blocks[idxs[0] as int] {
            Some(b) => if b.index_spec() == k {
                1nat
            } else {
                0nat
            },
            None => 0nat,
        }) + count_kind(blocks, idxs.drop_first(), k)
    }
}

/// The bookkeeping of one pass: each placement of a kind is matched by one
/// decrement of its quota, positions outside the list are untouched, and
/// every listed position ends up holding a normal block.
proof fn lemma_part_rec_counts(
    st: DealRng,
    prg: Seq<u8>,
    remains: Seq<u8>,
    idxs: Seq<usize>,
    blocks: Seq<Option<Block>>,
    fuel: nat,
    st2: DealRng,
    rem2: Seq<u8>,
    blocks2: Seq<Option<Block>>,
)
    requires
        part_rec(st, prg, remains, idxs, blocks, fuel) == Some((st2, rem2, blocks2)),
        remains.len() == 4,
        idxs.no_duplicates(),
        forall|i: int| 0 <= i < idxs.len() ==> ((#[trigger] idxs[i]) as int) < blocks.len(),
        cells_none(blocks, idxs),
    ensures
        rem2.len() == 4,
        blocks2.len() == blocks.len(),
        forall|k: int| 0 <= k < 4 ==> (#[trigger] rem2[k]) <= remains[k],
        forall|k: int|
            0 <= k < 4 ==> count_kind(blocks2, idxs, k) == remains[k] - (#[trigger] rem2[k]),
        forall|j: int| 0 <= j < blocks.len() && absent(idxs, j) ==> blocks2[j] == blocks[j],
        forall|i: int|
            0 <= i < idxs.len() ==> ((#[trigger] blocks2[idxs[i] as int]) matches Some(b)
                && b.index_spec() < 4),
    decreases fuel,
{
    if idxs.len() == 0 {
    } else {
        assert(fuel > 0);
        let (stb, b) = gen_step(st, prg);
        let bi = b.index_spec();
        assert(0 <= bi < 4);
        if remains[bi] > 0 {
            let rem_n = remains.update(bi, (remains[bi] - 1) as u8);
            let idxs_n = idxs.drop_first();
            let blocks_n = blocks.update(idxs[0] as int, Some(b));
            assert forall|i: int, j: int|
                0 <= i < idxs_n.len() && 0 <= j < idxs_n.len() && i != j implies idxs_n[i]
                != idxs_n[j] by {
                assert(idxs_n[i] == idxs[i + 1]);
                assert(idxs_n[j] == idxs[j + 1]);
            }
            assert forall|i: int| 0 <= i < idxs_n.len() implies blocks_n[(#[trigger] idxs_n[i]) as int]
                is None by {
                assert(idxs_n[i] == idxs[i + 1]);
                assert(idxs[i + 1] != idxs[0]);
            }
            lemma_part_rec_counts(
                stb,
                prg,
                rem_n,
                idxs_n,
                blocks_n,
                (fuel - 1) as nat,
                st2,
                rem2,
                blocks2,
            );
            assert(absent(idxs_n, idxs[0] as int)) by {
                assert forall|m: int| 0 <= m < idxs_n.len() implies (#[trigger] idxs_n[m]) as int
                    != idxs[0] as int by {
                    assert(idxs_n[m] == idxs[m + 1]);
                }
            }
            assert(blocks2[idxs[0] as int] == blocks_n[idxs[0] as int]);
            assert(blocks2[idxs[0] as int] == Some(b));
            assert forall|k: int| 0 <= k < 4 implies count_kind(blocks2, idxs, k) == remains[k] - (
            #[trigger] rem2[k]) by {
                assert(count_kind(blocks2, idxs, k) == (match blocks2[idxs[0] as int] {
                    Some(bb) => if bb.index_spec() == k {
                        1nat
                    } else {
                        0nat
                    },
                    None => 0nat,
                }) + count_kind(blocks2, idxs_n, k));
                assert(count_kind(blocks2, idxs_n, k) == rem_n[k] - rem2[k]);
            }
            assert forall|j: int| 0 <= j < blocks.len() && absent(idxs, j) implies blocks2[j]
                == blocks[j] by {
                assert(idxs[0] as int != j);
                assert forall|m: int| 0 <= m < idxs_n.len() implies (#[trigger] idxs_n[m]) as int
                    != j by {
                    assert(idxs_n[m] == idxs[m + 1]);
                }
                assert(absent(idxs_n, j));
                assert(blocks2[j] == blocks_n[j]);
            }
            assert forall|i: int| 0 <= i < idxs.len() implies ((#[trigger] blocks2[idxs[i] as int])
                matches Some(bb) && bb.index_spec() < 4) by {
                if i > 0 {
                    assert(idxs_n[i - 1] == idxs[i]);
                    assert(blocks2[idxs_n[i - 1] as int] matches Some(bb) && bb.index_spec() < 4);
                }
            }
        } else {
            lemma_part_rec_counts(stb, prg, remains, idxs, blocks, (fuel - 1) as nat, st2, rem2, blocks2);
        }
    }
}

/// Summing the per-kind counts over the four normal kinds accounts for
/// every listed position once.
proof fn lemma_count_kind_total(blocks: Seq<Option<Block>>, idxs: Seq<usize>)
    requires
        forall|i: int|
            0 <= i < idxs.len() ==> ((#[trigger] blocks[idxs[i] as int]) matches Some(b)
                && b.index_spec() < 4),
    ensures
        count_kind(blocks, idxs, 0) + count_kind(blocks, idxs, 1) + count_kind(blocks, idxs, 2)
            + count_kind(blocks, idxs, 3) == idxs.len(),
    decreases idxs.len(),
{
    if idxs.len() == 0 {
    } else {
        let idxs_n = idxs.drop_first();
        assert forall|i: int| 0 <= i < idxs_n.len() implies ((#[trigger] blocks[idxs_n[i] as int])
            matches Some(b) && b.index_spec() < 4) by {
            assert(idxs_n[i] == idxs[i + 1]);
            assert(blocks[idxs[i + 1] as int] matches Some(b) && b.index_spec() < 4);
        }
        lemma_count_kind_total(blocks, idxs_n);
        assert(blocks[idxs[0] as int] matches Some(b) && b.index_spec() < 4);
    }
}

/// Quota conservation: when a pass completes, the number of placed blocks
/// of each normal kind equals that kind's quota exactly, given that the
/// quotas sum to the number of positions, as they do in every row of the
/// fixed tables.
pub proof fn lemma_quota_conservation(
    st: DealRng,
    prg: Seq<u8>,
    counts: Seq<u8>,
    idxs: Seq<usize>,
    blocks0: Seq<Option<Block>>,
    st2: DealRng,
    blocks2: Seq<Option<Block>>,
)
    requires
        part_models(st, prg, counts, idxs, blocks0, st2, blocks2),
        counts.len() == 4,
        idxs.no_duplicates(),
        forall|i: int| 0 <= i < idxs.len() ==> ((#[trigger] idxs[i]) as int) < blocks0.len(),
        cells_none(blocks0, idxs),
        sum4(counts) == idxs.len(),
    ensures
        forall|k: int| 0 <= k < 4 ==> count_kind(blocks2, idxs, k) == counts[k],
{
    let f = choose|fuel: nat|
        (#[trigger] part_rec(st, prg, counts, idxs, blocks0, fuel)) matches Some(t) && t.0 == st2
            && t.2 == blocks2;
    let t = part_rec(st, prg, counts, idxs, blocks0, f)->Some_0;
    let rem2 = t.1;
    assert(part_rec(st, prg, counts, idxs, blocks0, f) == Some((st2, rem2, blocks2)));
    lemma_part_rec_counts(st, prg, counts, idxs, blocks0, f, st2, rem2, blocks2);
    lemma_count_kind_total(blocks2, idxs);
    assert(rem2[0] + rem2[1] + rem2[2] + rem2[3] == 0);
    assert(rem2[0] == 0 && rem2[1] == 0 && rem2[2] == 0 && rem2[3] == 0);
}


/// The per-kind count over a list of positions reads only those positions.
proof fn lemma_count_kind_congruence(
    b1: Seq<Option<Block>>,
    b2: Seq<Option<Block>>,
    idxs: Seq<usize>,
    k: int,
)
    requires
        forall|i: int| 0 <= i < idxs.len() ==> b1[(#[trigger] idxs[i]) as int] == b2[idxs[i] as int],
    ensures
        count_kind(b1, idxs, k) == count_kind(b2, idxs, k),
    decreases idxs.len(),
{
    if idxs.len() == 0 {
    } else {
        let idxs_n = idxs.drop_first();
        assert forall|i: int| 0 <= i < idxs_n.len() implies b1[(#[trigger] idxs_n[i]) as int]
            == b2[idxs_n[i] as int] by {
            assert(idxs_n[i] == idxs[i + 1]);
            assert(b1[idxs[i + 1] as int] == b2[idxs[i + 1] as int]);
        }
        lemma_count_kind_congruence(b1, b2, idxs_n, k);
        assert(b1[idxs[0] as int] == b2[idxs[0] as int]);
    }
}

/// Quota conservation at the level of a whole deal: on the finished board,
/// the number of cells holding each normal kind within one half's
/// cell-order list equals exactly that half's quota entry for the stage
/// kind and the seed's 2-bit slice.
pub proof fn lemma_deal_quotas(prg: Seq<u8>, stage: u8, seed: [u8; 2], blocks: Seq<Option<Block>>)
    requires
        deal_models_within(prg, stage, seed, blocks),
    ensures
        forall|k: int|
            0 <= k < 4 ==> count_kind(blocks, idxs_spec(stage_kind_spec(stage), false), k)
                == counts_spec(stage, seed[0], false)[k],
        forall|k: int|
            0 <= k < 4 ==> count_kind(blocks, idxs_spec(stage_kind_spec(stage), true), k)
                == counts_spec(stage, seed[0], true)[k],
{
    let st0 = DealRng::init_spec(seed, deal_carry(stage));
    let kind = stage_kind_spec(stage);
    let c1 = counts_spec(stage, seed[0], false);
    let c2 = counts_spec(stage, seed[0], true);
    let i1 = idxs_spec(kind, false);
    let i2 = idxs_spec(kind, true);
    let e = empty_board();
    let bound = DRAW_FUEL as nat;

    lemma_idxs_props(kind, false);
    lemma_idxs_props(kind, true);
    lemma_counts_cover_cells(stage, seed[0], false);
    lemma_counts_cover_cells(stage, seed[0], true);
    lemma_halves_disjoint(kind);

    let (st1, mid, st2) = choose|st1: DealRng, mid: Seq<Option<Block>>, st2: DealRng|
        {
            &&& part_models_within(st0, prg, c1, i1, e, st1, mid, bound)
            &&& #[trigger] part_models_within(st1, prg, c2, i2, mid, st2, blocks, bound)
        };
    lemma_part_within_models(st0, prg, c1, i1, e, st1, mid, bound);
    lemma_part_within_models(st1, prg, c2, i2, mid, st2, blocks, bound);

    let t1 = part_rec(st0, prg, c1, i1, e, bound)->Some_0;
    assert(part_rec(st0, prg, c1, i1, e, bound) == Some((st1, t1.1, mid)));
    lemma_part_rec_counts(st0, prg, c1, i1, e, bound, st1, t1.1, mid);

    // The second half's cells were untouched by the first: still empty.
    assert forall|m: int| 0 <= m < i2.len() implies mid[(#[trigger] i2[m]) as int] is None by {
        assert forall|n: int| 0 <= n < i1.len() implies (#[trigger] i1[n]) as int != i2[m] as int by {
            assert(i1[n] != i2[m]);
        }
        assert(absent(i1, i2[m] as int));
        assert(mid[i2[m] as int] == e[i2[m] as int]);
    }
    assert(cells_none(mid, i2));

    let t2 = part_rec(st1, prg, c2, i2, mid, bound)->Some_0;
    assert(part_rec(st1, prg, c2, i2, mid, bound) == Some((st2, t2.1, blocks)));
    lemma_part_rec_counts(st1, prg, c2, i2, mid, bound, st2, t2.1, blocks);

    lemma_quota_conservation(st0, prg, c1, i1, e, st1, mid);
    lemma_quota_conservation(st1, prg, c2, i2, mid, st2, blocks);

    // The first half's cells were untouched by the second: its counts carry
    // over to the finished board.
    assert forall|n: int| 0 <= n < i1.len() implies blocks[(#[trigger] i1[n]) as int] == mid[i1[n] as int] by {
        assert forall|m: int| 0 <= m < i2.len() implies (#[trigger] i2[m]) as int != i1[n] as int by {
            assert(i1[n] != i2[m]);
        }
        assert(absent(i2, i1[n] as int));
    }
    assert forall|k: int| 0 <= k < 4 implies count_kind(blocks, i1, k) == c1[k] by {
        lemma_count_kind_congruence(blocks, mid, i1, k);
    }
}


/// The seeded cursor lies in the valid window, whatever the seed bytes.
proof fn lemma_init_ptr_range(a: u8, b: u8)
    by (bit_vector)
    ensures
        0x8000 <= (0x8000u16 | (((a & 0x1f) as u16) << 8) | (b as u16)) <= 0x9fff,
{
}

} // verus!
