use vstd::prelude::*;

verus! {

/// Length of the program segment in the canonical cartridge layout.
pub const PRG_LEN: usize = 0x8000;
/// Length of the graphics segment in the canonical cartridge layout.
pub const CHR_LEN: usize = 0x8000;
/// Length of the cartridge header.
pub const HEADER_LEN: usize = 16;

/// Why a byte sequence was rejected as a cartridge image.
#[derive(Clone, Copy, Debug, Eq, PartialEq, Structural)]
pub enum RomError {
    /// The input does not extend past the 16-byte header.
    IncompleteHeader,
    /// The header does not start with the `"NES" 0x1A` magic.
    MagicNotFound,
    /// The input does not extend past the program segment.
    IncompletePrg,
    /// The graphics segment is not exactly its fixed expected size.
    ChrSizeMismatch,
}

/// The first four bytes are the iNES magic `b"NES\x1A"`.
pub open spec fn magic_ok(ines: Seq<u8>) -> bool {
    &&& ines.len() >= 4
    &&& ines[0] == 0x4eu8
    &&& ines[1] == 0x45u8
    &&& ines[2] == 0x53u8
    &&& ines[3] == 0x1au8
}

/// A cartridge image: an immutable program segment and graphics segment,
/// each of its fixed length. Only the program segment is read by the dealing
/// core.
#[derive(Debug)]
pub struct Rom {
    prg: Vec<u8>,
    chr: Vec<u8>,
}

impl Rom {
    /// The bytes of the program segment.
    pub closed spec fn prg_spec(self) -> Seq<u8> {
        self.prg@
    }

    /// The bytes of the graphics segment.
    pub closed spec fn chr_spec(self) -> Seq<u8> {
        self.chr@
    }

    /// Both segments have their fixed expected lengths.
    pub open spec fn wf(self) -> bool {
        &&& self.prg_spec().len() == PRG_LEN
        &&& self.chr_spec().len() == CHR_LEN
    }

    /// Parses an iNES byte sequence: a 16-byte header starting with the
    /// magic, then the program segment, then the graphics segment, with
    /// nothing following.
    pub fn from_ines_bytes(ines: &[u8]) -> (r: Result<Rom, RomError>)
        ensures
            ines@.len() <= HEADER_LEN ==> r == Err::<Rom, RomError>(RomError::IncompleteHeader),
            ines@.len() > HEADER_LEN && !magic_ok(ines@) ==> r == Err::<Rom, RomError>(
                RomError::MagicNotFound,
            ),
            ines@.len() > HEADER_LEN && magic_ok(ines@) && ines@.len() <= HEADER_LEN + PRG_LEN
                ==> r == Err::<Rom, RomError>(RomError::IncompletePrg),
            ines@.len() > HEADER_LEN + PRG_LEN && magic_ok(ines@) && ines@.len() != HEADER_LEN
                + PRG_LEN + CHR_LEN ==> r == Err::<Rom, RomError>(RomError::ChrSizeMismatch),
            ines@.len() == HEADER_LEN + PRG_LEN + CHR_LEN && magic_ok(ines@) ==> (r matches Ok(rom)
                && rom.wf() && rom.prg_spec() == ines@.subrange(
                HEADER_LEN as int,
                (HEADER_LEN + PRG_LEN) as int,
            ) && rom.chr_spec() == ines@.subrange(
                (HEADER_LEN + PRG_LEN) as int,
                (HEADER_LEN + PRG_LEN + CHR_LEN) as int,
            )),
    {
        if ines.len() <= HEADER_LEN {
            return Err(RomError::IncompleteHeader);
        }
        if !(ines[0] == 0x4e && ines[1] == 0x45 && ines[2] == 0x53 && ines[3] == 0x1a) {
            return Err(RomError::MagicNotFound);
        }
        if ines.len() <= HEADER_LEN + PRG_LEN {
            return Err(RomError::IncompletePrg);
        }
        if ines.len() != HEADER_LEN + PRG_LEN + CHR_LEN {
            return Err(RomError::ChrSizeMismatch);
        }

        let mut prg: Vec<u8> = Vec::new();
        for i in 0..PRG_LEN
            invariant
                ines@.len() == HEADER_LEN + PRG_LEN + CHR_LEN,
                prg@ =~= ines@.subrange(HEADER_LEN as int, HEADER_LEN + i as int),
        {
            prg.push(ines[HEADER_LEN + i]);
            proof {
                assert(prg@ =~= ines@.subrange(HEADER_LEN as int, HEADER_LEN + i + 1));
            }
        }

        let mut chr: Vec<u8> = Vec::new();
        for i in 0..CHR_LEN
            invariant
                ines@.len() == HEADER_LEN + PRG_LEN + CHR_LEN,
                chr@ =~= ines@.subrange((HEADER_LEN + PRG_LEN) as int, HEADER_LEN + PRG_LEN
                    + i as int),
        {
            chr.push(ines[HEADER_LEN + PRG_LEN + i]);
            proof {
                assert(chr@ =~= ines@.subrange((HEADER_LEN + PRG_LEN) as int, HEADER_LEN + PRG_LEN
                    + i + 1));
            }
        }

        Ok(Rom { prg, chr })
    }

    /// Read-only access to the program segment.
    pub fn prg(&self) -> (r: &Vec<u8>)
        ensures
            r@ == self.prg_spec(),
    {
        &self.prg
    }

    /// Read-only access to the graphics segment.
    pub fn chr(&self) -> (r: &Vec<u8>)
        ensures
            r@ == self.chr_spec(),
    {
        &self.chr
    }
}

} // verus!
