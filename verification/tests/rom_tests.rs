use flipull_util::rom::{Rom, RomError};

const HEADER_LEN: usize = 16;
const PRG_LEN: usize = 0x8000;
const CHR_LEN: usize = 0x8000;

fn ines_with(prg: Vec<u8>, chr: Vec<u8>) -> Vec<u8> {
    let mut v = Vec::new();
    v.extend_from_slice(b"NES\x1A");
    v.extend_from_slice(&[0u8; 12]);
    v.extend_from_slice(&prg);
    v.extend_from_slice(&chr);
    v
}

#[test]
fn empty_input_is_an_incomplete_header() {
    assert_eq!(Rom::from_ines_bytes(&[]).unwrap_err(), RomError::IncompleteHeader);
}

#[test]
fn a_bare_header_is_still_incomplete() {
    let v = ines_with(Vec::new(), Vec::new());
    assert_eq!(v.len(), HEADER_LEN);
    assert_eq!(Rom::from_ines_bytes(&v).unwrap_err(), RomError::IncompleteHeader);
}

#[test]
fn wrong_magic_is_rejected() {
    let mut v = ines_with(vec![0u8; PRG_LEN], vec![0u8; CHR_LEN]);
    v[0] = b'X';
    assert_eq!(Rom::from_ines_bytes(&v).unwrap_err(), RomError::MagicNotFound);
}

#[test]
fn short_program_segment_is_rejected() {
    let v = ines_with(vec![0u8; 100], Vec::new());
    assert_eq!(Rom::from_ines_bytes(&v).unwrap_err(), RomError::IncompletePrg);
}

#[test]
fn graphics_segment_size_must_match() {
    let v = ines_with(vec![0u8; PRG_LEN], vec![0u8; CHR_LEN - 1]);
    assert_eq!(Rom::from_ines_bytes(&v).unwrap_err(), RomError::ChrSizeMismatch);
    let w = ines_with(vec![0u8; PRG_LEN], vec![0u8; CHR_LEN + 1]);
    assert_eq!(Rom::from_ines_bytes(&w).unwrap_err(), RomError::ChrSizeMismatch);
}

#[test]
fn well_formed_image_splits_into_its_segments() {
    let mut prg = vec![0u8; PRG_LEN];
    prg[0] = 0xAA;
    prg[PRG_LEN - 1] = 0xBB;
    let mut chr = vec![0u8; CHR_LEN];
    chr[0] = 0xCC;
    chr[CHR_LEN - 1] = 0xDD;
    let v = ines_with(prg, chr);
    let rom = Rom::from_ines_bytes(&v).unwrap();
    assert_eq!(rom.prg().len(), PRG_LEN);
    assert_eq!(rom.chr().len(), CHR_LEN);
    assert_eq!(rom.prg()[0], 0xAA);
    assert_eq!(rom.prg()[PRG_LEN - 1], 0xBB);
    assert_eq!(rom.chr()[0], 0xCC);
    assert_eq!(rom.chr()[CHR_LEN - 1], 0xDD);
}
