use bitvec::prelude::{BigEndian, BitBox, BitVec, LittleEndian, Local, Word};

#[test]
fn compile_bitvec_macros() {
    BitVec::<Local, Word>::from_bools(&[0 != 0, 1 != 0]);
    BitVec::<BigEndian, Word>::from_bools(&[0 != 0, 1 != 0]);
    BitVec::<LittleEndian, Word>::from_bools(&[0 != 0, 1 != 0]);
    BitVec::<BigEndian, u8>::from_bools(&[0 != 0, 1 != 0]);
    BitVec::<LittleEndian, u8>::from_bools(&[0 != 0, 1 != 0]);
    BitVec::<BigEndian, u16>::from_bools(&[0 != 0, 1 != 0]);
    BitVec::<LittleEndian, u16>::from_bools(&[0 != 0, 1 != 0]);
    BitVec::<BigEndian, u32>::from_bools(&[0 != 0, 1 != 0]);
    BitVec::<LittleEndian, u32>::from_bools(&[0 != 0, 1 != 0]);
    BitVec::<BigEndian, u64>::from_bools(&[0 != 0, 1 != 0]);
    BitVec::<LittleEndian, u64>::from_bools(&[0 != 0, 1 != 0]);

    BitVec::<Local, Word>::repeat(1 != 0, 70);
    BitVec::<BigEndian, Word>::repeat(0 != 0, 70);
    BitVec::<LittleEndian, Word>::repeat(1 != 0, 70);
    BitVec::<BigEndian, u8>::repeat(0 != 0, 70);
    BitVec::<LittleEndian, u8>::repeat(1 != 0, 70);
    BitVec::<BigEndian, u16>::repeat(0 != 0, 70);
    BitVec::<LittleEndian, u16>::repeat(1 != 0, 70);
    BitVec::<BigEndian, u32>::repeat(0 != 0, 70);
    BitVec::<LittleEndian, u32>::repeat(1 != 0, 70);
    BitVec::<BigEndian, u64>::repeat(0 != 0, 70);
    BitVec::<LittleEndian, u64>::repeat(1 != 0, 70);
}

#[test]
fn compile_bitbox_macros() {
    BitVec::<Local, Word>::from_bools(&[0 != 0, 1 != 0]).into_boxed_bitslice();
    BitVec::<BigEndian, Word>::from_bools(&[0 != 0, 1 != 0]).into_boxed_bitslice();
    BitVec::<LittleEndian, Word>::from_bools(&[0 != 0, 1 != 0]).into_boxed_bitslice();
    BitVec::<BigEndian, u8>::from_bools(&[0 != 0, 1 != 0]).into_boxed_bitslice();
    BitVec::<LittleEndian, u8>::from_bools(&[0 != 0, 1 != 0]).into_boxed_bitslice();
    BitVec::<BigEndian, u16>::from_bools(&[0 != 0, 1 != 0]).into_boxed_bitslice();
    BitVec::<LittleEndian, u16>::from_bools(&[0 != 0, 1 != 0]).into_boxed_bitslice();
    BitVec::<BigEndian, u32>::from_bools(&[0 != 0, 1 != 0]).into_boxed_bitslice();
    BitVec::<LittleEndian, u32>::from_bools(&[0 != 0, 1 != 0]).into_boxed_bitslice();
    BitVec::<BigEndian, u64>::from_bools(&[0 != 0, 1 != 0]).into_boxed_bitslice();
    BitVec::<LittleEndian, u64>::from_bools(&[0 != 0, 1 != 0]).into_boxed_bitslice();

    BitVec::<Local, Word>::repeat(1 != 0, 70).into_boxed_bitslice();
    BitVec::<BigEndian, Word>::repeat(0 != 0, 70).into_boxed_bitslice();
    BitVec::<LittleEndian, Word>::repeat(1 != 0, 70).into_boxed_bitslice();
    BitVec::<BigEndian, u8>::repeat(0 != 0, 70).into_boxed_bitslice();
    BitVec::<LittleEndian, u8>::repeat(1 != 0, 70).into_boxed_bitslice();
    BitVec::<BigEndian, u16>::repeat(0 != 0, 70).into_boxed_bitslice();
    BitVec::<LittleEndian, u16>::repeat(1 != 0, 70).into_boxed_bitslice();
    BitVec::<BigEndian, u32>::repeat(0 != 0, 70).into_boxed_bitslice();
    BitVec::<LittleEndian, u32>::repeat(1 != 0, 70).into_boxed_bitslice();
    BitVec::<BigEndian, u64>::repeat(0 != 0, 70).into_boxed_bitslice();
    BitVec::<LittleEndian, u64>::repeat(1 != 0, 70).into_boxed_bitslice();
}

#[test]
fn list_form_keeps_the_bits_in_order() {
    let bv = BitVec::<BigEndian, u8>::from_bools(&[
        false, true, true, false, true, false, false, true,
    ]);
    assert_eq!(bv.len(), 8);
    assert_eq!(bv.as_slice(), &[0b0110_1001u8]);
    let bv = BitVec::<LittleEndian, u8>::from_bools(&[
        false, true, true, false, true, false, false, true,
    ]);
    assert_eq!(bv.as_slice(), &[0b1001_0110u8]);
}

#[test]
fn repetition_form_fills_the_length() {
    let ones = BitVec::<BigEndian, u16>::repeat(true, 70);
    assert_eq!(ones.len(), 70);
    assert_eq!(ones.to_bools(), vec![true; 70]);
    assert_eq!(ones.as_slice().len(), 5);
    let zeros = BitVec::<LittleEndian, u32>::repeat(false, 70);
    assert_eq!(zeros.to_bools(), vec![false; 70]);
    assert!(zeros.not_any());
    assert!(!ones.not_any());
}

#[test]
fn boxed_sequence_reads_and_writes_in_place() {
    let mut bx: BitBox<BigEndian, u8> =
        BitVec::from_bools(&[true, false, true]).into_boxed_bitslice();
    assert_eq!(bx.len(), 3);
    assert!(!bx.is_empty());
    assert_eq!(bx.get(0), Some(true));
    assert_eq!(bx.get(1), Some(false));
    assert_eq!(bx.get(3), None);
    bx.set(1, true);
    assert_eq!(bx.into_bitvec().to_bools(), vec![true, true, true]);
}
