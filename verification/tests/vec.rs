use bitvec::cursor::{BigEndian, LittleEndian};
use bitvec::vec::BitVec;

type Bits = BitVec<BigEndian, u8>;

fn bits(src: &[u8]) -> Bits {
    let src: Vec<bool> = src.iter().map(|b| *b != 0).collect();
    Bits::from_bools(&src)
}

fn read(bv: &Bits) -> Vec<u8> {
    bv.to_bools().into_iter().map(|b| b as u8).collect()
}

#[test]
fn push_pop_get_set() {
    let mut bv = BitVec::<LittleEndian, u16>::new();
    assert!(bv.is_empty());
    assert_eq!(bv.pop(), None);
    for i in 0..40 {
        bv.push(i % 3 == 0);
    }
    assert_eq!(bv.len(), 40);
    assert_eq!(bv.as_slice().len(), 3);
    assert_eq!(bv.get(39), Some(true));
    assert_eq!(bv.get(38), Some(false));
    assert_eq!(bv.get(40), None);
    assert!(bv.index(0));
    bv.set(38, true);
    assert_eq!(bv.pop(), Some(true));
    assert_eq!(bv.pop(), Some(true));
    assert_eq!(bv.pop(), Some(false));
    assert_eq!(bv.len(), 37);
    bv.truncate(100);
    assert_eq!(bv.len(), 37);
    bv.truncate(16);
    assert_eq!(bv.len(), 16);
    assert_eq!(bv.as_slice(), &[0b1001_0010_0100_1001u16]);
    bv.truncate(3);
    assert_eq!(bv.to_bools(), vec![true, false, false]);
    bv.clear();
    assert!(bv.is_empty());
    assert_eq!(bv.as_slice().len(), 0);
}

#[test]
fn elements_round_trip() {
    let bv = BitVec::<BigEndian, u8>::from_elements(vec![0b1011_0000, 0b1100_0000], 10).unwrap();
    assert_eq!(read(&bv), vec![1, 0, 1, 1, 0, 0, 0, 0, 1, 1]);
    assert_eq!(bv.clone().into_vec(), vec![0b1011_0000, 0b1100_0000]);
    assert!(BitVec::<BigEndian, u8>::from_elements(vec![0, 0], 8).is_none());
    assert!(BitVec::<BigEndian, u8>::from_elements(vec![0, 0], 17).is_none());
    assert!(BitVec::<BigEndian, u8>::from_elements(vec![], 0).is_some());
    assert_eq!(BitVec::<BigEndian, u8>::max_len(), usize::MAX >> 4);
    let mut bv = bv;
    bv.set_elements(0xff);
    assert_eq!(bv.len(), 10);
    assert_eq!(read(&bv), vec![1; 10]);
    bv.set_all(false);
    assert!(bv.not_any());
    bv.set_front(4, true);
    assert_eq!(read(&bv), vec![1, 1, 1, 1, 0, 0, 0, 0, 0, 0]);
    bv.extend_from_slice(&[true, false, true]);
    assert_eq!(read(&bv), vec![1, 1, 1, 1, 0, 0, 0, 0, 0, 0, 1, 0, 1]);
}

#[test]
fn add() {
    let s = bits(&[0, 1, 0, 1]).add(bits(&[0, 0, 1, 1]));
    assert_eq!(read(&s), vec![1, 0, 0, 0]);
    //  differently sized, and overflowing
    let s = bits(&[1; 1]).add(bits(&[1; 4]));
    assert_eq!(read(&s), vec![1, 0, 0, 0, 0]);
    let s = bits(&[]).add(bits(&[]));
    assert_eq!(read(&s), Vec::<u8>::new());
    let s = bits(&[]).add(bits(&[1, 0]));
    assert_eq!(read(&s), vec![1, 0]);
}

#[test]
fn add_assign() {
    let mut a = bits(&[1, 0, 0, 1]);
    a.add_assign(bits(&[0, 1, 1, 1]));
    assert_eq!(read(&a), vec![1, 0, 0, 0, 0]);
    let mut a = bits(&[0, 0, 0, 0, 0, 0, 0, 0, 1, 1]);
    a.add_assign(bits(&[1, 1, 1]));
    assert_eq!(read(&a), vec![0, 0, 0, 0, 0, 0, 1, 0, 1, 0]);
}

#[test]
fn boolean_operators() {
    let lhs = bits(&[0, 1, 0, 1]);
    let rhs = vec![false, false, true, true];
    assert_eq!(read(&lhs.clone().bitand(rhs.clone())), vec![0, 0, 0, 1]);
    assert_eq!(read(&lhs.clone().bitor(rhs.clone())), vec![0, 1, 1, 1]);
    assert_eq!(read(&lhs.clone().bitxor(rhs.clone())), vec![0, 1, 1, 0]);
    let mut src = lhs.clone();
    src.bitand_assign(rhs.clone());
    assert_eq!(read(&src), vec![0, 0, 0, 1]);
    let mut src = lhs.clone();
    src.bitor_assign(rhs.clone());
    assert_eq!(read(&src), vec![0, 1, 1, 1]);
    let mut src = lhs.clone();
    src.bitxor_assign(rhs);
    assert_eq!(read(&src), vec![0, 1, 1, 0]);
    //  the shorter side decides the length
    let mut src = bits(&[1, 1, 1, 1, 1]);
    src.bitand_assign(vec![true, false]);
    assert_eq!(read(&src), vec![1, 0]);
    let mut src = bits(&[1, 0]);
    src.bitxor_assign(vec![true, true, true, true]);
    assert_eq!(read(&src), vec![0, 1]);
    let mut src = bits(&[1, 0]);
    src.bitor_assign(vec![]);
    assert_eq!(read(&src), Vec::<u8>::new());
}

#[test]
fn neg() {
    assert_eq!(read(&bits(&[0, 1, 1]).neg()), vec![1, 0, 1]);
    assert_eq!(read(&bits(&[0, 0, 0]).neg()), vec![0, 0, 0]);
    assert_eq!(read(&bits(&[]).neg()), Vec::<u8>::new());
    assert_eq!(read(&bits(&[1, 0, 0]).neg()), vec![1, 0, 0]);
    assert_eq!(read(&bits(&[1]).neg()), vec![1]);
    assert_eq!(read(&bits(&[1, 1, 1, 1, 1, 1, 1, 1, 1]).neg()), vec![0, 0, 0, 0, 0, 0, 0, 0, 1]);
}

#[test]
fn not() {
    let bv = BitVec::<BigEndian, u32>::from_elements(vec![0u32], 32).unwrap();
    let flip = bv.not();
    assert_eq!(!0u32, flip.as_slice()[0]);
    assert_eq!(read(&bits(&[1, 0, 0, 1, 1]).not()), vec![0, 1, 1, 0, 0]);
    assert_eq!(read(&bits(&[]).not()), Vec::<u8>::new());
}

#[test]
fn shl() {
    let bv = bits(&[0, 0, 0, 1, 1, 1]);
    assert_eq!(0b0001_1100, bv.as_slice()[0]);
    assert_eq!(bv.len(), 6);
    let ls = bv.shl(2);
    assert_eq!(read(&ls), vec![0, 1, 1, 1]);
    assert_eq!(0b0111_0000, ls.as_slice()[0]);
    assert_eq!(ls.len(), 4);
    assert_eq!(read(&bits(&[1, 1]).shl(2)), Vec::<u8>::new());
    assert_eq!(read(&bits(&[1, 1]).shl(9)), Vec::<u8>::new());
    assert_eq!(read(&bits(&[1, 0]).shl(0)), vec![1, 0]);
}

#[test]
fn shl_assign() {
    let mut bv = BitVec::<LittleEndian, u8>::from_bools(&[false, false, false, true, true, true]);
    assert_eq!(0b0011_1000, bv.as_slice()[0]);
    assert_eq!(bv.len(), 6);
    bv.shl_assign(2);
    assert_eq!(bv.to_bools(), vec![false, true, true, true]);
    assert_eq!(0b0000_1110, bv.as_slice()[0]);
    assert_eq!(bv.len(), 4);
}

#[test]
fn shr() {
    let bv = bits(&[0, 0, 0, 1, 1, 1]);
    let rs = bv.shr(2);
    assert_eq!(read(&rs), vec![0, 0, 0, 0, 0, 1, 1, 1]);
    assert_eq!(0b0000_0111, rs.as_slice()[0]);
    assert_eq!(rs.len(), 8);
    assert_eq!(read(&bits(&[1]).shr(9)), vec![0, 0, 0, 0, 0, 0, 0, 0, 0, 1]);
    assert_eq!(read(&bits(&[]).shr(2)), vec![0, 0]);
}

#[test]
fn shr_assign() {
    let mut bv = BitVec::<LittleEndian, u8>::from_bools(&[false, false, false, true, true, true]);
    bv.shr_assign(2);
    assert_eq!(
        bv.to_bools(),
        vec![false, false, false, false, false, true, true, true]
    );
    assert_eq!(0b1110_0000, bv.as_slice()[0]);
    assert_eq!(bv.len(), 8);
}

#[test]
fn sub() {
    //  minuend larger than subtrahend, positive difference
    assert_eq!(read(&bits(&[1, 0]).sub(bits(&[1]))), vec![0, 1]);
    //  minuend smaller than subtrahend, negative difference
    assert_eq!(read(&bits(&[1]).sub(bits(&[1, 0]))), vec![1, 1]);
    //  subtraction from self
    let a = bits(&[0, 1, 1, 0]);
    let b = a.clone();
    assert!(a.sub(b).not_any());
}

#[test]
fn sub_assign() {
    let mut a = bits(&[0, 0, 0, 1]);
    a.sub_assign(bits(&[0, 0, 0, 0]));
    assert_eq!(read(&a), vec![0, 0, 0, 1]);
    let mut a = bits(&[0, 1]);
    a.sub_assign(bits(&[]));
    assert_eq!(read(&a), vec![0, 1]);
    //  7 - 2 in four bits
    let mut a = bits(&[0, 1, 1, 1]);
    a.sub_assign(bits(&[0, 0, 1, 0]));
    assert_eq!(read(&a), vec![0, 1, 0, 1]);
    //  the shorter subtrahend is negated in its own length and extended by
    //  its sign: 12 - 1 is 12 + 1...1
    let mut a = bits(&[1, 1, 0, 0]);
    a.sub_assign(bits(&[0, 1]));
    assert_eq!(read(&a), vec![1, 0, 1, 1]);
    //  here the negation 10 of 10 has its sign set
    let mut a = bits(&[0, 1, 0, 0]);
    a.sub_assign(bits(&[1, 0]));
    assert_eq!(read(&a), vec![0, 0, 1, 0]);
}

#[test]
fn counting() {
    let bv = bits(&[1, 0, 1, 1, 0, 0, 0, 0, 1, 1]);
    assert_eq!(bv.count_ones(), 5);
    assert_eq!(bv.count_zeros(), 5);
    assert_eq!(bits(&[]).count_ones(), 0);
    assert_eq!(bits(&[]).count_zeros(), 0);
    //  bits after the end of the vector do not count
    let bv = BitVec::<BigEndian, u8>::from_elements(vec![0xff, 0xff], 9).unwrap();
    assert_eq!(bv.count_ones(), 9);
    assert_eq!(bv.count_zeros(), 0);
    let bv = BitVec::<LittleEndian, u32>::repeat(true, 70);
    assert_eq!(bv.count_ones(), 70);
}
