use bitvec::cursor::{BigEndian, LittleEndian};
use bitvec::domain::BitDomain;
use bitvec::indices::{BitIdx, Indexable};
use bitvec::slice::BitSlice;
use bitvec::vec::BitVec;

#[test]
fn vector_as_a_run_of_its_bits() {
    let bv = BitVec::<BigEndian, u8>::repeat(true, 4);
    let bref = bv.as_bits();
    assert_eq!(bref.len(), 4);
    assert_eq!(bref.get(2), Some(true));
    assert_eq!(bref.get(4), None);
    assert_eq!(bref.to_bools(), bv.to_bools());
    assert_eq!(*bref.head(), 0);
    assert_eq!(bref.as_slice(), bv.as_slice());
    let bv = BitVec::<BigEndian, u8>::from_bools(&[
        false, false, false, false, false, false, false, false, true, false,
    ]);
    let bref = bv.as_bits();
    assert_eq!(bref.get(7), Some(false));
    assert_eq!(bref.get(8), Some(true));
    assert_eq!(bref.get(9), Some(false));
}

#[test]
fn run_in_a_buffer() {
    let buffer = [0b0001_1111u8, 0b1111_1000, 0xff];
    let run = BitSlice::<BigEndian, u8>::new(&buffer, 3.idx(), 10).unwrap();
    assert_eq!(run.len(), 10);
    assert!(!run.is_empty());
    assert_eq!(run.to_bools(), vec![true; 10]);
    assert_eq!(run.count_ones(), 10);
    assert_eq!(run.count_zeros(), 0);
    assert!(!run.not_any());
    assert!(matches!(run.domain(), BitDomain::Split { tail: Some(_), .. }));
    let run = BitSlice::<LittleEndian, u8>::new(&buffer, 3.idx(), 10).unwrap();
    assert_eq!(
        run.to_bools(),
        vec![true, true, false, false, false, false, false, false, true, true]
    );
    assert_eq!(run.count_ones(), 4);
    assert_eq!(run.count_zeros(), 6);
    let run = BitSlice::<BigEndian, u8>::new(&buffer, 0.idx(), 3).unwrap();
    assert!(run.not_any());
    assert_eq!(run.count_zeros(), 3);
}

#[test]
fn run_has_to_fit_the_buffer() {
    let buffer = [0u16; 2];
    assert!(BitSlice::<BigEndian, u16>::new(&buffer, 0.idx(), 32).is_some());
    assert!(BitSlice::<BigEndian, u16>::new(&buffer, 0.idx(), 33).is_none());
    assert!(BitSlice::<BigEndian, u16>::new(&buffer, 15.idx(), 17).is_some());
    assert!(BitSlice::<BigEndian, u16>::new(&buffer, 15.idx(), 18).is_none());
    assert!(BitSlice::<BigEndian, u16>::new(&buffer, 15.idx(), usize::MAX).is_none());
    assert!(BitSlice::<BigEndian, u16>::new(&buffer, 15.idx(), 0).is_some());
    assert!(BitSlice::<BigEndian, u16>::new(&[], 0.idx(), 0).is_some());
    assert!(BitSlice::<BigEndian, u16>::new(&[], 0.idx(), 1).is_none());
}

#[test]
fn runs_within_runs() {
    let buffer = [0b1010_1010u8, 0b1100_1100, 0b1111_0000];
    let all = BitSlice::<BigEndian, u8>::new(&buffer, BitIdx::new(0).unwrap(), 24).unwrap();
    let bits = all.to_bools();
    for from in 0..=24 {
        for to in from..=24 {
            let part = all.slice(from, to).unwrap();
            assert_eq!(part.len(), to - from);
            assert_eq!(part.to_bools(), bits[from..to].to_vec());
            assert_eq!(*part.head() as usize, from % 8);
            assert_eq!(
                part.count_ones(),
                bits[from..to].iter().filter(|b| **b).count()
            );
        }
    }
    assert!(all.slice(3, 2).is_none());
    assert!(all.slice(0, 25).is_none());
    assert!(all.slice(25, 25).is_none());
    //  a run of a run
    let part = all.slice(5, 20).unwrap().slice(4, 11).unwrap();
    assert_eq!(part.to_bools(), bits[9..16].to_vec());
    assert_eq!(part.as_slice().len(), 2);
    let part = all.slice(24, 24).unwrap();
    assert!(part.is_empty());
    assert!(part.not_any());
    assert!(matches!(part.domain(), BitDomain::Empty));
}
