use bitvec::cursor::{BigEndian, LittleEndian};
use bitvec::domain::BitDomain;
use bitvec::indices::BitIdx;
use bitvec::pointer::{BitPtr, BitPtrError};
use bitvec::slice::{
    count_ones, count_zeros, get_bit, not_any, set_all, set_bit, shift_left, shift_right,
};

#[test]
fn ten_bits_from_bit_three_most_significant_first() {
    let mut buffer = vec![0x00u8, 0x00];
    let span = BitPtr::<u8>::from_raw(0x1000, 3, 10).unwrap();
    assert_eq!(span.element_count(), 2);
    match span.domain::<BigEndian>() {
        BitDomain::Split { head, body, tail } => {
            assert_eq!(head, (0, 0b0001_1111));
            assert_eq!(body, (1, 1));
            //  the span ends at the bit 13: five bits of the second element
            assert_eq!(tail, Some((1, 0b1111_1000)));
        }
        other => panic!("{:?}", other),
    }
    set_all::<BigEndian, u8>(&mut buffer, span.head(), span.len(), true);
    assert_eq!(buffer, vec![0b0001_1111, 0b1111_1000]);
}

#[test]
fn eight_bits_from_bit_three_most_significant_first() {
    let mut buffer = vec![0x00u8, 0x00];
    let span = BitPtr::<u8>::from_raw(0x1000, 3, 8).unwrap();
    assert_eq!(span.element_count(), 2);
    match span.domain::<BigEndian>() {
        BitDomain::Split { head, body, tail } => {
            assert_eq!(head, (0, 0b0001_1111));
            assert_eq!(body, (1, 1));
            assert_eq!(tail, Some((1, 0b1110_0000)));
        }
        other => panic!("{:?}", other),
    }
    set_all::<BigEndian, u8>(&mut buffer, span.head(), span.len(), true);
    assert_eq!(buffer, vec![0b0001_1111, 0b1110_0000]);
}

#[test]
fn ten_bits_from_bit_three_least_significant_first() {
    let mut buffer = vec![0x00u8, 0x00];
    let span = BitPtr::<u8>::from_raw(0x1000, 3, 10).unwrap();
    match span.domain::<LittleEndian>() {
        BitDomain::Split { head, body, tail } => {
            assert_eq!(head, (0, 0b1111_1000));
            assert_eq!(body, (1, 1));
            assert_eq!(tail, Some((1, 0b0001_1111)));
        }
        other => panic!("{:?}", other),
    }
    set_all::<LittleEndian, u8>(&mut buffer, span.head(), span.len(), true);
    assert_eq!(buffer, vec![0b1111_1000, 0b0001_1111]);
    //  bit for bit the reverse of what the other order gives
    let mut other = vec![0x00u8, 0x00];
    set_all::<BigEndian, u8>(&mut other, span.head(), span.len(), true);
    assert_eq!(buffer[0], other[0].reverse_bits());
    assert_eq!(buffer[1], other[1].reverse_bits());
}

#[test]
fn eight_bits_from_bit_three_least_significant_first() {
    let mut buffer = vec![0x00u8, 0x00];
    let span = BitPtr::<u8>::from_raw(0x1000, 3, 8).unwrap();
    set_all::<LittleEndian, u8>(&mut buffer, span.head(), span.len(), true);
    assert_eq!(buffer, vec![0b1111_1000, 0b0000_0111]);
    assert_eq!(buffer[0], 0b0001_1111u8.reverse_bits());
    assert_eq!(buffer[1], 0b1110_0000u8.reverse_bits());
}

#[test]
fn length_up_to_the_ceiling() {
    let cap = usize::MAX >> 4;
    assert_eq!(BitPtr::<u8>::max_len(), cap);
    let span = BitPtr::<u8>::from_raw(8, 0, cap).unwrap();
    assert_eq!(span.len(), cap);
    assert_eq!(
        BitPtr::<u8>::from_raw(8, 0, cap + 1).err(),
        Some(BitPtrError::CapacityExceeded)
    );
    assert_eq!(BitPtr::<u16>::max_len(), usize::MAX >> 5);
    assert_eq!(BitPtr::<u32>::max_len(), usize::MAX >> 6);
    assert_eq!(BitPtr::<u64>::max_len(), usize::MAX >> 7);
    assert_eq!(
        BitPtr::<u64>::from_raw(8, 0, (usize::MAX >> 7) + 1).err(),
        Some(BitPtrError::CapacityExceeded)
    );
    assert!(BitPtr::<u64>::from_raw(8, 0, usize::MAX >> 7).is_ok());
}

#[test]
fn from_raw_rejects_bad_spans() {
    assert_eq!(BitPtr::<u8>::from_raw(0, 0, 1).err(), Some(BitPtrError::InvalidSpan));
    assert_eq!(BitPtr::<u16>::from_raw(3, 0, 1).err(), Some(BitPtrError::InvalidSpan));
    assert_eq!(BitPtr::<u64>::from_raw(4, 0, 1).err(), Some(BitPtrError::InvalidSpan));
    assert_eq!(BitPtr::<u8>::from_raw(16, 8, 1).err(), Some(BitPtrError::InvalidSpan));
    assert_eq!(BitPtr::<u8>::from_raw(16, 8, 0).err(), Some(BitPtrError::InvalidSpan));
    assert_eq!(BitPtr::<u32>::from_raw(16, 32, 4).err(), Some(BitPtrError::InvalidSpan));
    //  a null or unaligned base is no fault of a span without bits
    assert!(BitPtr::<u16>::from_raw(0, 5, 0).is_ok());
    assert!(BitPtr::<u16>::from_raw(3, 5, 0).is_ok());
    //  the elements must end within the address space
    assert_eq!(
        BitPtr::<u8>::from_raw(usize::MAX, 0, 16).err(),
        Some(BitPtrError::InvalidSpan)
    );
    assert!(BitPtr::<u8>::from_raw(usize::MAX - 2, 0, 16).is_ok());
    //  a bad head or base is reported before a length out of range
    assert_eq!(
        BitPtr::<u8>::from_raw(0, 0, usize::MAX).err(),
        Some(BitPtrError::InvalidSpan)
    );
}

#[test]
fn empty_span_is_canonical() {
    let span = BitPtr::<u32>::empty();
    assert_eq!(span.base(), 4);
    assert_eq!(*span.head(), 0);
    assert_eq!(span.len(), 0);
    assert!(span.is_empty());
    assert_eq!(span.element_count(), 0);
    assert!(matches!(span.domain::<BigEndian>(), BitDomain::Empty));
    assert_eq!(BitPtr::<u8>::empty().base(), 1);
    assert_eq!(BitPtr::<u64>::empty().base(), 8);
}

#[test]
fn element_count_rounds_up() {
    let count = |head: u8, bits: usize| BitPtr::<u8>::from_raw(64, head, bits).unwrap().element_count();
    assert_eq!(count(0, 0), 0);
    assert_eq!(count(0, 1), 1);
    assert_eq!(count(0, 8), 1);
    assert_eq!(count(0, 9), 2);
    assert_eq!(count(7, 1), 1);
    assert_eq!(count(7, 2), 2);
    assert_eq!(count(7, 9), 2);
    assert_eq!(count(7, 10), 3);
    let span = BitPtr::<u64>::from_raw(64, 63, 66).unwrap();
    assert_eq!(span.element_count(), 3);
}

#[test]
fn bit_at_walks_the_span_in_order() {
    let span = BitPtr::<u16>::from_raw(64, 13, 40).unwrap();
    let mut last = None;
    for i in 0..40 {
        let (elt, bit) = span.bit_at(i).unwrap();
        assert_eq!(elt, (13 + i) / 16);
        assert_eq!(*bit as usize, (13 + i) % 16);
        let place = (elt, *bit);
        if let Some(before) = last {
            assert!(before < place);
        }
        last = Some(place);
    }
    assert_eq!(span.bit_at(40).err(), Some(BitPtrError::OutOfRange));
    assert_eq!(span.bit_at(usize::MAX).err(), Some(BitPtrError::OutOfRange));
    assert_eq!(BitPtr::<u16>::empty().bit_at(0).err(), Some(BitPtrError::OutOfRange));
}

#[test]
fn with_length_shares_base_and_head() {
    let span = BitPtr::<u32>::from_raw(64, 9, 40).unwrap();
    let longer = span.with_length(1000).unwrap();
    assert_eq!(longer.base(), 64);
    assert_eq!(*longer.head(), 9);
    assert_eq!(longer.len(), 1000);
    let none = span.with_length(0).unwrap();
    assert_eq!(none.base(), 64);
    assert_eq!(*none.head(), 9);
    assert!(none.is_empty());
    let cap = BitPtr::<u32>::max_len();
    assert_eq!(span.with_length(cap).unwrap().len(), cap);
    assert_eq!(span.with_length(cap + 1).err(), Some(BitPtrError::CapacityExceeded));
    //  a span without bits may have a base that cannot hold any
    let odd = BitPtr::<u32>::from_raw(3, 0, 0).unwrap();
    assert_eq!(odd.with_length(1).err(), Some(BitPtrError::InvalidSpan));
    assert_eq!(odd.with_length(cap + 1).err(), Some(BitPtrError::CapacityExceeded));
    let high = BitPtr::<u8>::from_raw(usize::MAX - 1, 0, 8).unwrap();
    assert_eq!(high.with_length(9).err(), Some(BitPtrError::InvalidSpan));
}

#[test]
fn offset_head_skips_bits() {
    let span = BitPtr::<u16>::from_raw(64, 13, 40).unwrap();
    let same = span.offset_head(0).unwrap();
    assert_eq!((same.base(), *same.head(), same.len()), (64, 13, 40));
    let rest = span.offset_head(3).unwrap();
    assert_eq!((rest.base(), *rest.head(), rest.len()), (66, 0, 37));
    let rest = span.offset_head(20).unwrap();
    assert_eq!((rest.base(), *rest.head(), rest.len()), (68, 1, 20));
    let none = span.offset_head(40).unwrap();
    assert!(none.is_empty());
    assert_eq!((none.base(), *none.head()), (70, 5));
    assert!(matches!(none.domain::<LittleEndian>(), BitDomain::Empty));
    assert_eq!(span.offset_head(41).err(), Some(BitPtrError::Underflow));
    assert_eq!(span.offset_head(usize::MAX).err(), Some(BitPtrError::Underflow));
    let empty = BitPtr::<u16>::empty();
    let same = empty.offset_head(0).unwrap();
    assert_eq!((same.base(), *same.head(), same.len()), (2, 0, 0));
}

fn coverage<T>(domain: &BitDomain<T>, width: usize, bit_of: impl Fn(&T, usize) -> bool) -> Vec<usize> {
    let mut held = Vec::new();
    let mut part = |elt: usize, mask: &T, held: &mut Vec<usize>| {
        for i in 0..width {
            if bit_of(mask, i) {
                held.push(elt * width + i);
            }
        }
    };
    match domain {
        BitDomain::Empty => {}
        BitDomain::PureBody { body } => {
            held.extend(body.0 * width..body.1 * width);
        }
        BitDomain::SingleElementPartial { elt, mask } => part(*elt, mask, &mut held),
        BitDomain::Split { head, body, tail } => {
            part(head.0, &head.1, &mut held);
            held.extend(body.0 * width..body.1 * width);
            if let Some(tail) = tail {
                part(tail.0, &tail.1, &mut held);
            }
        }
    }
    held
}

#[test]
fn domain_round_trip_u8() {
    for head in 0..8u8 {
        for bits in 0..32usize {
            let expect: Vec<usize> = (head as usize..head as usize + bits).collect();
            let span = BitPtr::<u8>::from_raw(16, head, bits).unwrap();
            let be = span.domain::<BigEndian>();
            assert_eq!(coverage(&be, 8, |m, i| m & (0x80 >> i) != 0), expect);
            let le = span.domain::<LittleEndian>();
            assert_eq!(coverage(&le, 8, |m, i| m & (1 << i) != 0), expect);
        }
    }
}

#[test]
fn domain_round_trip_u16() {
    for head in 0..16u8 {
        for bits in 0..64usize {
            let expect: Vec<usize> = (head as usize..head as usize + bits).collect();
            let span = BitPtr::<u16>::from_raw(16, head, bits).unwrap();
            let be = span.domain::<BigEndian>();
            assert_eq!(coverage(&be, 16, |m, i| m & (0x8000 >> i) != 0), expect);
            let le = span.domain::<LittleEndian>();
            assert_eq!(coverage(&le, 16, |m, i| m & (1 << i) != 0), expect);
        }
    }
}

#[test]
fn domain_round_trip_u32() {
    for head in 0..32u8 {
        for bits in 0..128usize {
            let expect: Vec<usize> = (head as usize..head as usize + bits).collect();
            let span = BitPtr::<u32>::from_raw(16, head, bits).unwrap();
            let be = span.domain::<BigEndian>();
            assert_eq!(coverage(&be, 32, |m, i| m & (0x8000_0000 >> i) != 0), expect);
            let le = span.domain::<LittleEndian>();
            assert_eq!(coverage(&le, 32, |m, i| m & (1 << i) != 0), expect);
        }
    }
}

#[test]
fn domain_round_trip_u64() {
    for head in 0..64u8 {
        for bits in 0..256usize {
            let expect: Vec<usize> = (head as usize..head as usize + bits).collect();
            let span = BitPtr::<u64>::from_raw(16, head, bits).unwrap();
            let be = span.domain::<BigEndian>();
            assert_eq!(coverage(&be, 64, |m, i| m & (0x8000_0000_0000_0000 >> i) != 0), expect);
            let le = span.domain::<LittleEndian>();
            assert_eq!(coverage(&le, 64, |m, i| m & (1 << i) != 0), expect);
        }
    }
}

#[test]
fn domain_kinds_at_the_boundaries() {
    let kind = |head: u8, bits: usize| match BitDomain::<u8>::new::<BigEndian>(BitIdx::new(head).unwrap(), bits) {
        BitDomain::Empty => "empty",
        BitDomain::PureBody { .. } => "body",
        BitDomain::SingleElementPartial { .. } => "single",
        BitDomain::Split { tail: None, .. } => "head and body",
        BitDomain::Split { tail: Some(_), .. } => "head, body and tail",
    };
    assert_eq!(kind(0, 0), "empty");
    assert_eq!(kind(7, 0), "empty");
    assert_eq!(kind(0, 1), "single");
    assert_eq!(kind(0, 7), "single");
    assert_eq!(kind(0, 8), "body");
    assert_eq!(kind(0, 9), "head, body and tail");
    assert_eq!(kind(0, 16), "body");
    assert_eq!(kind(7, 1), "single");
    assert_eq!(kind(7, 7), "head, body and tail");
    assert_eq!(kind(7, 8), "head, body and tail");
    assert_eq!(kind(7, 9), "head and body");
    assert_eq!(kind(1, 7), "single");
    assert_eq!(kind(1, 15), "head and body");
    match BitDomain::<u8>::new::<BigEndian>(BitIdx::new(0).unwrap(), 24) {
        BitDomain::PureBody { body } => assert_eq!(body, (0, 3)),
        other => panic!("{:?}", other),
    }
    match BitDomain::<u8>::new::<BigEndian>(BitIdx::new(2).unwrap(), 4) {
        BitDomain::SingleElementPartial { elt, mask } => {
            assert_eq!(elt, 0);
            assert_eq!(mask, 0b0011_1100);
        }
        other => panic!("{:?}", other),
    }
    match BitDomain::<u8>::new::<LittleEndian>(BitIdx::new(6).unwrap(), 21) {
        BitDomain::Split { head, body, tail } => {
            assert_eq!(head, (0, 0b1100_0000));
            assert_eq!(body, (1, 3));
            assert_eq!(tail, Some((3, 0b0000_0111)));
        }
        other => panic!("{:?}", other),
    }
}

#[test]
fn set_all_leaves_other_bits() {
    let mut buffer = vec![0xffffu16, 0xffff, 0xffff, 0xffff];
    set_all::<BigEndian, u16>(&mut buffer, BitIdx::new(5).unwrap(), 40, false);
    assert_eq!(buffer, vec![0xf800, 0x0000, 0x0007, 0xffff]);
    set_all::<LittleEndian, u16>(&mut buffer, BitIdx::new(0).unwrap(), 16, true);
    assert_eq!(buffer, vec![0xffff, 0x0000, 0x0007, 0xffff]);
    set_all::<LittleEndian, u16>(&mut buffer, BitIdx::new(15).unwrap(), 0, false);
    assert_eq!(buffer, vec![0xffff, 0x0000, 0x0007, 0xffff]);
    set_all::<LittleEndian, u16>(&mut buffer, BitIdx::new(15).unwrap(), 2, false);
    assert_eq!(buffer, vec![0x7fff, 0x0000, 0x0007, 0xffff]);
}

#[test]
fn not_any_looks_at_the_span_only() {
    let buffer = vec![0b1110_0000u8, 0x00, 0b0000_0111];
    assert!(not_any::<BigEndian, u8>(&buffer, BitIdx::new(3).unwrap(), 18));
    assert!(!not_any::<BigEndian, u8>(&buffer, BitIdx::new(2).unwrap(), 18));
    assert!(!not_any::<BigEndian, u8>(&buffer, BitIdx::new(3).unwrap(), 19));
    assert!(not_any::<BigEndian, u8>(&buffer, BitIdx::new(0).unwrap(), 0));
    let buffer = vec![0u8, 0, 1];
    assert!(not_any::<BigEndian, u8>(&buffer, BitIdx::new(0).unwrap(), 16));
    assert!(!not_any::<BigEndian, u8>(&buffer, BitIdx::new(0).unwrap(), 24));
    let buffer = vec![0u8, 4, 0];
    assert!(!not_any::<LittleEndian, u8>(&buffer, BitIdx::new(1).unwrap(), 20));
    assert!(not_any::<LittleEndian, u8>(&buffer, BitIdx::new(1).unwrap(), 9));
}

#[test]
fn single_bits_of_a_buffer() {
    let mut buffer = vec![0u8, 0];
    set_bit::<BigEndian, u8>(&mut buffer, 9, true);
    assert_eq!(buffer, vec![0, 0b0100_0000]);
    assert!(get_bit::<BigEndian, u8>(&buffer, 9));
    assert!(!get_bit::<BigEndian, u8>(&buffer, 8));
    assert!(get_bit::<LittleEndian, u8>(&buffer, 14));
    set_bit::<LittleEndian, u8>(&mut buffer, 14, false);
    assert_eq!(buffer, vec![0, 0]);
}

#[test]
fn buffer_shifts_clear_the_vacated_places() {
    let mut buffer = vec![0b0001_1100u8, 0b1111_1111];
    shift_left::<BigEndian, u8>(&mut buffer, 6, 2);
    assert_eq!(buffer, vec![0b0111_0000, 0b1111_1111]);
    let mut buffer = vec![0b0001_1111u8, 0b1111_1111];
    shift_right::<BigEndian, u8>(&mut buffer, 6, 2);
    assert_eq!(buffer, vec![0b0000_0111, 0b1111_1111]);
    let mut buffer = vec![0xffu8, 0xff];
    shift_left::<BigEndian, u8>(&mut buffer, 12, 12);
    assert_eq!(buffer, vec![0x00, 0x0f]);
    let mut buffer = vec![0xa5u8];
    shift_right::<LittleEndian, u8>(&mut buffer, 8, 0);
    assert_eq!(buffer, vec![0xa5]);
}

#[test]
fn counting_looks_at_the_span_only() {
    let buffer = vec![0xffu8, 0x0f, 0xf0, 0xff];
    assert_eq!(count_ones::<BigEndian, u8>(&buffer, BitIdx::new(0).unwrap(), 32), 24);
    assert_eq!(count_zeros::<BigEndian, u8>(&buffer, BitIdx::new(0).unwrap(), 32), 8);
    assert_eq!(count_ones::<BigEndian, u8>(&buffer, BitIdx::new(4).unwrap(), 8), 4);
    assert_eq!(count_ones::<LittleEndian, u8>(&buffer, BitIdx::new(4).unwrap(), 8), 8);
    assert_eq!(count_ones::<BigEndian, u8>(&buffer, BitIdx::new(7).unwrap(), 6), 2);
    assert_eq!(count_zeros::<BigEndian, u8>(&buffer, BitIdx::new(7).unwrap(), 6), 4);
    assert_eq!(count_ones::<BigEndian, u8>(&buffer, BitIdx::new(7).unwrap(), 18), 10);
    assert_eq!(count_ones::<BigEndian, u8>(&buffer, BitIdx::new(3).unwrap(), 0), 0);
    assert_eq!(count_ones::<BigEndian, u8>(&buffer, BitIdx::new(3).unwrap(), 1), 1);
    assert_eq!(count_ones::<BigEndian, u8>(&buffer, BitIdx::new(0).unwrap(), 16), 12);
    let wide = vec![u64::MAX, 1, 1 << 63];
    assert_eq!(count_ones::<BigEndian, u64>(&wide, BitIdx::new(63).unwrap(), 66), 3);
    assert_eq!(count_ones::<LittleEndian, u64>(&wide, BitIdx::new(63).unwrap(), 66), 2);
    assert_eq!(count_ones::<LittleEndian, u64>(&wide, BitIdx::new(0).unwrap(), 192), 66);
}
