use clvmr::allocator::{AllocError, Allocator, NodePtr, SExp};
use clvmr::node::Node;
use clvmr::object_table::{parse_zz, ParsedClvmObject};
use clvmr::serialize::{
    bad_encoding, decode_size, internal_error, node_from_bytes, node_from_stream, node_to_bytes,
    node_to_stream, serialized_length_from_bytes, write_atom,
    write_atom_encoding_prefix_with_size,
};
use clvmr::stream::{Cursor, Error, ErrorKind};

#[test]
fn test_serialized_length_from_bytes() {
    assert_eq!(
        serialized_length_from_bytes(&[0x7f, 0x00, 0x00, 0x00]).unwrap(),
        1
    );
    assert_eq!(
        serialized_length_from_bytes(&[0x80, 0x00, 0x00, 0x00]).unwrap(),
        1
    );
    assert_eq!(
        serialized_length_from_bytes(&[0xff, 0x00, 0x00, 0x00]).unwrap(),
        3
    );
    assert_eq!(
        serialized_length_from_bytes(&[0xff, 0x01, 0xff, 0x80, 0x80, 0x00]).unwrap(),
        5
    );

    let e = serialized_length_from_bytes(&[0x8f, 0xff]).unwrap_err();
    assert_eq!(e.kind(), bad_encoding().kind());
    assert_eq!(e.to_string(), "bad encoding");

    let e = serialized_length_from_bytes(&[0b11001111, 0xff]).unwrap_err();
    assert_eq!(e.kind(), bad_encoding().kind());
    assert_eq!(e.to_string(), "bad encoding");

    let e = serialized_length_from_bytes(&[0b11001111, 0xff, 0, 0]).unwrap_err();
    assert_eq!(e.kind(), bad_encoding().kind());
    assert_eq!(e.to_string(), "bad encoding");

    assert_eq!(
        serialized_length_from_bytes(&[0x8f, 0, 0, 0, 0, 0, 0, 0, 0, 0, 0, 0, 0, 0, 0, 0]).unwrap(),
        16
    );
}

#[test]
fn test_write_atom_encoding_prefix_with_size() {
    let mut buf = Vec::<u8>::new();
    assert!(write_atom_encoding_prefix_with_size(&mut buf, 0, 0).is_ok());
    assert_eq!(buf, vec![0x80]);

    for v in 0..0x7f {
        let mut buf = Vec::<u8>::new();
        assert!(write_atom_encoding_prefix_with_size(&mut buf, v, 1).is_ok());
        assert_eq!(buf, vec![]);
    }

    for v in 0x80..0xff {
        let mut buf = Vec::<u8>::new();
        assert!(write_atom_encoding_prefix_with_size(&mut buf, v, 1).is_ok());
        assert_eq!(buf, vec![0x81]);
    }

    for size in 0x1_u8..0x3f_u8 {
        let mut buf = Vec::<u8>::new();
        assert!(write_atom_encoding_prefix_with_size(&mut buf, 0xaa, size as u64).is_ok());
        assert_eq!(buf, vec![0x80 + size]);
    }

    let mut buf = Vec::<u8>::new();
    assert!(write_atom_encoding_prefix_with_size(&mut buf, 0xaa, 0b111111).is_ok());
    assert_eq!(buf, vec![0b10111111]);

    let mut buf = Vec::<u8>::new();
    assert!(write_atom_encoding_prefix_with_size(&mut buf, 0xaa, 0b1000000).is_ok());
    assert_eq!(buf, vec![0b11000000, 0b1000000]);

    let mut buf = Vec::<u8>::new();
    assert!(write_atom_encoding_prefix_with_size(&mut buf, 0xaa, 0xfffff).is_ok());
    assert_eq!(buf, vec![0b11101111, 0xff, 0xff]);

    let mut buf = Vec::<u8>::new();
    assert!(write_atom_encoding_prefix_with_size(&mut buf, 0xaa, 0xffffff).is_ok());
    assert_eq!(buf, vec![0b11110000, 0xff, 0xff, 0xff]);

    let mut buf = Vec::<u8>::new();
    assert!(write_atom_encoding_prefix_with_size(&mut buf, 0xaa, 0xffffffff).is_ok());
    assert_eq!(buf, vec![0b11111000, 0xff, 0xff, 0xff, 0xff]);

    // this is the largest possible atom size
    let mut buf = Vec::<u8>::new();
    assert!(write_atom_encoding_prefix_with_size(&mut buf, 0xaa, 0x3ffffffff).is_ok());
    assert_eq!(buf, vec![0b11111011, 0xff, 0xff, 0xff, 0xff]);

    // this is too large
    let mut buf = Vec::<u8>::new();
    assert!(!write_atom_encoding_prefix_with_size(&mut buf, 0xaa, 0x400000000).is_ok());

    for (size, expected_prefix) in [
        (0x1, vec![0x81]),
        (0x2, vec![0x82]),
        (0x3f, vec![0xbf]),
        (0x40, vec![0xc0, 0x40]),
        (0x1fff, vec![0xdf, 0xff]),
        (0x2000, vec![0xe0, 0x20, 0x00]),
        (0xf_ffff, vec![0xef, 0xff, 0xff]),
        (0x10_0000, vec![0xf0, 0x10, 0x00, 0x00]),
        (0x7ff_ffff, vec![0xf7, 0xff, 0xff, 0xff]),
        (0x800_0000, vec![0xf8, 0x08, 0x00, 0x00, 0x00]),
        (0x3_ffff_ffff, vec![0xfb, 0xff, 0xff, 0xff, 0xff]),
    ] {
        let mut buf = Vec::<u8>::new();
        assert!(write_atom_encoding_prefix_with_size(&mut buf, 0xaa, size).is_ok());
        assert_eq!(buf, expected_prefix);
    }
}

#[test]
fn test_write_atom() {
    let mut buf = Vec::<u8>::new();
    assert!(write_atom(&mut buf, &vec![]).is_ok());
    assert_eq!(buf, vec![0b10000000]);

    let mut buf = Vec::<u8>::new();
    assert!(write_atom(&mut buf, &vec![0x00]).is_ok());
    assert_eq!(buf, vec![0b00000000]);

    let mut buf = Vec::<u8>::new();
    assert!(write_atom(&mut buf, &vec![0x7f]).is_ok());
    assert_eq!(buf, vec![0x7f]);

    let mut buf = Vec::<u8>::new();
    assert!(write_atom(&mut buf, &vec![0x80]).is_ok());
    assert_eq!(buf, vec![0x81, 0x80]);

    let mut buf = Vec::<u8>::new();
    assert!(write_atom(&mut buf, &vec![0xff]).is_ok());
    assert_eq!(buf, vec![0x81, 0xff]);

    let mut buf = Vec::<u8>::new();
    assert!(write_atom(&mut buf, &vec![0xaa, 0xbb]).is_ok());
    assert_eq!(buf, vec![0x82, 0xaa, 0xbb]);

    for (size, mut expected_prefix) in [
        (0x1, vec![0x81]),
        (0x2, vec![0x82]),
        (0x3f, vec![0xbf]),
        (0x40, vec![0xc0, 0x40]),
        (0x1fff, vec![0xdf, 0xff]),
        (0x2000, vec![0xe0, 0x20, 0x00]),
        (0xf_ffff, vec![0xef, 0xff, 0xff]),
        (0x10_0000, vec![0xf0, 0x10, 0x00, 0x00]),
        (0x7ff_ffff, vec![0xf7, 0xff, 0xff, 0xff]),
        (0x800_0000, vec![0xf8, 0x08, 0x00, 0x00, 0x00]),
        // the next size up would need 17 GB of memory to write out
    ] {
        let mut buf = Vec::<u8>::new();
        let atom = vec![0xaa; size];
        assert!(write_atom(&mut buf, &atom).is_ok());
        expected_prefix.extend(atom);
        assert_eq!(buf, expected_prefix);
    }
}

#[test]
fn test_decode_size() {
    // single-byte length prefix
    let mut buffer = Cursor::new(&[]);
    assert_eq!(decode_size(&mut buffer, 0x80 | 0x20).unwrap(), (1, 0x20));

    // two-byte length prefix
    let first = 0b11001111;
    let mut buffer = Cursor::new(&[0xaa]);
    assert_eq!(decode_size(&mut buffer, first).unwrap(), (2, 0xfaa));
}

#[test]
fn test_large_decode_size() {
    // this is an atom length-prefix 0xffffffffffff, or (2^48 - 1).
    // We don't support atoms this large and we should fail before attempting to
    // allocate this much memory
    let first = 0b11111110;
    let mut buffer = Cursor::new(&[0xff, 0xff, 0xff, 0xff, 0xff, 0xff]);
    let ret = decode_size(&mut buffer, first);
    let e = ret.unwrap_err();
    assert_eq!(e.kind(), bad_encoding().kind());
    assert_eq!(e.to_string(), "bad encoding");

    // this is still too large
    let first = 0b11111100;
    let mut buffer = Cursor::new(&[0x4, 0, 0, 0, 0]);
    let ret = decode_size(&mut buffer, first);
    let e = ret.unwrap_err();
    assert_eq!(e.kind(), bad_encoding().kind());
    assert_eq!(e.to_string(), "bad encoding");

    // But this is *just* within what we support
    // Still a very large blob, probably enough for a DoS attack
    let first = 0b11111100;
    let mut buffer = Cursor::new(&[0x3, 0xff, 0xff, 0xff, 0xff]);
    assert_eq!(decode_size(&mut buffer, first).unwrap(), (6, 0x3ffffffff));
}

#[test]
fn test_truncated_decode_size() {
    // the stream is truncated
    let first = 0b11111100;
    let mut buffer = Cursor::new(&[0x4, 0, 0, 0]);
    let ret = decode_size(&mut buffer, first);
    let e = ret.unwrap_err();
    assert_eq!(e.kind(), ErrorKind::UnexpectedEof);
}

#[test]
fn test_decode_size_without_prefix_bit() {
    let mut buffer = Cursor::new(&[0x00, 0x00]);
    let e = decode_size(&mut buffer, 0x7f).unwrap_err();
    assert_eq!(e, internal_error());
    assert_eq!(e.kind(), ErrorKind::InvalidInput);
    assert_eq!(e.to_string(), "internal error");
    assert_eq!(buffer.position(), 0);
}

#[test]
fn test_decode_size_seven_byte_prefix_cut_short() {
    // seven bytes are announced and only one follows: the end of the input
    // is met before the prefix is seen to be too long
    let mut buffer = Cursor::new(&[0x00]);
    let e = decode_size(&mut buffer, 0b11111110).unwrap_err();
    assert_eq!(e.kind(), ErrorKind::UnexpectedEof);
    assert_eq!(buffer.position(), 1);
}

#[test]
fn test_decode_size_overlong_prefix_is_accepted() {
    // the length 1 in a two-byte and in a six-byte prefix
    let mut buffer = Cursor::new(&[0x01]);
    assert_eq!(decode_size(&mut buffer, 0xc0).unwrap(), (2, 1));
    let mut buffer = Cursor::new(&[0, 0, 0, 0, 1]);
    assert_eq!(decode_size(&mut buffer, 0xfc).unwrap(), (6, 1));
    assert_eq!(buffer.position(), 5);
}

#[test]
fn test_error_kinds_and_messages() {
    assert_eq!(Error::BadEncoding.kind(), ErrorKind::InvalidInput);
    assert_eq!(Error::AtomTooBig.kind(), ErrorKind::InvalidData);
    assert_eq!(Error::AtomTooBig.to_string(), "atom too big");
    assert_eq!(Error::UnexpectedEof.to_string(), "unexpected end of input");
    assert_eq!(
        Error::Alloc(AllocError::SizeLimitExceeded).kind(),
        ErrorKind::Other
    );
    assert_eq!(
        Error::Alloc(AllocError::SizeLimitExceeded).to_string(),
        "size limit exceeded"
    );
    assert_eq!(
        Error::Alloc(AllocError::AllocationLimitExceeded).to_string(),
        "allocation limit exceeded"
    );
}

#[test]
fn test_atom_too_big_leaves_buffer_alone() {
    let mut buf = vec![1u8, 2, 3];
    let e = write_atom_encoding_prefix_with_size(&mut buf, 0xaa, 0x4_0000_0000).unwrap_err();
    assert_eq!(e, Error::AtomTooBig);
    assert_eq!(buf, vec![1, 2, 3]);
}

fn serialize(a: &Allocator, node: NodePtr) -> Vec<u8> {
    node_to_bytes(&Node::new(a, node)).unwrap()
}

fn same_tree(a: &Allocator, x: NodePtr, b: &Allocator, y: NodePtr) -> bool {
    let mut pending = vec![(x, y)];
    while let Some((x, y)) = pending.pop() {
        match (a.sexp(x), b.sexp(y)) {
            (SExp::Atom(p), SExp::Atom(q)) => {
                if a.buf(&p) != b.buf(&q) {
                    return false;
                }
            }
            (SExp::Pair(x1, x2), SExp::Pair(y1, y2)) => {
                pending.push((x1, y1));
                pending.push((x2, y2));
            }
            _ => return false,
        }
    }
    true
}

#[test]
fn test_canonical_prefix_table() {
    let mut a = Allocator::new();
    let n = a.new_atom(&[]).unwrap();
    assert_eq!(serialize(&a, n), vec![0x80]);
    let n = a.new_atom(&[0x00]).unwrap();
    assert_eq!(serialize(&a, n), vec![0x00]);
    let n = a.new_atom(&[0xff]).unwrap();
    assert_eq!(serialize(&a, n), vec![0x81, 0xff]);
    let n = a.new_atom(&[0xaa; 0x40]).unwrap();
    let mut expected = vec![0xc0, 0x40];
    expected.extend([0xaa; 0x40]);
    assert_eq!(serialize(&a, n), expected);
}

#[test]
fn test_node_to_stream_appends() {
    let mut a = Allocator::new();
    let one = a.one();
    let null = a.null();
    let inner = a.new_pair(null, null).unwrap();
    let root = a.new_pair(one, inner).unwrap();
    let mut out = vec![0x11, 0x22];
    assert!(node_to_stream(&Node::new(&a, root), &mut out).is_ok());
    assert_eq!(out, vec![0x11, 0x22, 0xff, 0x01, 0xff, 0x80, 0x80]);
}

#[test]
fn test_node_from_bytes_ignores_what_follows() {
    let mut a = Allocator::new();
    let n = node_from_bytes(&mut a, &[0xff, 0x01, 0xff, 0x80, 0x80, 0x00]).unwrap();
    assert_eq!(serialize(&a, n), vec![0xff, 0x01, 0xff, 0x80, 0x80]);
    match a.sexp(n) {
        SExp::Pair(first, rest) => {
            assert_eq!(first, a.one());
            match a.sexp(rest) {
                SExp::Pair(x, y) => {
                    assert_eq!(x, a.null());
                    assert_eq!(y, a.null());
                }
                _ => panic!("expected a pair"),
            }
        }
        _ => panic!("expected a pair"),
    }
}

#[test]
fn test_node_from_stream_moves_cursor() {
    let mut a = Allocator::new();
    let data = [0x82, 0xaa, 0xbb, 0x05, 0x06];
    let mut f = Cursor::new(&data);
    let n = node_from_stream(&mut a, &mut f).unwrap();
    assert_eq!(f.position(), 3);
    assert_eq!(a.atom(n), &[0xaa, 0xbb]);
    let m = node_from_stream(&mut a, &mut f).unwrap();
    assert_eq!(f.position(), 4);
    assert_eq!(a.atom(m), &[0x05]);
}

#[test]
fn test_round_trip_atoms_of_all_small_lengths() {
    for len in 0..=70usize {
        for first in [0x00u8, 0x01, 0x7f, 0x80, 0xff] {
            let mut bytes = vec![0x5a; len];
            if len > 0 {
                bytes[0] = first;
            }
            let mut a = Allocator::new();
            let n = a.new_atom(&bytes).unwrap();
            let encoded = serialize(&a, n);
            let mut b = Allocator::new();
            let back = node_from_bytes(&mut b, &encoded).unwrap();
            assert_eq!(b.atom(back), &bytes[..]);
            assert_eq!(
                serialized_length_from_bytes(&encoded).unwrap(),
                encoded.len() as u64
            );
        }
    }
}

#[test]
fn test_round_trip_larger_atoms() {
    for len in [0x3f, 0x40, 0x1fff, 0x2000, 0xf_ffff, 0x10_0000] {
        let bytes = vec![0xaa; len];
        let mut a = Allocator::new();
        let n = a.new_atom(&bytes).unwrap();
        let encoded = serialize(&a, n);
        let mut b = Allocator::new();
        let back = node_from_bytes(&mut b, &encoded).unwrap();
        assert_eq!(b.atom(back), &bytes[..]);
        assert_eq!(
            serialized_length_from_bytes(&encoded).unwrap(),
            encoded.len() as u64
        );
    }
}

fn deep_list(a: &mut Allocator, depth: usize) -> NodePtr {
    let mut list = a.null();
    for i in 0..depth {
        let item = a.new_atom(&[(i % 251) as u8]).unwrap();
        list = a.new_pair(item, list).unwrap();
    }
    list
}

#[test]
fn test_round_trip_deep_and_mixed_trees() {
    let mut a = Allocator::new();
    let list = deep_list(&mut a, 10_000);
    let mut left = a.one();
    for i in 0..10_000usize {
        let item = a.new_atom(&vec![0x80 | (i % 7) as u8; i % 70]).unwrap();
        left = a.new_pair(left, item).unwrap();
    }
    let root = a.new_pair(left, list).unwrap();
    let encoded = serialize(&a, root);
    let mut b = Allocator::new();
    let back = node_from_bytes(&mut b, &encoded).unwrap();
    assert!(same_tree(&a, root, &b, back));
    assert_eq!(serialize(&b, back), encoded);
    assert_eq!(
        serialized_length_from_bytes(&encoded).unwrap(),
        encoded.len() as u64
    );
}

#[test]
fn test_hundred_thousand_deep_list() {
    let mut a = Allocator::new();
    let list = deep_list(&mut a, 100_000);
    let encoded = serialize(&a, list);
    assert_eq!(
        serialized_length_from_bytes(&encoded).unwrap(),
        encoded.len() as u64
    );
    let mut b = Allocator::new();
    let back = node_from_bytes(&mut b, &encoded).unwrap();
    assert!(same_tree(&a, list, &b, back));
}

#[test]
fn test_hundred_thousand_deep_left_spine() {
    // pairs nested in the first element: markers pile up before any atom
    let mut encoded = vec![0xff; 100_000];
    encoded.extend(vec![0x01; 100_001]);
    assert_eq!(
        serialized_length_from_bytes(&encoded).unwrap(),
        encoded.len() as u64
    );
    let mut a = Allocator::new();
    let n = node_from_bytes(&mut a, &encoded).unwrap();
    assert_eq!(serialize(&a, n), encoded);
}

#[test]
fn test_truncated_inputs() {
    let mut a = Allocator::new();
    // nothing at all
    assert_eq!(
        node_from_bytes(&mut a, &[]).unwrap_err(),
        Error::UnexpectedEof
    );
    assert_eq!(
        serialized_length_from_bytes(&[]).unwrap_err(),
        Error::UnexpectedEof
    );
    // a pair without its second element
    assert_eq!(
        node_from_bytes(&mut a, &[0xff, 0x01]).unwrap_err(),
        Error::UnexpectedEof
    );
    assert_eq!(
        serialized_length_from_bytes(&[0xff, 0x01]).unwrap_err(),
        Error::UnexpectedEof
    );
    // an atom longer than the whole input
    assert_eq!(
        node_from_bytes(&mut a, &[0x8f, 0xff]).unwrap_err(),
        Error::BadEncoding
    );
    // an atom that would fit the input but not what is left of it
    let mut data = vec![0xff, 0x84, 1, 2, 3, 4, 0x86, 1, 2];
    assert_eq!(
        node_from_bytes(&mut a, &data).unwrap_err(),
        Error::UnexpectedEof
    );
    assert_eq!(
        serialized_length_from_bytes(&data).unwrap_err(),
        Error::BadEncoding
    );
    data.extend([3, 4, 5, 6]);
    assert!(node_from_bytes(&mut a, &data).is_ok());
    // a size prefix cut short
    assert_eq!(
        node_from_bytes(&mut a, &[0xc1]).unwrap_err(),
        Error::UnexpectedEof
    );
    // a size prefix of seven bytes
    assert_eq!(
        node_from_bytes(&mut a, &[0xfe, 0, 0, 0, 0, 0, 1, 7]).unwrap_err(),
        Error::BadEncoding
    );
    // a length of 0x4_0000_0000
    assert_eq!(
        serialized_length_from_bytes(&[0xfc, 0x04, 0, 0, 0, 0]).unwrap_err(),
        Error::BadEncoding
    );
}

#[test]
fn test_overlong_prefix_reads_like_the_short_one() {
    let mut a = Allocator::new();
    let n = node_from_bytes(&mut a, &[0xc0, 0x02, 0xaa, 0xbb]).unwrap();
    assert_eq!(a.atom(n), &[0xaa, 0xbb]);
    assert_eq!(serialize(&a, n), vec![0x82, 0xaa, 0xbb]);
    assert_eq!(
        serialized_length_from_bytes(&[0xc0, 0x02, 0xaa, 0xbb]).unwrap(),
        4
    );
    // the atom [1] behind a prefix is a new atom, not the arena's own
    let m = node_from_bytes(&mut a, &[0x81, 0x01]).unwrap();
    assert_ne!(m, a.one());
    assert_eq!(a.atom(m), &[0x01]);
}

#[test]
fn test_decoding_into_a_full_arena() {
    // room for the two atoms that every arena has and for one node more
    let mut a = Allocator::new_limited(100, 3, 100);
    assert_eq!(
        node_from_bytes(&mut a, &[0xff, 0x05, 0x06]).unwrap_err(),
        Error::Alloc(AllocError::AllocationLimitExceeded)
    );
    // the atoms 1 and the empty atom ask for no room
    let mut a = Allocator::new_limited(100, 3, 100);
    assert!(node_from_bytes(&mut a, &[0xff, 0x01, 0x80]).is_ok());
    // an atom longer than the arena takes
    let mut a = Allocator::new_limited(100, 100, 2);
    assert_eq!(
        node_from_bytes(&mut a, &[0x83, 1, 2, 3]).unwrap_err(),
        Error::Alloc(AllocError::SizeLimitExceeded)
    );
    // the byte budget: one byte is taken by the atom [1]
    let mut a = Allocator::new_limited(3, 100, 100);
    assert!(node_from_bytes(&mut a, &[0x82, 1, 2]).is_ok());
    assert_eq!(
        node_from_bytes(&mut a, &[0x07]).unwrap_err(),
        Error::Alloc(AllocError::SizeLimitExceeded)
    );
}

#[test]
fn test_parse_zz_table() {
    let data = [0xff, 0x80, 0x80];
    let mut f = Cursor::new(&data);
    let table = parse_zz(&mut f).unwrap();
    assert_eq!(
        table,
        vec![
            ParsedClvmObject::Pair {
                start: 1,
                end: 5,
                right_index: 2
            },
            ParsedClvmObject::Atom {
                start: 2,
                end: 3,
                atom_offset: 1
            },
            ParsedClvmObject::Atom {
                start: 4,
                end: 5,
                atom_offset: 1
            },
        ]
    );
    assert_eq!(f.position(), 3);
}

#[test]
fn test_parse_zz_nested_and_sized() {
    // ((0x83 a b c) . 0x80) . 0xc0 0x01 z
    let data = [0xff, 0xff, 0x83, 1, 2, 3, 0x80, 0xc0, 0x01, 9];
    let mut f = Cursor::new(&data);
    let table = parse_zz(&mut f).unwrap();
    assert_eq!(
        table,
        vec![
            ParsedClvmObject::Pair {
                start: 1,
                end: 13,
                right_index: 4
            },
            ParsedClvmObject::Pair {
                start: 2,
                end: 9,
                right_index: 3
            },
            ParsedClvmObject::Atom {
                start: 3,
                end: 7,
                atom_offset: 1
            },
            ParsedClvmObject::Atom {
                start: 8,
                end: 9,
                atom_offset: 1
            },
            ParsedClvmObject::Atom {
                start: 10,
                end: 13,
                atom_offset: 2
            },
        ]
    );
    assert_eq!(f.position(), 10);
}

#[test]
fn test_parse_zz_errors() {
    // a byte below 0x80 begins no size prefix
    let mut f = Cursor::new(&[0x01]);
    assert_eq!(parse_zz(&mut f).unwrap_err(), Error::Internal);
    // the atom's bytes are missing
    let mut f = Cursor::new(&[0x82, 0x01]);
    assert_eq!(parse_zz(&mut f).unwrap_err(), Error::UnexpectedEof);
    // the second element is missing
    let mut f = Cursor::new(&[0xff, 0x80]);
    assert_eq!(parse_zz(&mut f).unwrap_err(), Error::UnexpectedEof);
    let mut f = Cursor::new(&[0xfe, 0, 0, 0, 0, 0, 0]);
    assert_eq!(parse_zz(&mut f).unwrap_err(), Error::BadEncoding);
}
