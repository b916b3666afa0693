use wasm_memory::marshal::{
    byte_message, header_message, hello_payload, le32_bytes, length_error_message, number_bits,
    NumberRead,
};
use wasm_memory::memory::{
    allocate, allocate_word_aligned, deallocate, load_bytes, read_bytes_from_memory, read_number_from_memory,
    set_hello_on_memory, store_bytes, Buffer, LinearMemory,
};

fn overlap(a: &Buffer, b: &Buffer) -> bool {
    a.base < b.base + b.len && b.base < a.base + a.len
}

#[test]
fn allocation_round_trip() {
    let mut mem = LinearMemory::new(64);
    let a = allocate(&mut mem, 10).unwrap();
    let data: Vec<u8> = (1..=10).collect();
    store_bytes(&mut mem, a, &data);
    assert_eq!(load_bytes(&mem, a, 10), data);
    deallocate(&mut mem, a, 10);
    assert!(mem.live_buffers().is_empty());
}

#[test]
fn release_keeps_other_buffers() {
    let mut mem = LinearMemory::new(64);
    let a = allocate(&mut mem, 8).unwrap();
    let b = allocate(&mut mem, 8).unwrap();
    store_bytes(&mut mem, b, &vec![9u8; 8]);
    deallocate(&mut mem, a, 8);
    let live = mem.live_buffers();
    assert_eq!(live.len(), 1);
    assert!(live[0].base == b && live[0].len == 8);
    assert_eq!(load_bytes(&mem, b, 8), vec![9u8; 8]);
}

#[test]
fn zero_size_allocation() {
    let mut mem = LinearMemory::new(4);
    let a = allocate(&mut mem, 0);
    assert_eq!(a, Some(1));
    assert_eq!(load_bytes(&mem, a.unwrap(), 0), Vec::<u8>::new());
    deallocate(&mut mem, 1, 0);
    assert!(mem.live_buffers().is_empty());
    let mut empty = LinearMemory::new(0);
    assert_eq!(allocate(&mut empty, 0), None);
}

#[test]
fn null_address_never_handed_out() {
    let mut exact = LinearMemory::new(10);
    assert_eq!(allocate(&mut exact, 10), None);
    let mut room = LinearMemory::new(11);
    assert_eq!(allocate(&mut room, 10), Some(1));
}

#[test]
fn word_aligned_allocation() {
    let mut mem = LinearMemory::new(20);
    assert_eq!(allocate(&mut mem, 5), Some(1));
    assert_eq!(allocate_word_aligned(&mut mem, 8), Some(8));
    assert_eq!(allocate_word_aligned(&mut mem, 8), None);
    assert_eq!(allocate_word_aligned(&mut mem, 4), Some(16));
    let mut tiny = LinearMemory::new(6);
    assert_eq!(allocate_word_aligned(&mut tiny, 2), Some(4));
    assert_eq!(allocate_word_aligned(&mut tiny, 1), None);
}

#[test]
fn live_buffers_never_overlap() {
    let mut mem = LinearMemory::new(100);
    let sizes = [5usize, 17, 1, 30, 12];
    for s in sizes {
        assert!(allocate(&mut mem, s).is_some());
    }
    let live = mem.live_buffers();
    assert_eq!(live.len(), sizes.len());
    for i in 0..live.len() {
        for j in 0..live.len() {
            if i != j {
                assert!(!overlap(&live[i], &live[j]));
            }
        }
    }
}

#[test]
fn released_range_is_reused() {
    let mut mem = LinearMemory::new(33);
    let a = allocate(&mut mem, 16).unwrap();
    let b = allocate(&mut mem, 16).unwrap();
    assert_eq!(allocate(&mut mem, 1), None);
    deallocate(&mut mem, a, 16);
    let c = allocate(&mut mem, 16).unwrap();
    assert_eq!(c, a);
    assert_ne!(c, b);
}

#[test]
fn exhausted_memory_gives_none() {
    let mut mem = LinearMemory::new(8);
    assert_eq!(allocate(&mut mem, 9), None);
    assert!(mem.live_buffers().is_empty());
    assert_eq!(allocate(&mut mem, 8), None);
    assert_eq!(allocate(&mut mem, 7), Some(1));
}

#[test]
fn number_decodes_its_bit_pattern() {
    let mut mem = LinearMemory::new(32);
    let a = allocate(&mut mem, 8).unwrap();
    store_bytes(&mut mem, a, &1.5f64.to_le_bytes().to_vec());
    match read_number_from_memory(&mem, a, 8) {
        NumberRead::Bits(bits) => assert_eq!(f64::from_bits(bits), 1.5),
        NumberRead::WrongLength(_) => panic!("eight bytes were given"),
    }
}

#[test]
fn number_bits_are_little_endian() {
    assert_eq!(number_bits(&vec![1, 0, 0, 0, 0, 0, 0, 0]), 1);
    assert_eq!(number_bits(&vec![0, 0, 0, 0, 0, 0, 0, 0x80]), 1u64 << 63);
    let nan = f64::NAN.to_le_bytes().to_vec();
    assert!(f64::from_bits(number_bits(&nan)).is_nan());
    let b = vec![0x12, 0x34, 0x56, 0x78, 0x9a, 0xbc, 0xde, 0xf0];
    assert_eq!(number_bits(&b), 0xf0de_bc9a_7856_3412);
}

#[test]
fn wrong_length_reports_it() {
    let mem = LinearMemory::new(16);
    for len in [0usize, 4, 7, 9, 1234] {
        match read_number_from_memory(&mem, 0, len) {
            NumberRead::Bits(_) => panic!("the length was not eight"),
            NumberRead::WrongLength(m) => {
                let expected = format!("[wasm] Error: Expected 8 bytes for f64, got {}", len);
                assert_eq!(m, expected.into_bytes());
            }
        }
    }
    assert_eq!(
        length_error_message(usize::MAX),
        format!("[wasm] Error: Expected 8 bytes for f64, got {}", usize::MAX).into_bytes()
    );
}

fn word(bytes: &[u8]) -> usize {
    u32::from_le_bytes([bytes[0], bytes[1], bytes[2], bytes[3]]) as usize
}

#[test]
fn greeting_export_shape() {
    let greeting = b"Hello from Wasm! \xF0\x9F\x92\x9C".to_vec();
    assert_eq!(hello_payload(), greeting);
    let mut mem = LinearMemory::new(128);
    let mut seen = Vec::new();
    for _ in 0..2 {
        let d = set_hello_on_memory(&mut mem).unwrap();
        assert!(d != 0 && d % 4 == 0);
        let desc = load_bytes(&mem, d, 8);
        let a = word(&desc[0..4]);
        let n = word(&desc[4..8]);
        assert_eq!(n, greeting.len());
        assert_eq!(load_bytes(&mem, a, n), greeting);
        let live = mem.live_buffers();
        assert!(live.iter().any(|b| b.base == a && b.len == n));
        assert!(live.iter().any(|b| b.base == d && b.len == 8));
        seen.push((a, d));
    }
    assert_eq!(mem.live_buffers().len(), 4);
    assert_eq!(mem.size(), 128);
    let live = mem.live_buffers();
    for i in 0..live.len() {
        for j in 0..live.len() {
            if i != j {
                assert!(!overlap(&live[i], &live[j]));
            }
        }
    }
    assert_ne!(seen[0].0, seen[1].0);
}

#[test]
fn greeting_export_without_room() {
    let mut mem = LinearMemory::new(24);
    assert_eq!(set_hello_on_memory(&mut mem), None);
    let mut small = LinearMemory::new(10);
    assert_eq!(set_hello_on_memory(&mut small), None);
}

#[test]
fn byte_dump_lines_in_order() {
    let mut mem = LinearMemory::new(32);
    store_bytes(&mut mem, 16, &vec![1, 200, 7]);
    let lines = read_bytes_from_memory(&mem, 16, 3);
    let expected: Vec<Vec<u8>> = ["[wasm] reading from 0x10", "[wasm] 1", "[wasm] 200", "[wasm] 7"]
        .iter()
        .map(|s| s.as_bytes().to_vec())
        .collect();
    assert_eq!(lines, expected);
    assert_eq!(read_bytes_from_memory(&mem, 0, 0).len(), 1);
}

#[test]
fn message_formats() {
    assert_eq!(header_message(0), b"[wasm] reading from 0x0".to_vec());
    assert_eq!(header_message(0xdead_beef), b"[wasm] reading from 0xdeadbeef".to_vec());
    assert_eq!(byte_message(0), b"[wasm] 0".to_vec());
    assert_eq!(byte_message(255), b"[wasm] 255".to_vec());
    assert_eq!(le32_bytes(0x1234_5678), vec![0x78, 0x56, 0x34, 0x12]);
}

#[test]
fn released_record_is_gone() {
    let mut mem = LinearMemory::new(16);
    let a = allocate(&mut mem, 4).unwrap();
    let b = allocate(&mut mem, 4).unwrap();
    deallocate(&mut mem, a, 4);
    assert!(!mem.live_buffers().iter().any(|x| x.base == a && x.len == 4));
    assert_eq!(allocate(&mut mem, 4), Some(a));
    assert_ne!(a, b);
}
