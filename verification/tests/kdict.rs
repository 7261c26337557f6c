use khmer_segmenter::kdict::{DataSource, KDict, KDictError};
use khmer_segmenter::utils::djb2_hash;
use memmap2::MmapMut;

fn put_u32(out: &mut Vec<u8>, v: u32) {
    out.extend_from_slice(&v.to_le_bytes());
}

fn header(table_size: u32, num_entries: u32, max_len: u32) -> Vec<u8> {
    let mut out: Vec<u8> = Vec::new();
    out.extend_from_slice(b"KDIC");
    put_u32(&mut out, 7);
    put_u32(&mut out, num_entries);
    put_u32(&mut out, table_size);
    put_u32(&mut out, 10.0f32.to_bits());
    put_u32(&mut out, 20.0f32.to_bits());
    put_u32(&mut out, max_len);
    put_u32(&mut out, 0xABCD);
    out
}

/// A dictionary file with the given words, put into their slots by linear
/// probing.
fn build(words: &[(&str, f32)], table_size: u32) -> Vec<u8> {
    let mask = table_size - 1;
    let mut slots: Vec<(u32, f32)> = vec![(0, 0.0); table_size as usize];
    let mut pool: Vec<u8> = vec![0];
    let mut max_len = 0usize;
    for (word, cost) in words {
        let offset = pool.len() as u32;
        pool.extend_from_slice(word.as_bytes());
        pool.push(0);
        max_len = max_len.max(word.len());
        let mut idx = djb2_hash(word.as_bytes()) & mask;
        while slots[idx as usize].0 != 0 {
            idx = (idx + 1) & mask;
        }
        slots[idx as usize] = (offset, *cost);
    }
    let mut out = header(table_size, words.len() as u32, max_len as u32);
    for (offset, cost) in slots {
        put_u32(&mut out, offset);
        put_u32(&mut out, cost.to_bits());
    }
    out.extend_from_slice(&pool);
    out
}

fn error_of(bytes: Vec<u8>) -> KDictError {
    match KDict::from_bytes(bytes) {
        Ok(_) => panic!("accepted"),
        Err(e) => e,
    }
}

#[test]
fn short_bytes_are_too_small() {
    assert_eq!(error_of(Vec::new()), KDictError::FileTooSmall);
    assert_eq!(error_of(b"KDIC".to_vec()), KDictError::FileTooSmall);
    let mut almost = header(0, 0, 0);
    almost.pop();
    assert_eq!(error_of(almost), KDictError::FileTooSmall);
    // size is checked before the magic number
    assert_eq!(error_of(b"XXXX".to_vec()), KDictError::FileTooSmall);
}

#[test]
fn wrong_magic_is_refused() {
    let mut bytes = header(0, 0, 0);
    bytes[3] = b'T';
    assert_eq!(error_of(bytes), KDictError::InvalidMagic);
    let mut lower = header(0, 0, 0);
    lower[0] = b'k';
    assert_eq!(error_of(lower), KDictError::InvalidMagic);
}

#[test]
fn table_that_does_not_fit_is_truncated() {
    assert_eq!(error_of(header(1, 0, 0)), KDictError::Truncated);
    let mut bytes = header(2, 0, 0);
    bytes.extend_from_slice(&[0u8; 15]);
    assert_eq!(error_of(bytes), KDictError::Truncated);
    assert_eq!(error_of(header(0xFFFF_FFFF, 0, 0)), KDictError::Truncated);
    // magic is checked before the table
    let mut both = header(1, 0, 0);
    both[1] = 0;
    assert_eq!(error_of(both), KDictError::InvalidMagic);
}

#[test]
fn table_that_just_fits_is_accepted() {
    let mut bytes = header(2, 0, 0);
    bytes.extend_from_slice(&[0u8; 16]);
    let d = KDict::from_bytes(bytes).unwrap();
    assert_eq!(d.header().table_size, 2);
    assert_eq!(d.table_mask(), 1);
    assert_eq!(d.lookup(b"x"), None);
    assert_eq!(d.get_pool_ptr(0).len(), 0);
}

#[test]
fn header_fields_are_little_endian_words() {
    let d = KDict::from_bytes(build(&[("ក", 2.5)], 4)).unwrap();
    let h = d.header();
    assert_eq!(&h.magic, b"KDIC");
    assert_eq!(h.version, 7);
    assert_eq!(h.num_entries, 1);
    assert_eq!(h.table_size, 4);
    assert_eq!(f32::from_bits(h.default_cost), 10.0);
    assert_eq!(f32::from_bits(h.unknown_cost), 20.0);
    assert_eq!(h.max_word_length, 3);
    assert_eq!(h.padding, 0xABCD);
    assert_eq!(d.table_mask(), 3);
    assert_eq!(d.as_bytes().len(), 32 + 4 * 8 + 1 + 4);
}

#[test]
fn empty_table_finds_nothing() {
    let d = KDict::from_bytes(header(0, 0, 0)).unwrap();
    assert_eq!(d.lookup(b""), None);
    assert_eq!(d.lookup("ក".as_bytes()), None);
    assert_eq!(d.get_pool_bytes(0), b"");
}

#[test]
fn lookup_finds_words_and_their_costs() {
    let words = [("ក", 6.0f32), ("កខ", 4.0), ("ខ", 6.5), ("hello", 1.25)];
    let d = KDict::from_bytes(build(&words, 8)).unwrap();
    for (word, cost) in words {
        assert_eq!(d.lookup(word.as_bytes()), Some(cost.to_bits()));
    }
    assert_eq!(d.lookup("គ".as_bytes()), None);
    assert_eq!(d.lookup(b"hell"), None);
    assert_eq!(d.lookup(b"hello!"), None);
    assert_eq!(d.lookup(b""), None);
}

#[test]
fn lookup_with_given_hash_looks_at_the_range() {
    let d = KDict::from_bytes(build(&[("ខ", 6.5)], 8)).unwrap();
    let text = "កខគ".as_bytes();
    assert_eq!(d.lookup_hashed(text, 3, 6, djb2_hash(&text[3..6])), Some(6.5f32.to_bits()));
    assert_eq!(d.lookup_hashed(text, 0, 3, djb2_hash(&text[0..3])), None);
}

#[test]
fn colliding_words_are_told_apart() {
    let d = KDict::from_bytes(build(&[("ក", 6.0), ("កខ", 4.0), ("ខក", 3.0)], 8)).unwrap();
    let mask = d.table_mask();
    let slot = djb2_hash("ក".as_bytes()) & mask;
    assert_eq!(djb2_hash("កខ".as_bytes()) & mask, slot);
    assert_eq!(djb2_hash("ខក".as_bytes()) & mask, slot);
    assert_eq!(d.lookup("ក".as_bytes()), Some(6.0f32.to_bits()));
    assert_eq!(d.lookup("កខ".as_bytes()), Some(4.0f32.to_bits()));
    assert_eq!(d.lookup("ខក".as_bytes()), Some(3.0f32.to_bits()));
    // the three stand in consecutive slots
    assert_ne!(d.get_entry(slot).name_offset, 0);
    assert_ne!(d.get_entry((slot + 1) & mask).name_offset, 0);
    assert_ne!(d.get_entry((slot + 2) & mask).name_offset, 0);
    assert_eq!(d.get_entry((slot + 3) & mask).name_offset, 0);
}

#[test]
fn probing_stops_at_an_empty_slot() {
    // "ម" hashes to the slot of "ក"; with "ក" gone from the table, the
    // empty slot ends the search before "ម" is seen
    let mut bytes = build(&[("ក", 6.0), ("ម", 2.0)], 8);
    let d = KDict::from_bytes(bytes.clone()).unwrap();
    let slot = (djb2_hash("ក".as_bytes()) & 7) as usize;
    assert_eq!(djb2_hash("ម".as_bytes()) & 7, slot as u32);
    assert_eq!(d.lookup("ម".as_bytes()), Some(2.0f32.to_bits()));
    for k in 0..4 {
        bytes[32 + slot * 8 + k] = 0;
    }
    let holed = KDict::from_bytes(bytes).unwrap();
    assert_eq!(holed.lookup("ម".as_bytes()), None);
    assert_eq!(holed.lookup("ក".as_bytes()), None);
}

#[test]
fn full_table_ends_the_search_for_a_missing_word() {
    let d = KDict::from_bytes(build(&[("a", 1.0), ("b", 2.0)], 2)).unwrap();
    assert_eq!(d.lookup(b"a"), Some(1.0f32.to_bits()));
    assert_eq!(d.lookup(b"b"), Some(2.0f32.to_bits()));
    assert_eq!(d.lookup(b"c"), None);
    assert_eq!(d.lookup(b"zz"), None);
}

#[test]
fn slot_that_points_behind_the_pool_matches_nothing() {
    let mut bytes = build(&[("a", 1.0)], 2);
    let slot = (djb2_hash(b"a") & 1) as usize;
    bytes[32 + slot * 8..32 + slot * 8 + 4].copy_from_slice(&1000u32.to_le_bytes());
    let d = KDict::from_bytes(bytes).unwrap();
    assert_eq!(d.lookup(b"a"), None);
    assert_eq!(d.get_pool_bytes(1000), b"");
    assert_eq!(d.get_pool_ptr(1000), b"");
}

#[test]
fn word_needs_its_nul() {
    // the last word of the pool without its NUL is not found
    let mut bytes = build(&[("ab", 1.0)], 2);
    assert_eq!(bytes.pop(), Some(0));
    let d = KDict::from_bytes(bytes).unwrap();
    assert_eq!(d.lookup(b"ab"), None);
    assert_eq!(d.lookup(b"a"), None);
    assert_eq!(d.get_pool_bytes(1), b"ab");
}

#[test]
fn pool_bytes_are_the_word_up_to_its_nul() {
    let d = KDict::from_bytes(build(&[("ក", 6.0), ("hello", 4.0)], 4)).unwrap();
    assert_eq!(d.get_pool_bytes(0), b"");
    assert_eq!(d.get_pool_bytes(1), "ក".as_bytes());
    assert_eq!(d.get_pool_bytes(5), b"hello");
    assert_eq!(d.get_pool_bytes(7), b"llo");
    assert_eq!(d.get_pool_bytes(10), b"");
    assert_eq!(d.get_pool_bytes(11), b"");
    assert_eq!(d.get_pool_ptr(5), b"hello\0");
    assert_eq!(d.get_pool_ptr(0).len(), 11);
    assert_eq!(d.get_pool_ptr(11), b"");
    assert_eq!(d.get_pool_ptr(12), b"");
}

#[test]
fn entries_hold_offset_and_cost() {
    let d = KDict::from_bytes(build(&[("a", 1.5)], 4)).unwrap();
    let slot = djb2_hash(b"a") & 3;
    let e = d.get_entry(slot);
    assert_eq!(e.name_offset, 1);
    assert_eq!(f32::from_bits(e.cost), 1.5);
    let empty = d.get_entry((slot + 1) & 3);
    assert_eq!(empty.name_offset, 0);
}

#[test]
fn owned_source_hands_out_its_bytes() {
    let bytes = build(&[("a", 1.5)], 4);
    let source = DataSource::Owned(bytes.clone());
    assert_eq!(source.len(), bytes.len());
    assert_eq!(source.as_slice(), &bytes[..]);
}

#[test]
fn memory_map_is_a_source_of_a_dictionary() {
    let bytes = build(&[("ក", 6.0), ("កខ", 4.0)], 8);
    let mut map = MmapMut::map_anon(bytes.len()).unwrap();
    map.copy_from_slice(&bytes);
    let map = map.make_read_only().unwrap();
    let source = DataSource::Mmap(map);
    assert_eq!(source.len(), bytes.len());
    assert_eq!(source.as_slice(), &bytes[..]);
    let d = KDict::from_source(source).unwrap();
    assert_eq!(d.header().table_size, 8);
    assert_eq!(d.as_bytes(), &bytes[..]);
    assert_eq!(d.lookup("កខ".as_bytes()), Some(4.0f32.to_bits()));
    assert_eq!(d.lookup("ខ".as_bytes()), None);
}

#[test]
fn memory_map_that_is_no_dictionary_is_refused() {
    let mut map = MmapMut::map_anon(64).unwrap();
    map[0..4].copy_from_slice(b"KDIX");
    let map = map.make_read_only().unwrap();
    assert!(matches!(
        KDict::from_source(DataSource::Mmap(map)),
        Err(KDictError::InvalidMagic)
    ));
}

#[test]
fn errors_describe_themselves() {
    assert_eq!(KDictError::FileTooSmall.message(), "File too small");
    assert_eq!(KDictError::InvalidMagic.message(), "Invalid magic");
    assert_eq!(KDictError::Truncated.message(), "File truncated");
    assert_eq!(KDictError::IoError.message(), "I/O error");
}
