use khmer_segmenter::kdict::KDict;
use khmer_segmenter::khmer_segmenter::{KhmerSegmenter, SegmenterConfig};
use khmer_segmenter::utils::djb2_hash;
use rayon::iter::{IntoParallelRefIterator, ParallelIterator};

fn put_u32(out: &mut Vec<u8>, v: u32) {
    out.extend_from_slice(&v.to_le_bytes());
}

fn dictionary() -> KDict {
    let words: [(&str, f32); 6] = [
        ("ក", 6.0),
        ("កខ", 4.0),
        ("ខ", 6.0),
        ("ភាសា", 2.0),
        ("ខ្មែរ", 2.0),
        ("សួស្តី", 1.5),
    ];
    let table_size = 16u32;
    let mask = table_size - 1;
    let mut slots: Vec<(u32, f32)> = vec![(0, 0.0); table_size as usize];
    let mut pool: Vec<u8> = vec![0];
    let mut max_len = 0usize;
    for (word, cost) in words {
        let offset = pool.len() as u32;
        pool.extend_from_slice(word.as_bytes());
        pool.push(0);
        max_len = max_len.max(word.len());
        let mut idx = djb2_hash(word.as_bytes()) & mask;
        while slots[idx as usize].0 != 0 {
            idx = (idx + 1) & mask;
        }
        slots[idx as usize] = (offset, cost);
    }
    let mut out: Vec<u8> = Vec::new();
    out.extend_from_slice(b"KDIC");
    put_u32(&mut out, 1);
    put_u32(&mut out, words.len() as u32);
    put_u32(&mut out, table_size);
    put_u32(&mut out, 10.0f32.to_bits());
    put_u32(&mut out, 20.0f32.to_bits());
    put_u32(&mut out, max_len as u32);
    put_u32(&mut out, 0);
    for (offset, cost) in slots {
        put_u32(&mut out, offset);
        put_u32(&mut out, cost.to_bits());
    }
    out.extend_from_slice(&pool);
    KDict::from_bytes(out).unwrap()
}

#[test]
fn many_threads_give_what_one_thread_gives() {
    let seg = KhmerSegmenter::new_with_dict(Some(dictionary()), SegmenterConfig::default());
    let pieces = ["សួស្តី", "ភាសា", "ខ្មែរ", "កខ", " ", "123", "abc", "ស.ភ.", "\u{17B6}", "1,000"];
    let mut lines: Vec<String> = Vec::new();
    for i in 0..400usize {
        let mut line = String::new();
        let mut k = i;
        for _ in 0..6 {
            line.push_str(pieces[k % pieces.len()]);
            k = k / 3 + 7 * i + 1;
        }
        lines.push(line);
    }
    let one: Vec<String> = lines.iter().map(|l| seg.segment(l, Some(" | "))).collect();
    let many: Vec<String> = lines.par_iter().map(|l| seg.segment(l, Some(" | "))).collect();
    assert_eq!(one, many);
    let again: Vec<String> = lines.par_iter().map(|l| seg.segment(l, Some(" | "))).collect();
    assert_eq!(one, again);
    assert_eq!(lines[0], "សួស្តីភាសាភាសាភាសាភាសាភាសា");
    assert_eq!(one[0], "សួស្តី | ភាសា | ភាសា | ភាសា | ភាសា | ភាសា");
}
