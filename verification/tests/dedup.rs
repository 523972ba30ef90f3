use fqdedup::encoder::{base_index, byte_pack_3_ext, EncodeError};
use fqdedup::index::DedupIndex;
use fqdedup::naming::output_filename;
use fqdedup::pipeline::dedup;

fn lines(raw: &[&str]) -> Vec<String> {
    raw.iter().map(|s| s.to_string()).collect()
}

#[test]
fn base_index_recognizes_all_symbols() {
    assert_eq!(base_index(b'a'), Some(0));
    assert_eq!(base_index(b'A'), Some(0));
    assert_eq!(base_index(b'c'), Some(1));
    assert_eq!(base_index(b'C'), Some(1));
    assert_eq!(base_index(b'g'), Some(2));
    assert_eq!(base_index(b'G'), Some(2));
    assert_eq!(base_index(b't'), Some(3));
    assert_eq!(base_index(b'T'), Some(3));
    assert_eq!(base_index(b'n'), Some(4));
    assert_eq!(base_index(b'N'), Some(4));
}

#[test]
fn base_index_rejects_other_bytes() {
    assert_eq!(base_index(b'X'), None);
    assert_eq!(base_index(b'u'), None);
    assert_eq!(base_index(b' '), None);
    assert_eq!(base_index(0), None);
    assert_eq!(base_index(255), None);
}

#[test]
fn pack_acgt_exact_key() {
    let mut key: Vec<u8> = Vec::new();
    assert!(byte_pack_3_ext("ACGT", &mut key).is_ok());
    // "ACG" folds to (0*5+1)*5+2 = 7, "T" to 3, then the length byte 4.
    assert_eq!(key, vec![7, 3, 4]);
}

#[test]
fn pack_is_case_insensitive() {
    let mut upper: Vec<u8> = Vec::new();
    let mut lower: Vec<u8> = Vec::new();
    assert!(byte_pack_3_ext("ACGTN", &mut upper).is_ok());
    assert!(byte_pack_3_ext("acgtn", &mut lower).is_ok());
    assert_eq!(upper, lower);
}

#[test]
fn pack_same_string_twice_same_key() {
    let mut first: Vec<u8> = Vec::new();
    let mut second: Vec<u8> = Vec::new();
    assert!(byte_pack_3_ext("GATTACA", &mut first).is_ok());
    assert!(byte_pack_3_ext("GATTACA", &mut second).is_ok());
    assert_eq!(first, second);
}

#[test]
fn pack_reuses_buffer() {
    let mut key: Vec<u8> = Vec::new();
    assert!(byte_pack_3_ext("TTTTTT", &mut key).is_ok());
    assert!(byte_pack_3_ext("A", &mut key).is_ok());
    // The buffer is cleared before refilling: one group byte, length 1.
    assert_eq!(key, vec![0, 1]);
}

#[test]
fn pack_empty_sequence() {
    let mut key: Vec<u8> = Vec::new();
    assert!(byte_pack_3_ext("", &mut key).is_ok());
    assert_eq!(key, vec![0]);
}

#[test]
fn pack_single_n() {
    let mut key: Vec<u8> = Vec::new();
    assert!(byte_pack_3_ext("N", &mut key).is_ok());
    assert_eq!(key, vec![4, 1]);
}

#[test]
fn pack_truncates_length_byte() {
    let seq = "A".repeat(300);
    let mut key: Vec<u8> = Vec::new();
    assert!(byte_pack_3_ext(&seq, &mut key).is_ok());
    // 100 groups of "AAA", then the length 300 truncated to 300 - 256 = 44.
    assert_eq!(key.len(), 101);
    assert!(key[..100].iter().all(|&b| b == 0));
    assert_eq!(key[100], 44);
}

#[test]
fn pack_distinguishes_sequences() {
    let mut k1: Vec<u8> = Vec::new();
    let mut k2: Vec<u8> = Vec::new();
    assert!(byte_pack_3_ext("ACGT", &mut k1).is_ok());
    assert!(byte_pack_3_ext("ACGA", &mut k2).is_ok());
    assert_ne!(k1, k2);
}

#[test]
fn pack_names_first_bad_byte() {
    let mut key: Vec<u8> = Vec::new();
    assert_eq!(
        byte_pack_3_ext("ACXTZ", &mut key),
        Err(EncodeError { byte: b'X' })
    );
}

#[test]
fn index_remembers_inserted_keys() {
    let mut index = DedupIndex::new();
    let key_a: Vec<u8> = vec![7, 3, 4];
    let key_b: Vec<u8> = vec![7, 3, 5];
    assert!(!index.contains(&key_a));
    assert!(index.insert(&key_a));
    assert!(index.contains(&key_a));
    assert!(!index.contains(&key_b));
    // Inserting an existing key is a no-op and reports the key as seen.
    assert!(!index.insert(&key_a));
    assert!(index.contains(&key_a));
}

#[test]
fn index_separates_prefix_sharing_keys() {
    let mut index = DedupIndex::new();
    let long: Vec<u8> = vec![7, 7, 7, 9];
    let prefix: Vec<u8> = vec![7, 7, 7];
    assert!(index.insert(&long));
    assert!(index.contains(&long));
    assert!(!index.contains(&prefix));
    assert!(index.insert(&prefix));
    assert!(index.contains(&prefix));
    assert!(index.contains(&long));
}

#[test]
fn index_handles_empty_key() {
    let mut index = DedupIndex::new();
    let empty: Vec<u8> = Vec::new();
    let other: Vec<u8> = vec![0];
    assert!(!index.contains(&empty));
    assert!(index.insert(&empty));
    assert!(index.contains(&empty));
    assert!(!index.insert(&empty));
    assert!(!index.contains(&other));
}

#[test]
fn two_identical_records_keep_first() {
    let input = lines(&[
        "@r1", "ACGT", "+", "IIII", //
        "@r2", "ACGT", "+", "IIII",
    ]);
    let out = dedup(input).unwrap();
    assert_eq!(out.total, 2);
    assert_eq!(out.accepted, 1);
    assert_eq!(out.lines, lines(&["@r1", "ACGT", "+", "IIII"]));
}

#[test]
fn three_records_drop_late_repeat() {
    let input = lines(&[
        "@r1", "ACGT", "+", "IIII", //
        "@r2", "AAAA", "+", "JJJJ", //
        "@r3", "ACGT", "+", "KKKK",
    ]);
    let out = dedup(input).unwrap();
    assert_eq!(out.total, 3);
    assert_eq!(out.accepted, 2);
    assert_eq!(
        out.lines,
        lines(&["@r1", "ACGT", "+", "IIII", "@r2", "AAAA", "+", "JJJJ"])
    );
}

#[test]
fn trailing_partial_record_is_dropped() {
    let input = lines(&[
        "@r1", "ACGT", "+", "IIII", //
        "@r2", "TTTT",
    ]);
    let out = dedup(input).unwrap();
    assert_eq!(out.total, 1);
    assert_eq!(out.accepted, 1);
    assert_eq!(out.lines, lines(&["@r1", "ACGT", "+", "IIII"]));
}

#[test]
fn empty_input_yields_empty_output() {
    let out = dedup(Vec::new()).unwrap();
    assert_eq!(out.total, 0);
    assert_eq!(out.accepted, 0);
    assert!(out.lines.is_empty());
}

#[test]
fn invalid_symbol_is_fatal() {
    let input = lines(&[
        "@r1", "ACGT", "+", "IIII", //
        "@r2", "ACQT", "+", "JJJJ",
    ]);
    match dedup(input) {
        Err(e) => assert_eq!(e, EncodeError { byte: b'Q' }),
        Ok(_) => panic!("an unrecognized symbol must be fatal"),
    }
}

#[test]
fn case_variants_collide() {
    let input = lines(&[
        "@r1", "ACGT", "+", "IIII", //
        "@r2", "acgt", "+", "JJJJ",
    ]);
    let out = dedup(input).unwrap();
    assert_eq!(out.total, 2);
    assert_eq!(out.accepted, 1);
    assert_eq!(out.lines, lines(&["@r1", "ACGT", "+", "IIII"]));
}

#[test]
fn rerun_on_own_output_changes_nothing() {
    let input = lines(&[
        "@r1", "ACGT", "+", "IIII", //
        "@r2", "AAAA", "+", "JJJJ", //
        "@r3", "ACGT", "+", "KKKK", //
        "@r4", "NNNN", "+", "LLLL",
    ]);
    let first = dedup(input).unwrap();
    let second = dedup(first.lines.clone()).unwrap();
    assert_eq!(second.lines, first.lines);
    assert_eq!(second.total, first.accepted);
    assert_eq!(second.accepted, first.accepted);
}

#[test]
fn accepted_counts_distinct_sequences() {
    let input = lines(&[
        "@a", "ACGT", "+", "1111", //
        "@b", "ACGT", "+", "2222", //
        "@c", "TTTT", "+", "3333", //
        "@d", "GGGG", "+", "4444", //
        "@e", "TTTT", "+", "5555",
    ]);
    let out = dedup(input).unwrap();
    assert_eq!(out.total, 5);
    // Distinct sequences: ACGT, TTTT, GGGG.
    assert_eq!(out.accepted, 3);
    assert!(out.accepted <= out.total);
}

#[test]
fn output_filename_explicit_name_wins() {
    assert_eq!(
        output_filename("reads.fastq", Some("chosen.fq".to_string())),
        "chosen.fq"
    );
}

#[test]
fn output_filename_replaces_extension() {
    assert_eq!(
        output_filename("reads.fastq", None),
        "reads_deduplicated.fastq"
    );
}

#[test]
fn output_filename_cuts_at_last_dot() {
    assert_eq!(
        output_filename("a.b.fastq", None),
        "a.b_deduplicated.fastq"
    );
}

#[test]
fn output_filename_without_extension_appends() {
    assert_eq!(output_filename("reads", None), "reads_deduplicated.fastq");
}
