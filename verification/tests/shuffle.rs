use corpus_shuffle::coarse::{draw_cell_index, CoarseShuffler};
use corpus_shuffle::codec::{decode_records, encode_records};
use corpus_shuffle::fine::{chunk_records, fine_shuffle_cell, ShardCounter};
use corpus_shuffle::naming::shard_file_name;
use corpus_shuffle::pipeline::{coarse_phase, run_shuffle, ShuffleError};

/// `n` distinct records tagged with `tag`.
fn make_records(n: usize, tag: u8) -> Vec<Vec<u8>> {
    let mut out: Vec<Vec<u8>> = Vec::new();
    let mut i: usize = 0;
    while i < n {
        out.push(vec![tag, b'-', (i / 10) as u8 + b'0', (i % 10) as u8 + b'0']);
        i += 1;
    }
    out
}

fn sorted(mut records: Vec<Vec<u8>>) -> Vec<Vec<u8>> {
    records.sort();
    records
}

fn ceil_div(len: usize, cap: usize) -> usize {
    (len + cap - 1) / cap
}

#[test]
fn scenario_three_documents() {
    // 3 documents with 10, 7 and 5 records: 22 records in all, 4 cells,
    // at most 6 records per shard.
    let docs = vec![make_records(10, b'a'), make_records(7, b'b'), make_records(5, b'c')];
    let mut input: Vec<Vec<u8>> = Vec::new();
    for d in &docs {
        for r in d {
            input.push(r.clone());
        }
    }
    let report = run_shuffle(docs, 4, 6).unwrap();

    assert_eq!(report.cell_sizes.len(), 4);
    let total: usize = report.cell_sizes.iter().sum();
    assert_eq!(total, 22);

    let expected_shards: usize = report.cell_sizes.iter().map(|s| ceil_div(*s, 6)).sum();
    assert_eq!(report.shards.len(), expected_shards);

    let mut output: Vec<Vec<u8>> = Vec::new();
    for (i, shard) in report.shards.iter().enumerate() {
        assert_eq!(shard.seq_num, i);
        assert!(shard.records.len() <= 6);
        for r in &shard.records {
            output.push(r.clone());
        }
    }
    assert_eq!(output.len(), 22);
    assert_eq!(sorted(input), sorted(output));
}

#[test]
fn surplus_cells_yield_no_shards() {
    // More cells than records: the surplus cells are empty and yield
    // nothing; this is not an error.
    let docs = vec![make_records(22, b'a')];
    let report = run_shuffle(docs, 50, 6).unwrap();
    assert_eq!(report.cell_sizes.len(), 50);
    let total: usize = report.cell_sizes.iter().sum();
    assert_eq!(total, 22);
    assert!(report.cell_sizes.iter().any(|s| *s == 0));
    let expected_shards: usize = report.cell_sizes.iter().map(|s| ceil_div(*s, 6)).sum();
    assert_eq!(report.shards.len(), expected_shards);
    let output_total: usize = report.shards.iter().map(|s| s.records.len()).sum();
    assert_eq!(output_total, 22);
}

#[test]
fn empty_cell_yields_no_chunks() {
    let chunks = chunk_records(Vec::new(), 5);
    assert!(chunks.is_empty());
}

#[test]
fn small_cell_yields_single_shard() {
    // A shard capacity above the cell size gives exactly one shard.
    let chunks = chunk_records(make_records(3, b'x'), 10);
    assert_eq!(chunks.len(), 1);
    assert_eq!(chunks[0].len(), 3);

    let mut counter = ShardCounter::new();
    let shards = fine_shuffle_cell(make_records(4, b'y'), 100, &mut counter);
    assert_eq!(shards.len(), 1);
    assert_eq!(shards[0].records.len(), 4);
}

#[test]
fn chunking_is_exact() {
    let recs = make_records(10, b'z');
    let chunks = chunk_records(recs.clone(), 4);
    assert_eq!(chunks.len(), 3);
    assert_eq!(chunks[0].len(), 4);
    assert_eq!(chunks[1].len(), 4);
    assert_eq!(chunks[2].len(), 2);
    let mut flat: Vec<Vec<u8>> = Vec::new();
    for c in &chunks {
        for r in c {
            flat.push(r.clone());
        }
    }
    assert_eq!(flat, recs);
}

#[test]
fn order_scrambling() {
    // Two independent runs over the same 100 distinct records produce
    // different orderings with overwhelming probability.
    let cell = make_records(100, b's');
    let mut c1 = ShardCounter::new();
    let first = fine_shuffle_cell(cell.clone(), 1000, &mut c1);
    let mut c2 = ShardCounter::new();
    let second = fine_shuffle_cell(cell.clone(), 1000, &mut c2);
    assert_eq!(first.len(), 1);
    assert_eq!(second.len(), 1);
    assert_eq!(sorted(first[0].records.clone()), sorted(cell.clone()));
    assert_eq!(sorted(second[0].records.clone()), sorted(cell));
    assert_ne!(first[0].records, second[0].records);
}

#[test]
fn counter_hands_out_dense_numbers() {
    let mut counter = ShardCounter::new();
    assert_eq!(counter.allocate(), 0);
    assert_eq!(counter.allocate(), 1);
    assert_eq!(counter.allocate(), 2);
    // A cell of 9 records at 4 per shard advances the counter by 3.
    let shards = fine_shuffle_cell(make_records(9, b'c'), 4, &mut counter);
    assert_eq!(shards.len(), 3);
    assert_eq!(shards[0].seq_num, 3);
    assert_eq!(shards[1].seq_num, 4);
    assert_eq!(shards[2].seq_num, 5);
    assert_eq!(counter.allocate(), 6);
}

#[test]
fn coarse_phase_partitions_records() {
    let docs = vec![make_records(10, b'a'), make_records(7, b'b'), make_records(5, b'c')];
    let mut input: Vec<Vec<u8>> = Vec::new();
    for d in &docs {
        for r in d {
            input.push(r.clone());
        }
    }
    let cells = coarse_phase(docs, 4);
    assert_eq!(cells.len(), 4);
    let mut scattered: Vec<Vec<u8>> = Vec::new();
    for c in &cells {
        for r in c {
            scattered.push(r.clone());
        }
    }
    assert_eq!(scattered.len(), 22);
    assert_eq!(sorted(input), sorted(scattered));
}

#[test]
fn shuffler_appends_whole_documents() {
    let mut shuffler = CoarseShuffler::new(3);
    assert_eq!(shuffler.cell_count(), 3);
    shuffler.process_document(make_records(8, b'd'));
    let cells = shuffler.finalize();
    assert_eq!(cells.len(), 3);
    let total: usize = cells.iter().map(|c| c.len()).sum();
    assert_eq!(total, 8);
}

#[test]
fn drawn_indexes_stay_in_range() {
    for k in 1..8usize {
        for _ in 0..50 {
            assert!(draw_cell_index(k) < k);
        }
    }
}

#[test]
fn no_documents_yield_no_shards() {
    let report = run_shuffle(Vec::new(), 4, 6).unwrap();
    assert_eq!(report.cell_sizes, vec![0, 0, 0, 0]);
    assert!(report.shards.is_empty());
}

#[test]
fn arbitrary_bytes_survive_the_codec() {
    let recs = vec![vec![0u8, 255u8, 1u8], vec![128u8], vec![7u8, 7u8]];
    assert_eq!(decode_records(&encode_records(&recs)), recs);
}

#[test]
fn zero_cells_is_a_config_error() {
    let r = run_shuffle(vec![make_records(3, b'a')], 0, 5);
    assert_eq!(r.unwrap_err(), ShuffleError::ConfigError);
}

#[test]
fn zero_capacity_is_a_config_error() {
    let r = run_shuffle(vec![make_records(3, b'a')], 5, 0);
    assert_eq!(r.unwrap_err(), ShuffleError::ConfigError);
}

#[test]
fn encoding_terminates_every_record() {
    let recs = vec![b"ab".to_vec(), b"c".to_vec()];
    let bytes = encode_records(&recs);
    assert_eq!(bytes, b"ab\nc\n".to_vec());
    let empty: Vec<Vec<u8>> = Vec::new();
    assert_eq!(encode_records(&empty), Vec::<u8>::new());
}

#[test]
fn decoding_inverts_encoding() {
    let recs = vec![b"alpha".to_vec(), b"".to_vec(), b"beta".to_vec()];
    let bytes = encode_records(&recs);
    assert_eq!(decode_records(&bytes), recs);
}

#[test]
fn decoding_keeps_an_unterminated_tail() {
    let bytes = b"ab\nc".to_vec();
    assert_eq!(decode_records(&bytes), vec![b"ab".to_vec(), b"c".to_vec()]);
    assert_eq!(decode_records(&Vec::new()), Vec::<Vec<u8>>::new());
}

#[test]
fn shard_names_are_zero_padded() {
    assert_eq!(shard_file_name(0), "shuffled_doc_00000000.jsonl.gz");
    assert_eq!(shard_file_name(7), "shuffled_doc_00000007.jsonl.gz");
    assert_eq!(shard_file_name(123), "shuffled_doc_00000123.jsonl.gz");
    assert_eq!(shard_file_name(99999999), "shuffled_doc_99999999.jsonl.gz");
    assert_eq!(shard_file_name(123456789), "shuffled_doc_123456789.jsonl.gz");
}
