use rand::Rng;
use zoda_rs::babybear::BabyBear as Bb64;
use zoda_rs::benchmark_utils::{
    compute_data_root, encoding_input, generate_deterministic_coefficients, pad_shards, rows_from_output, shard_input,
    validate_zoda_encoding, chunk_skip, ChunkSkip, EncodingConfig, ShardConfig,
};
use zoda_rs::field::babybear::BabyBear;
use zoda_rs::hashing::{hex_string, sha256_hex};
use zoda_rs::ntt_babybear;
use zoda_rs::zoda::babybear::{run_zoda_babybear, BabyBearCell, BabyBearDataSquare};

#[test]
fn sha256_hex_of_abc() {
    assert_eq!(
        sha256_hex(b"abc"),
        "ba7816bf8f01cfea414140de5dae2223b00361a396177a9cb410ff61f20015ad"
    );
}

#[test]
fn hex_string_is_lowercase_two_digits_per_byte() {
    assert_eq!(hex_string(&[0x00, 0xff, 0x1a, 0x09]), "00ff1a09");
    assert_eq!(hex_string(&[]), "");
}

#[test]
fn data_root_hashes_little_endian_values_row_by_row() {
    let rows = vec![vec![Bb64::new(1), Bb64::new(2)], vec![Bb64::new(3)]];
    assert_eq!(
        compute_data_root(&rows),
        "e2e2033ae7e19d680599d4eb0a1359a2b48ec5baac75066c317fbf85159c54ef"
    );
}

#[test]
fn deterministic_coefficients_of_abc() {
    let c = generate_deterministic_coefficients("abc", 3);
    let values: Vec<u64> = c.iter().map(|x| x.value).collect();
    assert_eq!(values, vec![67872107, 516223195, 1987378384]);
    // the same root gives the same coefficients
    let again = generate_deterministic_coefficients("abc", 3);
    assert_eq!(values, again.iter().map(|x| x.value).collect::<Vec<u64>>());
}

#[test]
fn encoding_config_sizes() {
    let config = EncodingConfig { k: 5, n: 7, row_size: 64 };
    assert_eq!(config.data_size_bytes(), 320);
    assert_eq!(config.total_rows(), 12);
    assert_eq!(config.elements_per_row(), 16);
    assert_eq!(config.num_positions(), 16);
    assert_eq!(config.ntt_size_k(), 8);
    assert_eq!(config.ntt_size_kn(), 16);
}

/// Encodes every column of the data square as the reference encoder does:
/// inverse transform of its k values (padded), zero padding, forward
/// transform of size next_pow2(k + n); the output is column-major.
fn encode_columns(config: &EncodingConfig) -> Vec<u64> {
    let input = encoding_input(config);
    let nk = config.ntt_size_k();
    let nkn = config.ntt_size_kn();
    let omega_k = Bb64::get_root_of_unity(nk.trailing_zeros());
    let omega_kn = Bb64::get_root_of_unity(nkn.trailing_zeros());
    let mut out = Vec::new();
    for c in 0..config.elements_per_row() {
        let mut col: Vec<Bb64> = input[c * nk..(c + 1) * nk].iter().map(|&v| Bb64::new(v)).collect();
        ntt_babybear::intt(&mut col, omega_k);
        col.resize(nkn, Bb64::zero());
        ntt_babybear::ntt(&mut col, omega_kn);
        out.extend(col.iter().map(|x| x.value));
    }
    out
}

#[test]
fn validate_accepts_a_correct_encoding() {
    let config = EncodingConfig { k: 4, n: 4, row_size: 32 };
    let output = encode_columns(&config);
    let rows = rows_from_output(&config, &output);
    assert_eq!(rows.len(), 8);
    let (ok, checks) = validate_zoda_encoding(&config, &rows);
    assert!(ok);
    assert!(checks > 0);
}

#[test]
fn validate_rejects_a_changed_value() {
    let config = EncodingConfig { k: 4, n: 4, row_size: 32 };
    let output = encode_columns(&config);
    let mut rows = rows_from_output(&config, &output);
    rows[5][0] = rows[5][0] + Bb64::one();
    let (ok, _) = validate_zoda_encoding(&config, &rows);
    assert!(!ok);
}

#[test]
fn validate_stops_before_a_short_row() {
    // column 0 is wrong, so the later columns, which row 3 lacks, are never read
    let config = EncodingConfig { k: 4, n: 4, row_size: 32 };
    let output = encode_columns(&config);
    let mut rows = rows_from_output(&config, &output);
    rows[2][0] = rows[2][0] + Bb64::one();
    rows[3].truncate(1);
    let (ok, checks) = validate_zoda_encoding(&config, &rows);
    assert!(!ok);
    assert_eq!(checks, 8);
}

#[test]
fn zoda_run_samples_match_the_encoding() {
    let d = 4;
    let values: Vec<u64> = (1..=16).collect();
    let samples = vec![0, 1, 3, 2, 3];
    let run = run_zoda_babybear(d, &values, &samples);
    assert_eq!(run.extended.columns, 4);
    assert_eq!(run.extended.rows, 4);
    assert_eq!(run.root.len(), 64);
    assert_eq!(run.root, run.extended.hash_root());
    assert_eq!(run.coefficients.len(), 4);
    assert_eq!(run.y_encoded.len(), 4);
    assert_eq!(run.row_sums.len(), samples.len());
    for (k, &row) in samples.iter().enumerate() {
        assert_eq!(run.row_sums[k], run.y_encoded[row]);
    }
}

#[test]
fn data_square_rows_and_columns() {
    let mut square = BabyBearDataSquare::new(Vec::new(), 0, 0);
    square.set_cell(1, 0, BabyBear::new(10));
    square.set_cell(0, 0, BabyBear::new(11));
    square.set_cell(0, 1, BabyBear::new(12));
    square.set_cell(1, 1, BabyBear::new(13));
    square.set_cell(1, 0, BabyBear::new(14));
    assert_eq!(square.columns, 2);
    assert_eq!(square.rows, 2);
    assert_eq!(square.cells.len(), 4);
    assert_eq!(square.get_row(0), vec![BabyBear::new(11), BabyBear::new(14)]);
    assert_eq!(square.get_row(1), vec![BabyBear::new(12), BabyBear::new(13)]);
    assert_eq!(square.get_column(1), vec![BabyBear::new(14), BabyBear::new(13)]);
    assert!(square.get_row(5).is_empty());
}

#[test]
fn data_square_hash_root_of_two_cells() {
    let cells = vec![
        BabyBearCell { value: BabyBear::new(1), column: 0, row: 0 },
        BabyBearCell { value: BabyBear::new(2), column: 1, row: 0 },
    ];
    let square = BabyBearDataSquare::new(cells, 2, 1);
    assert_eq!(
        square.hash_root(),
        "34fb5c825de7ca4aea6e712f19d439c1da0c92c37b423936c5f618545ca4fa1f"
    );
}

fn random_zoda_run(data_size: usize) {
    let ntt_n = data_size.next_power_of_two();
    let mut rng = rand::rng();
    let values: Vec<u64> = (0..data_size * data_size).map(|_| rng.random_range(1..256)).collect();
    let sample_rows: Vec<usize> = (0..64).map(|_| rng.random_range(0..ntt_n)).collect();
    let run = run_zoda_babybear(data_size, &values, &sample_rows);
    assert_eq!(run.row_sums.len(), 64);
    for (k, &row) in sample_rows.iter().enumerate() {
        assert_eq!(run.row_sums[k].value, run.y_encoded[row].value);
    }
}

#[test]
fn test_zoda_babybear_cpu() {
    random_zoda_run(4);
}

#[test]
fn test_compare_cpu_gpu() {
    for size in [4, 8, 16, 32] {
        random_zoda_run(size);
    }
}

#[test]
fn shard_layout_and_padding() {
    let config = ShardConfig { data_size_mb: 1, k: 4, expansion: 2 };
    assert_eq!(config.n(), 8);
    assert_eq!(config.shard_elements(), 65536);
    let input = shard_input(2, 3);
    // position pos of shard s at pos * 2 + s holds s * 3 + pos
    assert_eq!(input, vec![0, 3, 1, 4, 2, 5]);
    let padded = pad_shards(&input, 2, 4, 3);
    assert_eq!(padded, vec![0, 3, 0, 0, 1, 4, 0, 0, 2, 5, 0, 0]);
}

#[test]
fn chunk_skip_reasons_in_order() {
    assert_eq!(chunk_skip(268435457, 1, 1), Some(ChunkSkip::TooMuchMemory));
    assert_eq!(chunk_skip(268435456, 15, 1024), Some(ChunkSkip::ChunkTooSmall));
    assert_eq!(chunk_skip(1024, 2048, 1024), Some(ChunkSkip::ChunkTooLarge));
    assert_eq!(chunk_skip(1024, 16, 16), None);
}
