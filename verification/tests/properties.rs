use rle::{Error, Table};

fn collect_runs(table: &Table, items: &[char]) -> Vec<(usize, usize)> {
    let mut enc = table.encode(items).unwrap();
    let mut runs: Vec<(usize, usize)> = Vec::new();
    while let Some(run) = enc.next(table, items) {
        runs.push(run);
    }
    runs
}

fn collect_bytes(table: &Table, items: &[char]) -> Vec<u8> {
    let mut enc = table.encode_bytes(items).unwrap();
    let mut bytes: Vec<u8> = Vec::new();
    while let Some(b) = enc.next(table, items) {
        bytes.push(b);
    }
    bytes
}

fn decode_runs_to_string(table: &Table, runs: &[(usize, usize)]) -> String {
    let mut dec = table.decode(runs);
    let mut out = String::new();
    while let Some(c) = dec.next(table, runs) {
        out.push(c);
    }
    out
}

fn decode_bytes_to_string(table: &Table, bytes: &[u8]) -> String {
    let mut dec = table.decode_bytes(bytes);
    let mut out = String::new();
    while let Some(c) = dec.next(table, bytes) {
        out.push(c);
    }
    out
}

#[test]
fn insert_idempotence() {
    let mut table = Table::default();
    let first = table.insert_or_get('Q');
    let len_after_first = table.len();
    let second = table.insert_or_get('Q');
    assert_eq!(first, second);
    assert_eq!(table.len(), len_after_first);
    assert_eq!(table.len(), 1);
}

#[test]
fn insert_keeps_first_index() {
    let mut table = Table::default();
    table.insert('B');
    table.insert('A');
    table.insert('B');
    assert_eq!(table.len(), 2);
    assert_eq!(table.get(0), Some('B'));
    assert_eq!(table.get(1), Some('A'));
    assert_eq!(table.get(2), None);
}

#[test]
fn sorted_iteration_is_ascending() {
    let input: Vec<char> = "EEEEAAACCCCCCCBBBBBBDD".chars().collect();
    let table = Table::from_slice(&input);
    let mut sorted: Vec<char> = Vec::new();
    let mut it = table.iter_sorted();
    while let Some(c) = it.next(&table) {
        sorted.push(c);
    }
    assert_eq!(sorted, vec!['A', 'B', 'C', 'D', 'E']);
    for w in sorted.windows(2) {
        assert!(w[0] <= w[1]);
    }
}

#[test]
fn insertion_order_iteration() {
    let input: Vec<char> = "EEEEAAACCCCCCCBBBBBBDD".chars().collect();
    let table = Table::from_slice(&input);
    let mut seen: Vec<char> = Vec::new();
    let mut it = table.iter();
    while let Some(c) = it.next(&table) {
        seen.push(c);
    }
    assert_eq!(seen, vec!['E', 'A', 'C', 'B', 'D']);
}

#[test]
fn concrete_scenario_runs_and_bytes() {
    let mut table = Table::default();
    table.extend_from_slice(&['A', 'B', 'C']);
    let input: Vec<char> = "AAAAABBBBBBBBBBCCCAAAAAAAAAA".chars().collect();

    let runs = collect_runs(&table, &input);
    assert_eq!(runs, vec![(0, 5), (1, 10), (2, 3), (0, 10)]);

    let bytes = collect_bytes(&table, &input);
    assert_eq!(bytes, vec![0x01, 0x05, 0x03, 0x0A, 0x05, 0x03, 0x01, 0x0A]);
}

#[test]
fn round_trip_runs() {
    let input: Vec<char> = "GGGGJJJJEEEEIIIIIIIAAAACCCCCCCCAAABBBBXXXXXRRRRRRRRR"
        .chars()
        .collect();
    let table = Table::from_slice(&input);
    let runs = collect_runs(&table, &input);
    let decoded = decode_runs_to_string(&table, &runs);
    let expected: String = input.iter().collect();
    assert_eq!(decoded, expected);
}

#[test]
fn round_trip_bytes() {
    let input: Vec<char> = "MMMMMZZZZAAAMMMQQQQQQQQQQQQQQQQQQQQQQZ".chars().collect();
    let table = Table::from_slice(&input);
    let bytes = collect_bytes(&table, &input);
    let decoded = decode_bytes_to_string(&table, &bytes);
    let expected: String = input.iter().collect();
    assert_eq!(decoded, expected);
}

#[test]
fn round_trip_bytes_mut_builds_table() {
    let input: Vec<char> = "xyyyzzzzzzxx".chars().collect();
    let mut table = Table::default();
    let mut enc = table.encode_bytes_mut(&input).unwrap();
    let mut bytes: Vec<u8> = Vec::new();
    while let Some(res) = enc.next(&mut table, &input) {
        bytes.push(res.unwrap());
    }
    assert_eq!(table.len(), 3);
    let decoded = decode_bytes_to_string(&table, &bytes);
    let expected: String = input.iter().collect();
    assert_eq!(decoded, expected);
}

#[test]
fn run_splitting() {
    let table = Table::from_slice(&['A']);
    let input: Vec<char> = std::iter::repeat('A').take(300).collect();
    let bytes = collect_bytes(&table, &input);
    // 300 = 127 + 127 + 46: three records sharing index 0
    assert_eq!(bytes, vec![0x01, 127, 0x01, 127, 0x01, 46]);
    let lengths: Vec<u8> = vec![bytes[1], bytes[3], bytes[5]];
    assert_eq!(lengths.iter().map(|&l| l as usize).sum::<usize>(), 300);
    for l in lengths {
        assert!(1 <= l && l <= 127);
    }
    let decoded = decode_bytes_to_string(&table, &bytes);
    assert_eq!(decoded.len(), 300);
    assert!(decoded.chars().all(|c| c == 'A'));
}

#[test]
fn missing_item_failure() {
    let table = Table::default();
    let r = table.encode(&['x']);
    assert!(matches!(r, Err(Error::TableMissingItems(0))));
    let r = table.encode_hex_str(&['x']);
    assert!(matches!(r, Err(Error::TableMissingItems(0))));
}

#[test]
fn missing_item_position() {
    let table = Table::from_slice(&['a', 'b']);
    let r = table.encode(&['a', 'b', 'a', 'q', 'b']);
    assert!(matches!(r, Err(Error::TableMissingItems(3))));
}

#[test]
fn table_too_large_failure() {
    let mut table = Table::default();
    for i in 0..128u32 {
        table.insert(char::from_u32(65 + i).unwrap());
    }
    assert_eq!(table.len(), 128);
    let r = table.encode_bytes(&['A']);
    assert!(matches!(r, Err(Error::TableTooLarge(128))));
    let r = table.encode_bytes_mut(&['A']);
    assert!(matches!(r, Err(Error::TableTooLarge(128))));
}

#[test]
fn table_at_limit_still_encodes() {
    let mut table = Table::default();
    let mut input: Vec<char> = Vec::new();
    for i in 0..127u32 {
        let c = char::from_u32(65 + i).unwrap();
        table.insert(c);
        input.push(c);
    }
    let bytes = collect_bytes(&table, &input);
    let decoded = decode_bytes_to_string(&table, &bytes);
    let expected: String = input.iter().collect();
    assert_eq!(decoded, expected);
}

#[test]
fn hex_str_exact() {
    let table = Table::from_slice(&['A', 'B']);
    let input: Vec<char> = "AABBBBBBBBBBB".chars().collect();
    // runs: (0,2) then (1,11): "0:2,1:B,"
    let s = table.encode_hex_str(&input).unwrap();
    assert_eq!(s, "0:2,1:B,");
}

#[test]
fn hex_str_single_runs() {
    let table = Table::from_slice(&['A']);
    let input: Vec<char> = std::iter::repeat('A').take(10).collect();
    let s = table.encode_hex_str(&input).unwrap();
    assert_eq!(s, "0:A,");
    let s = table.encode_hex_str(&['A']).unwrap();
    assert_eq!(s, "0:1,");
    let s = table.encode_hex_str(&[]).unwrap();
    assert_eq!(s, "");
}

#[test]
fn empty_input_encodes_to_nothing() {
    let table = Table::from_slice(&['A']);
    assert_eq!(collect_runs(&table, &[]), vec![]);
    assert_eq!(collect_bytes(&table, &[]), vec![]);
}

#[test]
fn stale_run_index_truncates_silently() {
    let table = Table::from_slice(&['A']);
    let runs: Vec<(usize, usize)> = vec![(5, 3)];
    let mut dec = table.decode(&runs);
    assert_eq!(dec.next(&table, &runs), None);
}

#[test]
fn truncated_byte_record_ends_decode() {
    let table = Table::from_slice(&['A']);
    // an odd first byte announces a length byte that never comes
    let bytes: Vec<u8> = vec![0x01];
    let mut dec = table.decode_bytes(&bytes);
    assert_eq!(dec.next(&table, &bytes), None);
}

#[test]
fn zero_length_run_decodes_once() {
    // A run length below one lies outside the data model (and outside
    // the decoder's verified contract); this pins what the code does
    // anyway: the element is yielded once, as for length one.
    let table = Table::from_slice(&['A']);
    let runs: Vec<(usize, usize)> = vec![(0, 0)];
    assert_eq!(decode_runs_to_string(&table, &runs), "A");
}

#[test]
fn get_range_subslice() {
    let table = Table::from_slice(&"CABBAGE".chars().collect::<Vec<char>>());
    // items in insertion order: C A B G E
    assert_eq!(table.get_range(1, 4), Some(&['A', 'B', 'G'][..]));
    assert_eq!(table.get_range(0, 5), Some(&['C', 'A', 'B', 'G', 'E'][..]));
    assert_eq!(table.get_range(3, 3), Some(&[][..]));
    assert_eq!(table.get_range(2, 6), None);
    assert_eq!(table.get_range(4, 2), None);
}

#[test]
fn clear_empties_the_table() {
    let mut table = Table::from_slice(&['A', 'B', 'C']);
    assert_eq!(table.len(), 3);
    table.clear();
    assert_eq!(table.len(), 0);
    assert_eq!(table.get(0), None);
    table.insert('Z');
    assert_eq!(table.len(), 1);
    assert_eq!(table.get(0), Some('Z'));
}

#[test]
fn constructors_agree() {
    let input: Vec<char> = "CABBAGE".chars().collect();
    let a = Table::from_slice(&input);
    let b = Table::from_iter(input.clone());
    let mut c = Table::with_capacity(16);
    c.extend_from_slice(&input);
    assert_eq!(a.as_ref(), b.as_ref());
    assert_eq!(a.as_ref(), c.as_ref());
    assert_eq!(a.len(), 5);
}

#[test]
fn mut_byte_encoder_reports_overflow_per_run() {
    let mut table = Table::default();
    for i in 0..127u32 {
        table.insert(char::from_u32(65 + i).unwrap());
    }
    // The first fresh character still gets index 127 and packs; the
    // second gets index 128, whose run yields a failure, after which
    // encoding goes on with the runs that follow.
    let input: Vec<char> = vec!['\u{1000}', '\u{1001}', 'A'];
    let mut enc = table.encode_bytes_mut(&input).unwrap();
    let mut outcomes: Vec<Result<u8, rle::Error>> = Vec::new();
    while let Some(res) = enc.next(&mut table, &input) {
        outcomes.push(res);
    }
    assert_eq!(table.len(), 129);
    assert_eq!(outcomes.len(), 3);
    assert!(matches!(outcomes[0], Ok(254)));
    assert!(matches!(outcomes[1], Err(Error::TableTooLarge(129))));
    assert!(matches!(outcomes[2], Ok(0)));
}
