use dfajit::{
    compile_x86_64, patch_rel32, Compiled, Error, JitDfa, Match, TransitionTable, DATA_START, NO_MATCH,
};

fn word_at(code: &[u8], off: usize) -> u32 {
    u32::from_le_bytes([code[off], code[off + 1], code[off + 2], code[off + 3]])
}

fn scan_all(jit: &JitDfa, input: &[u8]) -> Vec<Match> {
    let mut matches = vec![Match::from_parts(0, 0, 0); 64];
    let n = jit.scan(input, &mut matches);
    matches.truncate(n);
    matches
}

#[test]
fn to_bytes_writes_little_endian_words() {
    let mut table = TransitionTable::new(1, 2).unwrap();
    table.set_transition(0, 1, 0x0102_0304);
    table.add_accept(0, 1);
    table.set_pattern_length(1, 5);
    assert_eq!(
        table.to_bytes(),
        vec![
            1, 0, 0, 0, 2, 0, 0, 0, // state and class counts
            0, 0, 0, 0, 4, 3, 2, 1, // transitions
            1, 0, 0, 0, 0, 0, 0, 0, 1, 0, 0, 0, // one accept entry (0, 1)
            2, 0, 0, 0, 0, 0, 0, 0, 5, 0, 0, 0, // pattern lengths [0, 5]
        ]
    );
}

#[test]
fn round_trip_of_a_table_built_by_calls() {
    let mut table = TransitionTable::new(3, 4).unwrap();
    table.set_transition(0, 2, 1);
    table.set_transition(1, 3, 2);
    table.add_accept(2, 0);
    table.set_pattern_length(0, 2);
    let restored = TransitionTable::from_bytes(&table.to_bytes()).unwrap();
    assert_eq!(restored.state_count(), 3);
    assert_eq!(restored.class_count(), 4);
    assert_eq!(restored.transitions(), table.transitions());
    assert_eq!(restored.accept_states(), table.accept_states());
    assert_eq!(restored.pattern_lengths(), table.pattern_lengths());
}

#[test]
fn from_bytes_rejects_a_target_past_the_last_state() {
    let mut table = TransitionTable::new(2, 1).unwrap();
    table.set_transition(0, 0, 7);
    assert!(matches!(TransitionTable::from_bytes(&table.to_bytes()), Err(Error::InvalidTable { .. })));
}

#[test]
fn from_bytes_rejects_a_short_header() {
    assert!(matches!(TransitionTable::from_bytes(&[1, 0, 0]), Err(Error::InvalidTable { .. })));
}

#[test]
fn from_parts_reports_each_error() {
    let too_many = TransitionTable::from_parts(TransitionTable::MAX_STATES + 1, 1, vec![], vec![], vec![]);
    assert!(matches!(
        too_many,
        Err(Error::TooManyStates { states, max }) if states == TransitionTable::MAX_STATES + 1 && max == TransitionTable::MAX_STATES
    ));
    let zero_classes = TransitionTable::from_parts(1, 0, vec![], vec![], vec![]);
    assert!(matches!(zero_classes, Err(Error::InvalidTable { .. })));
    let short = TransitionTable::from_parts(2, 2, vec![0, 0, 0], vec![], vec![]);
    assert!(matches!(short, Err(Error::InvalidTable { .. })));
    let unknown_pattern = TransitionTable::from_parts(1, 1, vec![0], vec![(0, 3)], vec![1]);
    assert!(matches!(unknown_pattern, Err(Error::InvalidTable { .. })));
    let twice = TransitionTable::from_parts(1, 1, vec![0], vec![(0, 0), (0, 0)], vec![1]);
    assert!(matches!(twice, Err(Error::InvalidTable { .. })));
    let ok = TransitionTable::from_parts(2, 1, vec![1, 0], vec![(1, 0)], vec![1]).unwrap();
    assert_eq!(ok.transitions(), &[1, 0]);
}

#[test]
fn new_reports_each_error() {
    assert!(matches!(TransitionTable::new(2, 0), Err(Error::InvalidTable { .. })));
    assert!(matches!(
        TransitionTable::new(TransitionTable::MAX_STATES + 1, 1),
        Err(Error::TooManyStates { states, max }) if states == TransitionTable::MAX_STATES + 1 && max == TransitionTable::MAX_STATES
    ));
    assert!(matches!(TransitionTable::new(65_536, 8192), Err(Error::TooManyStates { .. })));
}

#[test]
fn compile_reports_each_error() {
    assert!(matches!(JitDfa::compile(&TransitionTable::new(0, 256).unwrap()), Err(Error::EmptyDfa)));
    let mut table = TransitionTable::new(2, 256).unwrap();
    table.transitions_raw_mut().truncate(300);
    assert!(matches!(JitDfa::compile(&table), Err(Error::InvalidTable { .. })));
    assert!(matches!(JitDfa::from_patterns(&[]), Err(Error::InvalidTable { .. })));
}

#[test]
fn set_transition_outside_the_array_changes_nothing() {
    let mut table = TransitionTable::new(2, 2).unwrap();
    table.set_transition(5, 1, 1);
    assert_eq!(table.transitions(), &[0, 0, 0, 0]);
    table.set_transition(1, 1, 1);
    assert_eq!(table.transitions(), &[0, 0, 0, 1]);
}

#[test]
fn patch_rel32_writes_forward_and_backward_displacements() {
    let mut code = vec![0u8; 16];
    patch_rel32(&mut code, 2, 14);
    assert_eq!(&code[2..6], &[8, 0, 0, 0]);
    patch_rel32(&mut code, 8, 0);
    assert_eq!(&code[8..12], &(-12i32).to_le_bytes());
    assert_eq!(code[0], 0);
    assert_eq!(code[12], 0);
}

#[test]
fn native_image_layout() {
    let mut table = TransitionTable::new(2, 256).unwrap();
    table.set_transition(0, b'a', 1);
    table.add_accept(1, 0);
    table.set_pattern_length(0, 1);
    match compile_x86_64(&table, &[]).unwrap() {
        Compiled::Native(img) => {
            assert_eq!(img.trans_offset, DATA_START);
            assert_eq!(img.accept_offset, DATA_START + 4 * 512);
            assert_eq!(img.patlen_offset, img.accept_offset + 8);
            assert_eq!(img.output_offset, img.patlen_offset + 4);
            assert_eq!(img.code.len(), img.output_offset + 8);
            assert_eq!(img.code[DATA_START - 1], 0xCC);
            assert_eq!(word_at(&img.code, DATA_START), 0);
            assert_eq!(word_at(&img.code, DATA_START + 4 * b'a' as usize), 0x8000_0001);
            assert_eq!(word_at(&img.code, img.accept_offset), NO_MATCH);
            assert_eq!(word_at(&img.code, img.accept_offset + 4), 0);
            assert_eq!(word_at(&img.code, img.patlen_offset), 1);
            assert_eq!(word_at(&img.code, img.output_offset), NO_MATCH);
            assert_eq!(word_at(&img.code, img.output_offset + 4), NO_MATCH);
        }
        Compiled::Interpreted(_) => panic!("a two-state table gets a native image"),
    }
}

#[test]
fn large_tables_compile_to_the_interpreted_scanner() {
    let table = TransitionTable::new(5000, 1).unwrap();
    assert!(matches!(compile_x86_64(&table, &[]), Ok(Compiled::Interpreted(_))));
}

#[test]
fn scan_count_equals_matches_written_with_room() {
    let jit = JitDfa::from_patterns(&[b"ab", b"b"]).unwrap();
    let matches = scan_all(&jit, b"abxab");
    assert_eq!(jit.scan_count(b"abxab"), matches.len());
    assert!(jit.has_match(b"xxb"));
    assert!(!jit.has_match(b"xxa"));
}

#[test]
fn literal_matcher_reports_every_pattern_ending_at_a_position() {
    // "she" ends at 4 and so does "he": both are reported there.
    let jit = JitDfa::from_patterns(&[b"he", b"she", b"his", b"hers"]).unwrap();
    let matches = scan_all(&jit, b"ushers");
    assert_eq!(matches, vec![Match::from_parts(1, 1, 4), Match::from_parts(0, 2, 4)]);
}

#[test]
fn literal_matcher_restarts_after_a_match() {
    // After "ab" is reported the scan restarts, so "bc" is not seen.
    let jit = JitDfa::from_patterns(&[b"ab", b"bc"]).unwrap();
    assert_eq!(scan_all(&jit, b"abc"), vec![Match::from_parts(0, 0, 2)]);
    assert_eq!(scan_all(&jit, b"xbc"), vec![Match::from_parts(1, 1, 3)]);
}

#[test]
fn literal_matcher_reports_the_first_of_equal_patterns() {
    let jit = JitDfa::from_patterns(&[b"ab", b"ab"]).unwrap();
    assert_eq!(scan_all(&jit, b"ab"), vec![Match::from_parts(0, 0, 2)]);
}

#[test]
fn literal_matcher_has_one_state_per_distinct_prefix() {
    // Prefixes: "", "a", "ab", "abc", "b", "bd".
    let jit = JitDfa::from_patterns(&[b"abc", b"ab", b"bd"]).unwrap();
    assert_eq!(jit.state_count(), 6);
    assert_eq!(jit.pattern_count(), 3);
}

#[test]
fn literal_matcher_at_the_state_limit() {
    // One pattern of 65_535 bytes has exactly MAX_STATES prefixes.
    let fits = vec![b'a'; TransitionTable::MAX_STATES - 1];
    let jit = JitDfa::from_patterns(&[fits.as_slice()]).unwrap();
    assert_eq!(jit.state_count(), TransitionTable::MAX_STATES);
    let over = vec![b'a'; TransitionTable::MAX_STATES];
    assert!(matches!(JitDfa::from_patterns(&[over.as_slice()]), Err(Error::TooManyStates { .. })));
}

#[test]
fn minimized_table_scans_like_the_original() {
    let mut table = TransitionTable::new(4, 256).unwrap();
    table.set_transition(0, b'a', 1);
    table.set_transition(0, b'b', 2);
    table.set_transition(1, b'c', 3);
    table.set_transition(2, b'c', 3);
    table.add_accept(3, 0);
    table.set_pattern_length(0, 2);
    let small = table.minimize().expect("states 1 and 2 merge");
    assert_eq!(small.state_count(), 3);
    let big_jit = JitDfa::compile(&table).unwrap();
    let small_jit = JitDfa::compile(&small).unwrap();
    for input in [b"ac".as_slice(), b"bc", b"abc", b"xacbc", b""] {
        assert_eq!(scan_all(&big_jit, input), scan_all(&small_jit, input));
    }
}

#[test]
fn scan_first_returns_the_earliest_match() {
    let jit = JitDfa::from_patterns(&[b"cd", b"ab"]).unwrap();
    assert_eq!(jit.scan_first(b"xxabcd"), Some(Match::from_parts(1, 2, 4)));
    assert_eq!(jit.scan_first(b"xyz"), None);
}

fn shareable<T: Send + Sync>(_: &T) {}

#[test]
fn many_patterns_scanner_is_shareable() {
    let patterns: Vec<Vec<u8>> = (0..100).map(|i| format!("p{i:02}").into_bytes()).collect();
    let pattern_refs: Vec<&[u8]> = patterns.iter().map(Vec::as_slice).collect();
    let jit = std::sync::Arc::new(JitDfa::from_patterns(&pattern_refs).unwrap());
    shareable(&jit);
    let mut matches = vec![Match::from_parts(0, 0, 0); 10];
    for _ in 0..100 {
        assert_eq!(jit.scan(b"p00 p01 p99 xyz", &mut matches), 3);
    }
    assert_eq!(matches[2], Match::from_parts(99, 8, 11));
}

#[test]
fn compiling_accepts_cyclic_output_links() {
    let table = TransitionTable::new(5000, 1).unwrap();
    assert!(matches!(compile_x86_64(&table, &[1, 0]), Ok(Compiled::Interpreted(_))));
    let small = TransitionTable::new(2, 256).unwrap();
    assert!(matches!(compile_x86_64(&small, &[1, 0]), Ok(Compiled::Native(_))));
}

#[test]
fn minimized_table_is_valid_and_minimal() {
    let mut table = TransitionTable::new(5, 256).unwrap();
    table.set_transition(0, b'a', 1);
    table.set_transition(0, b'b', 2);
    table.set_transition(1, b'c', 3);
    table.set_transition(2, b'c', 4);
    table.add_accept(3, 0);
    table.add_accept(4, 0);
    table.set_pattern_length(0, 2);
    let small = table.minimize().expect("states 1, 2 and 3, 4 merge");
    assert_eq!(small.state_count(), 3);
    assert_eq!(small.class_count(), 256);
    assert_eq!(small.pattern_lengths(), table.pattern_lengths());
    let rebuilt = TransitionTable::from_parts(
        small.state_count(),
        small.class_count(),
        small.transitions().to_vec(),
        small.accept_states().to_vec(),
        small.pattern_lengths().to_vec(),
    );
    assert!(rebuilt.is_ok());
    assert!(small.minimize().is_none());
}

#[test]
fn invalid_table_errors_carry_their_explanation() {
    match TransitionTable::new(2, 0) {
        Err(Error::InvalidTable { reason }) => {
            assert_eq!(reason, "class_count must be greater than 0. Fix: pass a positive class_count.")
        }
        _ => panic!("expected InvalidTable"),
    }
    match TransitionTable::from_bytes(&[1, 0, 0, 0, 1, 0, 0, 0, 0, 0]) {
        Err(Error::InvalidTable { reason }) => {
            assert_eq!(reason, "truncated transition table. Fix: provide the full transition array.")
        }
        _ => panic!("expected InvalidTable"),
    }
    match JitDfa::from_patterns(&[]) {
        Err(Error::InvalidTable { reason }) => {
            assert_eq!(reason, "pattern set is empty. Fix: provide at least one pattern.")
        }
        _ => panic!("expected InvalidTable"),
    }
}
