use union_code::compiler::compile_rom;
use union_code::{CompressedIntent, FstEngine, UnionCode, DEFAULT_ROM_MATRIX, NOT_FOUND};

fn leak(rom: Vec<u8>) -> &'static [u8] {
    Box::leak(rom.into_boxed_slice())
}

fn default_verbs() -> Vec<(&'static str, u8)> {
    vec![
        ("打開", 0x01),
        ("解鎖", 0x01),
        ("拿", 0x20),
        ("送", 0x20),
        ("get", 0x20),
        ("查", 0x10),
        ("REFUND_ORDER_LAST", 0x15),
    ]
}

fn default_nouns() -> Vec<(&'static str, u16)> {
    vec![
        ("箱子", 0x0000),
        ("櫃子", 0x0000),
        ("咖啡", 0x0A42),
        ("coffee", 0x0A42),
        ("茶", 0x0A43),
        ("REFUND_ORDER_LAST", 0x00FF),
    ]
}

#[test]
fn default_rom_is_the_compiled_default_dictionary() {
    let rom = compile_rom(&default_verbs(), &default_nouns());
    assert_eq!(rom.as_slice(), &DEFAULT_ROM_MATRIX[..]);
}

#[test]
fn default_rom_validates() {
    assert!(FstEngine::default().validate_rom());
}

#[test]
fn readme_example_decodes() {
    let uc = UnionCode::new(FstEngine::new(&DEFAULT_ROM_MATRIX));
    let r = uc.decode("欸那個，幫我把箱子打開一下啦，謝囉".as_bytes());
    assert_eq!(r, Ok(CompressedIntent { opcode: 0x01, payload_id: 0x0000 }));
}

#[test]
fn not_found_is_0x06() {
    assert_eq!(NOT_FOUND, 0x06);
}

#[test]
fn validate_empty_rom() {
    assert!(FstEngine::new(&[]).validate_rom());
}

#[test]
fn validate_rejects_failure_offset_outside() {
    // flags, failure offset 5 (the ROM has 4 bytes), no transitions
    assert!(!FstEngine::new(&[0, 5, 0, 0]).validate_rom());
}

#[test]
fn validate_rejects_transition_outside() {
    // root with one transition on 'a' to offset 7, in a 7-byte ROM
    assert!(!FstEngine::new(&[0, 0, 0, 1, b'a', 7, 0]).validate_rom());
}

#[test]
fn validate_rejects_truncated_record() {
    assert!(!FstEngine::new(&[0, 0]).validate_rom());
    assert!(!FstEngine::new(&[0, 0, 0, 0, 0]).validate_rom());
    // the flags announce an operation code and a payload id that are not there
    assert!(!FstEngine::new(&[3, 0, 0]).validate_rom());
}

#[test]
fn validate_accepts_minimal_rom() {
    assert!(FstEngine::new(&[0, 0, 0, 0]).validate_rom());
}

#[test]
fn empty_rom_yields_nothing() {
    let fst = FstEngine::new(&[]);
    assert_eq!(fst.parse_stream(b"anything"), None);
    assert_eq!(UnionCode::new(fst).decode(b"anything"), Err(NOT_FOUND));
}

#[test]
fn empty_input_yields_nothing() {
    let rom = leak(compile_rom(&[("a", 1)], &[("b", 2)]));
    assert_eq!(FstEngine::new(rom).parse_stream(b""), None);
}

#[test]
fn word_that_is_verb_and_noun() {
    let rom = leak(compile_rom(&[("ab", 7)], &[("ab", 0x0102)]));
    let fst = FstEngine::new(rom);
    assert_eq!(fst.parse_stream(b"ab"), Some(CompressedIntent { opcode: 7, payload_id: 0x0102 }));
    assert_eq!(fst.parse_stream(b"xxabyy"), Some(CompressedIntent { opcode: 7, payload_id: 0x0102 }));
}

#[test]
fn later_code_for_same_word_wins() {
    let rom = leak(compile_rom(&[("a", 1), ("a", 2)], &[("b", 3), ("b", 4)]));
    let fst = FstEngine::new(rom);
    assert_eq!(fst.parse_stream(b"ab"), Some(CompressedIntent { opcode: 2, payload_id: 4 }));
}

#[test]
fn latest_match_wins() {
    let rom = leak(compile_rom(&[("a", 1), ("c", 2)], &[("b", 10), ("d", 20)]));
    let fst = FstEngine::new(rom);
    assert_eq!(fst.parse_stream(b"abcd"), Some(CompressedIntent { opcode: 2, payload_id: 20 }));
    assert_eq!(fst.parse_stream(b"cdab"), Some(CompressedIntent { opcode: 1, payload_id: 10 }));
    assert_eq!(fst.parse_stream(b"adcb"), Some(CompressedIntent { opcode: 2, payload_id: 10 }));
}

#[test]
fn failure_links_find_overlapping_words() {
    // after "xa" fails to continue with 'b' inside "xab...", the failure link
    // leads to the node of "a", which continues to "ab"
    let rom = leak(compile_rom(&[("xay", 1), ("ab", 2)], &[("q", 9)]));
    let fst = FstEngine::new(rom);
    assert_eq!(fst.parse_stream(b"xabq"), Some(CompressedIntent { opcode: 2, payload_id: 9 }));
}

#[test]
fn shorter_word_inside_longer_match_is_seen() {
    // in "abc" the run stands on the node of the verb "abc"; the noun "bc" ends there too
    // and is found along the failure chain
    let rom = leak(compile_rom(&[("abc", 1)], &[("bc", 2)]));
    let fst = FstEngine::new(rom);
    assert_eq!(fst.parse_stream(b"abc"), Some(CompressedIntent { opcode: 1, payload_id: 2 }));
    assert_eq!(fst.parse_stream(b"xxabcxx"), Some(CompressedIntent { opcode: 1, payload_id: 2 }));
}

#[test]
fn suffix_word_of_hand_written_rom_is_seen() {
    // the record of "ab" (offset 17) carries the operation code, its failure record "b"
    // (offset 22) the payload id
    let rom: &'static [u8] = &[
        0, 0, 0, 2, b'a', 10, 0, b'b', 22, 0, 0, 0, 0, 1, b'b', 17, 0, 1, 1, 22, 0, 0, 2, 2, 0, 0, 0, 0,
    ];
    assert_eq!(compile_rom(&[("ab", 1)], &[("b", 2)]).as_slice(), rom);
    let fst = FstEngine::new(rom);
    assert_eq!(fst.parse_stream(b"ab"), Some(CompressedIntent { opcode: 0x01, payload_id: 0x0002 }));
}

#[test]
fn longest_coded_ending_gives_the_code() {
    // "abc" and "c" both end at the third byte: the longer word's code is kept
    let rom = leak(compile_rom(&[("abc", 1), ("c", 2)], &[("x", 9)]));
    let fst = FstEngine::new(rom);
    assert_eq!(fst.parse_stream(b"abcx"), Some(CompressedIntent { opcode: 1, payload_id: 9 }));
    assert_eq!(fst.parse_stream(b"zcx"), Some(CompressedIntent { opcode: 2, payload_id: 9 }));
}

#[test]
fn looping_failure_chain_finds_nothing() {
    // the record at offset 7 names itself as its failure node: after "a", the byte 'b'
    // falls back along that link forever; the run is cut and finds nothing
    let fst = FstEngine::new(&[0, 0, 0, 1, b'a', 7, 0, 0, 7, 0, 0]);
    assert_eq!(fst.parse_stream(b"ab"), None);
    assert_eq!(UnionCode::new(fst).decode(b"ab"), Err(NOT_FOUND));
}

#[test]
fn compiled_rom_size_is_bounded() {
    let total: usize = default_verbs().iter().map(|(w, _)| w.len()).sum::<usize>()
        + default_nouns().iter().map(|(w, _)| w.len()).sum::<usize>();
    let rom = compile_rom(&default_verbs(), &default_nouns());
    assert!(rom.len() <= 10 * (1 + total));
}

#[test]
fn aborted_run_yields_nothing() {
    // the root's transition on 'a' points past the end: the read falls outside the ROM
    let fst = FstEngine::new(&[0, 0, 0, 1, b'a', 0x40, 0]);
    assert_eq!(fst.parse_stream(b"a"), None);
    assert_eq!(fst.parse_stream(b"bbb"), None);
}

#[test]
fn unmatched_bytes_stay_at_root() {
    let rom = leak(compile_rom(&[("go", 5)], &[("up", 6)]));
    let fst = FstEngine::new(rom);
    assert_eq!(fst.parse_stream(b"zzgozzupzz"), Some(CompressedIntent { opcode: 5, payload_id: 6 }));
}

#[test]
fn compiled_rom_layout() {
    let rom = compile_rom(&[("a", 1)], &[("b", 2)]);
    assert_eq!(rom, vec![0, 0, 0, 2, 97, 10, 0, 98, 15, 0, 1, 1, 0, 0, 0, 2, 2, 0, 0, 0, 0]);
}

#[test]
fn compiled_empty_dictionary() {
    let rom = compile_rom(&[], &[]);
    assert_eq!(rom, vec![0, 0, 0, 0]);
    let fst = FstEngine::new(leak(rom));
    assert!(fst.validate_rom());
    assert_eq!(fst.parse_stream(b"abc"), None);
}

#[test]
fn compiled_rom_validates_with_many_branches() {
    // every ASCII byte follows the root: a wide node still fits its count byte
    let words: Vec<String> = (0u8..128).map(|b| (b as char).to_string()).collect();
    let verbs: Vec<(&str, u8)> = words.iter().map(|w| (w.as_str(), 1u8)).collect();
    let rom = compile_rom(&verbs, &[("z", 3)]);
    let fst = FstEngine::new(leak(rom));
    assert!(fst.validate_rom());
    assert_eq!(fst.parse_stream(b"z"), Some(CompressedIntent { opcode: 1, payload_id: 3 }));
}

#[test]
fn default_rom_failure_links_settle() {
    assert!(FstEngine::default().check_fail_links());
}

#[test]
fn compiled_rom_failure_links_settle() {
    let rom = leak(compile_rom(&[("xay", 1), ("ab", 2), ("abc", 3)], &[("bc", 9), ("c", 8)]));
    assert!(FstEngine::new(rom).check_fail_links());
    assert!(FstEngine::new(&[]).check_fail_links());
}

#[test]
fn failure_link_loop_is_caught_though_the_rom_validates() {
    // the record at offset 7 names itself as its failure node and has no transitions:
    // after "a", any byte would fall back along that link forever
    let fst = FstEngine::new(&[0, 0, 0, 1, b'a', 7, 0, 0, 7, 0, 0]);
    assert!(fst.validate_rom());
    assert!(!fst.check_fail_links());
}

#[test]
fn failure_link_out_of_the_rom_settles() {
    // a failure offset past the end stops the chain: the run would abort there
    let fst = FstEngine::new(&[0, 0, 0, 1, b'a', 7, 0, 0, 0x40, 0, 0]);
    assert!(fst.check_fail_links());
}
