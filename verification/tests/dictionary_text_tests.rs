use union_code::compiler::compile_rom;
use union_code::dictionary_text::{compile_dictionary, parse_dictionary, DictionaryEntry};
use union_code::{CompressedIntent, FstEngine, DEFAULT_ROM_MATRIX};

fn views(entries: &[DictionaryEntry]) -> Vec<(String, Option<u8>, Option<u16>)> {
    entries
        .iter()
        .map(|e| (e.word.clone(), e.opcode, e.payload_id))
        .collect()
}

fn entry(word: &str, opcode: Option<u8>, payload_id: Option<u16>) -> (String, Option<u8>, Option<u16>) {
    (word.to_string(), opcode, payload_id)
}

const DEFAULT_TEXT: &str = "\
# verbs
VERB,打開,0x01
VERB,解鎖,0x01
VERB,拿,0x20
VERB,送,0x20
VERB,get,0x20
VERB,查,0x10
VERB,REFUND_ORDER_LAST,0x15

# nouns
NOUN,箱子,0x0000
NOUN,櫃子,0x0000
NOUN,咖啡,0x0A42
NOUN,coffee,0x0A42
NOUN,茶,0x0A43
NOUN,REFUND_ORDER_LAST,0x00FF
";

#[test]
fn parses_verbs_and_nouns_in_order() {
    let parsed = parse_dictionary("VERB,打開,0x01\nNOUN,箱子,0x0000\n");
    assert_eq!(
        views(&parsed),
        vec![entry("打開", Some(0x01), None), entry("箱子", None, Some(0x0000))]
    );
}

#[test]
fn skips_comments_blank_and_short_lines() {
    let parsed = parse_dictionary("# a comment\n\n   \nVERB,a\nVERB,b,1f\n  # indented comment");
    assert_eq!(views(&parsed), vec![entry("b", Some(0x1f), None)]);
}

#[test]
fn trims_each_field_and_the_line() {
    let parsed = parse_dictionary("\t VERB ,  a b  , 0x02  \n");
    assert_eq!(views(&parsed), vec![entry("a b", Some(0x02), None)]);
}

#[test]
fn strips_repeated_hex_prefixes() {
    let parsed = parse_dictionary("VERB,x,0x0x1f\nNOUN,y,0x0x0xBEEF");
    assert_eq!(
        views(&parsed),
        vec![entry("x", Some(0x1f), None), entry("y", None, Some(0xBEEF))]
    );
}

#[test]
fn accepts_a_plus_sign_and_upper_case_digits() {
    let parsed = parse_dictionary("NOUN,y,+FF\nVERB,z,+0A");
    assert_eq!(
        views(&parsed),
        vec![entry("y", None, Some(0xff)), entry("z", Some(0x0a), None)]
    );
}

#[test]
fn skips_codes_that_do_not_read() {
    let text = "VERB,a,100\nNOUN,b,10000\nVERB,c,g1\nVERB,d,\nVERB,e,+\nVERB,f,-1\nVERB,g,0x\nNOUN,h,ffff";
    let parsed = parse_dictionary(text);
    assert_eq!(views(&parsed), vec![entry("h", None, Some(0xffff))]);
}

#[test]
fn skips_unknown_kinds() {
    let parsed = parse_dictionary("verb,a,1\nADJ,b,2\nNOUNS,c,3\nNOUN,d,4");
    assert_eq!(views(&parsed), vec![entry("d", None, Some(4))]);
}

#[test]
fn ignores_fields_after_the_code() {
    let parsed = parse_dictionary("VERB,a,01,extra,fields");
    assert_eq!(views(&parsed), vec![entry("a", Some(1), None)]);
}

#[test]
fn reads_crlf_line_ends() {
    let parsed = parse_dictionary("VERB,a,01\r\nNOUN,b,02\r\n");
    assert_eq!(
        views(&parsed),
        vec![entry("a", Some(1), None), entry("b", None, Some(2))]
    );
}

#[test]
fn empty_text_has_no_entries() {
    assert!(parse_dictionary("").is_empty());
}

#[test]
fn default_dictionary_text_compiles_to_the_default_rom() {
    let parsed = parse_dictionary(DEFAULT_TEXT);
    assert_eq!(parsed.len(), 13);
    let rom = compile_dictionary(&parsed);
    assert_eq!(rom.as_slice(), &DEFAULT_ROM_MATRIX[..]);
}

#[test]
fn compiled_text_agrees_with_compile_rom() {
    let parsed = parse_dictionary("VERB,拿,0x20\nVERB,查,0x10\nNOUN,咖啡,0x0A42\nNOUN,茶,0x0A43");
    let rom = compile_dictionary(&parsed);
    let verbs = vec![("拿", 0x20), ("查", 0x10)];
    let nouns = vec![("咖啡", 0x0A42), ("茶", 0x0A43)];
    assert_eq!(rom, compile_rom(&verbs, &nouns));
    let fst = FstEngine::new(Box::leak(rom.into_boxed_slice()));
    assert!(fst.validate_rom());
    assert_eq!(
        fst.parse_stream("請查茶".as_bytes()),
        Some(CompressedIntent { opcode: 0x10, payload_id: 0x0A43 })
    );
}

#[test]
fn later_line_wins_for_a_repeated_word() {
    let parsed = parse_dictionary("VERB,a,01\nNOUN,b,02\nVERB,a,03");
    let rom = compile_dictionary(&parsed);
    let fst = FstEngine::new(Box::leak(rom.into_boxed_slice()));
    assert_eq!(
        fst.parse_stream(b"ab"),
        Some(CompressedIntent { opcode: 0x03, payload_id: 0x0002 })
    );
}

#[test]
fn empty_word_is_never_seen() {
    let parsed = parse_dictionary("VERB,,0x05\nNOUN,b,0x02");
    assert_eq!(
        views(&parsed),
        vec![entry("", Some(0x05), None), entry("b", None, Some(0x02))]
    );
    let rom = compile_dictionary(&parsed);
    let fst = FstEngine::new(Box::leak(rom.into_boxed_slice()));
    assert_eq!(fst.parse_stream(b"b"), None);
    assert_eq!(fst.parse_stream(b"xbx"), None);
}
