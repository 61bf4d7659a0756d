//! The text form of a dictionary: one entry per line, `KIND,WORD,CODE`.
//!
//! Lines are trimmed of white space; empty lines and lines that start with `#` are
//! skipped, and so are lines with fewer than three comma-separated fields. KIND (trimmed)
//! is `VERB`, whose CODE is an operation code (one byte), or `NOUN`, whose CODE is a
//! payload id (two bytes); CODE is hexadecimal, after any leading `0x` is taken off. An
//! entry whose CODE does not read as such a number, or whose KIND is neither, is skipped.
use vstd::prelude::*;
use vstd::string::StrSliceExecFns;
use vstd::utf8::encode_utf8;

use crate::compiler::{compile_entries, total_len, word_lookup};
use crate::dictionary::{
    dictionary_parse, entries_as_bytes, entry_opcode, entry_payload, entry_words, Entry, WordEntry,
};
use crate::rom::{rom_well_formed, spec_halts, spec_parse};

verus! {

broadcast use vstd::string::group_string_axioms;

/// Whether `c` has the Unicode White_Space property, which `char::is_whitespace` tests:
/// U+0009 to U+000D, U+0020, U+0085, U+00A0, U+1680, U+2000 to U+200A, U+2028, U+2029,
/// U+202F, U+205F and U+3000.
pub open spec fn is_white_space(c: char) -> bool {
    let v = c as u32;
    ||| 0x09 <= v <= 0x0D
    ||| v == 0x20
    ||| v == 0x85
    ||| v == 0xA0
    ||| v == 0x1680
    ||| 0x2000 <= v <= 0x200A
    ||| v == 0x2028
    ||| v == 0x2029
    ||| v == 0x202F
    ||| v == 0x205F
    ||| v == 0x3000
}

/// `char::is_whitespace`: whether `c` has the Unicode White_Space property.
#[verifier::external_body]
fn char_is_whitespace(c: char) -> (r: bool)
    ensures
        r == is_white_space(c),
{
    c.is_whitespace()
}

/// The value of a hexadecimal digit (`0`-`9`, `a`-`f`, `A`-`F`).
pub open spec fn hex_digit(c: char) -> Option<int> {
    let v = c as u32;
    if 0x30 <= v <= 0x39 {
        Some(v - 0x30)
    } else if 0x61 <= v <= 0x66 {
        Some(v - 0x61 + 10)
    } else if 0x41 <= v <= 0x46 {
        Some(v - 0x41 + 10)
    } else {
        None
    }
}

/// The value of a sequence of hexadecimal digits (zero for none).
pub open spec fn hex_digits_value(s: Seq<char>) -> Option<int>
    decreases s.len(),
{
    if s.len() == 0 {
        Some(0)
    } else {
        match (hex_digits_value(s.drop_last()), hex_digit(s.last())) {
            (Some(v), Some(d)) => Some(16 * v + d),
            _ => None,
        }
    }
}

/// The number that `s` spells in base 16: an optional `+`, then one or more digits.
pub open spec fn hex_number(s: Seq<char>) -> Option<int> {
    let digits = if s.len() > 0 && s[0] == '+' {
        s.drop_first()
    } else {
        s
    };
    if digits.len() == 0 {
        None
    } else {
        hex_digits_value(digits)
    }
}

/// `u8::from_str_radix(s, 16)`, as an option: the number `s` spells in base 16, when it
/// is below 256.
#[verifier::external_body]
fn parse_hex_u8(s: &str) -> (r: Option<u8>)
    ensures
        r == (if hex_number(s@) is Some && hex_number(s@)->0 < 0x100 {
            Some(hex_number(s@)->0 as u8)
        } else {
            None::<u8>
        }),
{
    u8::from_str_radix(s, 16).ok()
}

/// `u16::from_str_radix(s, 16)`, as an option: the number `s` spells in base 16, when it
/// is below 65536.
#[verifier::external_body]
fn parse_hex_u16(s: &str) -> (r: Option<u16>)
    ensures
        r == (if hex_number(s@) is Some && hex_number(s@)->0 < 0x10000 {
            Some(hex_number(s@)->0 as u16)
        } else {
            None::<u16>
        }),
{
    u16::from_str_radix(s, 16).ok()
}

/// `s` without the white space at its start.
pub open spec fn trim_start(s: Seq<char>) -> Seq<char>
    decreases s.len(),
{
    if s.len() > 0 && is_white_space(s[0]) {
        trim_start(s.drop_first())
    } else {
        s
    }
}

/// `s` without the white space at its end.
pub open spec fn trim_end(s: Seq<char>) -> Seq<char>
    decreases s.len(),
{
    if s.len() > 0 && is_white_space(s.last()) {
        trim_end(s.drop_last())
    } else {
        s
    }
}

/// `s` without the white space at either end.
pub open spec fn trim(s: Seq<char>) -> Seq<char> {
    trim_end(trim_start(s))
}

/// `s` without any `0x` at its start.
pub open spec fn strip_hex_prefixes(s: Seq<char>) -> Seq<char>
    decreases s.len(),
{
    if s.len() >= 2 && s[0] == '0' && s[1] == 'x' {
        strip_hex_prefixes(s.skip(2))
    } else {
        s
    }
}

/// The position of the first `c` in `s`, or the length of `s` when there is none.
pub open spec fn index_of(s: Seq<char>, c: char) -> int
    decreases s.len(),
{
    if s.len() == 0 {
        0
    } else if s[0] == c {
        0
    } else {
        1 + index_of(s.drop_first(), c)
    }
}

/// The entry that one line gives, if any: the word, with its operation code for a
/// verb, or its payload id for a noun.
pub open spec fn parse_line(line: Seq<char>) -> Option<(Seq<char>, Option<u8>, Option<u16>)> {
    let t = trim(line);
    if t.len() == 0 || t[0] == '#' {
        None
    } else {
        let i1 = index_of(t, ',');
        let r1 = t.skip(i1 + 1);
        let i2 = index_of(r1, ',');
        let r2 = r1.skip(i2 + 1);
        let i3 = index_of(r2, ',');
        let kind = trim(t.take(i1));
        let word = trim(r1.take(i2));
        let code = strip_hex_prefixes(trim(r2.take(i3)));
        if i1 >= t.len() || i2 >= r1.len() {
            None
        } else if kind == seq!['V', 'E', 'R', 'B'] {
            if hex_number(code) is Some && hex_number(code)->0 < 0x100 {
                Some((word, Some(hex_number(code)->0 as u8), None))
            } else {
                None
            }
        } else if kind == seq!['N', 'O', 'U', 'N'] {
            if hex_number(code) is Some && hex_number(code)->0 < 0x10000 {
                Some((word, None, Some(hex_number(code)->0 as u16)))
            } else {
                None
            }
        } else {
            None
        }
    }
}

/// The entries of a dictionary text, line by line (lines end at `\n`).
pub open spec fn parse_text(s: Seq<char>) -> Seq<(Seq<char>, Option<u8>, Option<u16>)>
    decreases s.len(),
{
    let i = index_of(s, '\n');
    let here = match parse_line(s.take(i)) {
        Some(e) => seq![e],
        None => Seq::empty(),
    };
    if i >= s.len() {
        here
    } else {
        proof {
            lemma_index_of_bounds(s, '\n');
        }
        here + parse_text(s.skip(i + 1))
    }
}

/// An entry of a dictionary text.
pub struct DictionaryEntry {
    pub word: String,
    pub opcode: Option<u8>,
    pub payload_id: Option<u16>,
}

/// An entry seen as its word's characters and its codes.
pub open spec fn entry_view(e: DictionaryEntry) -> (Seq<char>, Option<u8>, Option<u16>) {
    (e.word@, e.opcode, e.payload_id)
}

/// Where `index_of` can land.
pub proof fn lemma_index_of_bounds(s: Seq<char>, c: char)
    ensures
        0 <= index_of(s, c) <= s.len(),
        index_of(s, c) < s.len() ==> s[index_of(s, c)] == c,
    decreases s.len(),
{
    if s.len() > 0 && s[0] != c {
        lemma_index_of_bounds(s.drop_first(), c);
    }
}

fn collect_chars(text: &str) -> (r: Vec<char>)
    ensures
        r@ == text@,
{
    let mut chars: Vec<char> = Vec::new();
    for c in it: text.chars()
        invariant
            chars@ == it.seq().take(it.index() as int),
    {
        chars.push(c);
    }
    chars
}

/// The first position of `c` in `chars[from..to]`, or `to`.
fn find_char(chars: &Vec<char>, c: char, from: usize, to: usize) -> (r: usize)
    requires
        from <= to <= chars@.len(),
    ensures
        from <= r <= to,
        r - from == index_of(chars@.subrange(from as int, to as int), c),
{
    let mut k = from;
    while k < to && chars[k] != c
        invariant
            from <= k <= to <= chars@.len(),
            index_of(chars@.subrange(from as int, to as int), c) == (k - from) + index_of(
                chars@.subrange(k as int, to as int),
                c,
            ),
        decreases to - k,
    {
        assert(chars@.subrange(k as int, to as int).drop_first() =~= chars@.subrange(k + 1, to as int));
        k += 1;
    }
    k
}

/// The bounds of `chars[from..to]` without the white space at either end.
fn trim_range(chars: &Vec<char>, from: usize, to: usize) -> (r: (usize, usize))
    requires
        from <= to <= chars@.len(),
    ensures
        from <= r.0 <= r.1 <= to,
        trim(chars@.subrange(from as int, to as int)) == chars@.subrange(r.0 as int, r.1 as int),
{
    let mut a = from;
    while a < to && char_is_whitespace(chars[a])
        invariant
            from <= a <= to <= chars@.len(),
            trim_start(chars@.subrange(from as int, to as int)) == trim_start(
                chars@.subrange(a as int, to as int),
            ),
        decreases to - a,
    {
        assert(chars@.subrange(a as int, to as int).drop_first() =~= chars@.subrange(a + 1, to as int));
        a += 1;
    }
    let mut b = to;
    while b > a && char_is_whitespace(chars[b - 1])
        invariant
            from <= a <= b <= to <= chars@.len(),
            trim_end(chars@.subrange(a as int, to as int)) == trim_end(chars@.subrange(a as int, b as int)),
        decreases b - a,
    {
        assert(chars@.subrange(a as int, b as int).drop_last() =~= chars@.subrange(a as int, b - 1));
        b -= 1;
    }
    (a, b)
}

/// Whether `chars[from..to]` spells the four characters `w`.
fn range_is(chars: &Vec<char>, from: usize, to: usize, w: [char; 4]) -> (r: bool)
    requires
        from <= to <= chars@.len(),
    ensures
        r == (chars@.subrange(from as int, to as int) == seq![w[0], w[1], w[2], w[3]]),
{
    let ghost s = chars@.subrange(from as int, to as int);
    let ghost k = seq![w[0], w[1], w[2], w[3]];
    if to - from != 4 {
        assert(s.len() != k.len());
        return false;
    }
    let mut i: usize = 0;
    while i < 4
        invariant
            i <= 4,
            to - from == 4,
            from <= to <= chars@.len(),
            s == chars@.subrange(from as int, to as int),
            k == seq![w[0], w[1], w[2], w[3]],
            forall|j: int| 0 <= j < i ==> s[j] == k[j],
        decreases 4 - i,
    {
        if chars[from + i] != w[i] {
            assert(s[i as int] != k[i as int]);
            return false;
        }
        i += 1;
    }
    assert(s =~= k);
    true
}

/// The entry that the line `chars[from..to]` gives, if any.
fn parse_line_at(text: &str, chars: &Vec<char>, from: usize, to: usize) -> (r: Option<DictionaryEntry>)
    requires
        chars@ == text@,
        from <= to <= chars@.len(),
    ensures
        match r {
            Some(e) => parse_line(chars@.subrange(from as int, to as int)) == Some(entry_view(e)),
            None => parse_line(chars@.subrange(from as int, to as int)) is None,
        },
{
    let ghost line = chars@.subrange(from as int, to as int);
    let (a, b) = trim_range(chars, from, to);
    let ghost t = chars@.subrange(a as int, b as int);
    if a == b || chars[a] == '#' {
        return None;
    }
    let c1 = find_char(chars, ',', a, b);
    if c1 >= b {
        return None;
    }
    let c2 = find_char(chars, ',', c1 + 1, b);
    proof {
        assert(t.skip(c1 - a + 1) =~= chars@.subrange(c1 + 1, b as int));
    }
    if c2 >= b {
        return None;
    }
    let c3 = find_char(chars, ',', c2 + 1, b);
    proof {
        let r1 = chars@.subrange(c1 + 1, b as int);
        assert(r1.skip(c2 - (c1 + 1) + 1) =~= chars@.subrange(c2 + 1, b as int));
        assert(t.take(c1 - a) =~= chars@.subrange(a as int, c1 as int));
        assert(r1.take(c2 - (c1 + 1)) =~= chars@.subrange(c1 + 1, c2 as int));
        assert(chars@.subrange(c2 + 1, b as int).take(c3 - (c2 + 1)) =~= chars@.subrange(
            c2 + 1,
            c3 as int,
        ));
    }
    let (ka, kb) = trim_range(chars, a, c1);
    let (wa, wb) = trim_range(chars, c1 + 1, c2);
    let (ca, cb) = trim_range(chars, c2 + 1, c3);
    let mut s = ca;
    while cb - s >= 2 && chars[s] == '0' && chars[s + 1] == 'x'
        invariant
            ca <= s <= cb <= chars@.len(),
            strip_hex_prefixes(chars@.subrange(ca as int, cb as int)) == strip_hex_prefixes(
                chars@.subrange(s as int, cb as int),
            ),
        decreases cb - s,
    {
        assert(chars@.subrange(s as int, cb as int).skip(2) =~= chars@.subrange(s + 2, cb as int));
        s += 2;
    }
    let code = text.substring_char(s, cb);
    let word = text.substring_char(wa, wb).to_owned();
    if range_is(chars, ka, kb, ['V', 'E', 'R', 'B']) {
        match parse_hex_u8(code) {
            Some(op) => Some(DictionaryEntry { word, opcode: Some(op), payload_id: None }),
            None => None,
        }
    } else if range_is(chars, ka, kb, ['N', 'O', 'U', 'N']) {
        match parse_hex_u16(code) {
            Some(id) => Some(DictionaryEntry { word, opcode: None, payload_id: Some(id) }),
            None => None,
        }
    } else {
        None
    }
}

/// The entries of a dictionary seen as their views.
pub open spec fn entry_views(entries: Seq<DictionaryEntry>) -> Seq<(Seq<char>, Option<u8>, Option<u16>)> {
    Seq::new(entries.len(), |i: int| entry_view(entries[i]))
}

/// Reads a dictionary text: each line that is an entry gives one, in order.
pub fn parse_dictionary(text: &str) -> (entries: Vec<DictionaryEntry>)
    ensures
        entry_views(entries@) == parse_text(text@),
        forall|i: int|
            0 <= i < entries@.len() && (#[trigger] entries@[i]).word@.len() > 0 ==> !is_white_space(
                entries@[i].word@[0],
            ) && !is_white_space(entries@[i].word@.last()),
{
    let chars = collect_chars(text);
    let n = chars.len();
    let mut out: Vec<DictionaryEntry> = Vec::new();
    let mut pos: usize = 0;
    proof {
        assert(text@.skip(0) =~= text@);
        assert(entry_views(out@) + parse_text(text@) =~= parse_text(text@));
    }
    loop
        invariant_except_break
            pos <= n,
            entry_views(out@) + parse_text(text@.skip(pos as int)) == parse_text(text@),
        invariant
            n == chars@.len(),
            chars@ == text@,
        ensures
            entry_views(out@) == parse_text(text@),
        decreases n - pos,
    {
        let ghost rest = text@.skip(pos as int);
        let ghost before = out@;
        let e = find_char(&chars, '\n', pos, n);
        proof {
            assert(chars@.subrange(pos as int, n as int) =~= rest);
            assert(rest.take(e - pos) =~= chars@.subrange(pos as int, e as int));
        }
        match parse_line_at(text, &chars, pos, e) {
            Some(entry) => {
                out.push(entry);
                proof {
                    assert(entry_views(out@) =~= entry_views(before).push(entry_view(entry)));
                }
            },
            None => {
                assert(out@ == before);
            },
        }
        if e >= n {
            proof {
                assert(entry_views(before) + parse_text(rest) == parse_text(text@));
                assert(entry_views(out@) =~= entry_views(before) + parse_text(rest));
            }
            break;
        }
        proof {
            assert(rest.skip(e - pos + 1) =~= text@.skip(e + 1));
            let here = match parse_line(rest.take(e - pos)) {
                Some(x) => seq![x],
                None => Seq::empty(),
            };
            assert(parse_text(rest) == here + parse_text(text@.skip(e + 1)));
            assert(entry_views(out@) =~= entry_views(before) + here);
            assert(entry_views(out@) + parse_text(text@.skip(e + 1)) =~= entry_views(before) + (here
                + parse_text(text@.skip(e + 1))));
        }
        pos = e + 1;
    }
    proof {
        lemma_parsed_words_trimmed(text@);
        assert forall|i: int|
            0 <= i < out@.len() && (#[trigger] out@[i]).word@.len() > 0 implies !is_white_space(
                out@[i].word@[0],
            ) && !is_white_space(out@[i].word@.last()) by {
            assert(entry_views(out@)[i] == entry_view(out@[i]));
        }
    }
    out
}

/// The entries of a dictionary, each word taken as its UTF-8 bytes.
pub open spec fn dictionary_entries(entries: Seq<DictionaryEntry>) -> Seq<WordEntry> {
    Seq::new(
        entries.len(),
        |i: int| (encode_utf8(entries[i].word@), entries[i].opcode, entries[i].payload_id),
    )
}

/// Compiles the entries of a dictionary, in order, into a ROM image; where a word is
/// given twice, the later code wins.
pub fn compile_dictionary(entries: &[DictionaryEntry]) -> (rom: Vec<u8>)
    requires
        (1 + total_len(entry_words(dictionary_entries(entries@)))) * 775 <= usize::MAX,
    ensures
        rom_well_formed(rom@),
        rom@.len() <= 10 * (1 + total_len(entry_words(dictionary_entries(entries@)))),
        rom@.len() <= 0x10000 ==> forall|input: Seq<u8>| spec_halts(rom@, input),
        rom@.len() <= 0x10000 ==> forall|input: Seq<u8>|
            #[trigger] spec_parse(rom@, input) == dictionary_parse(dictionary_entries(entries@), input),
        rom@.len() <= 0x10000 ==> forall|k: int|
            0 <= k < entries@.len() ==> #[trigger] word_lookup(
                rom@,
                entry_words(dictionary_entries(entries@))[k],
            ) == Some(
                (
                    entry_opcode(dictionary_entries(entries@), entry_words(dictionary_entries(entries@))[k]),
                    entry_payload(
                        dictionary_entries(entries@),
                        entry_words(dictionary_entries(entries@))[k],
                    ),
                ),
            ),
{
    let ghost target = dictionary_entries(entries@);
    let mut list: Vec<Entry> = Vec::new();
    let mut i: usize = 0;
    proof {
        assert(entries_as_bytes(list@) =~= target.take(0));
    }
    while i < entries.len()
        invariant
            i <= entries.len(),
            target == dictionary_entries(entries@),
            entries_as_bytes(list@) == target.take(i as int),
            list@.len() == i,
        decreases entries.len() - i,
    {
        let e = &entries[i];
        list.push((e.word.as_str(), e.opcode, e.payload_id));
        proof {
            assert(entries_as_bytes(list@) =~= target.take(i + 1));
        }
        i += 1;
    }
    proof {
        assert(entries_as_bytes(list@) =~= target);
    }
    compile_entries(&list)
}

/// What `trim_start` leaves does not start with white space and ends where `s` ends.
pub proof fn lemma_trim_start_facts(s: Seq<char>)
    ensures
        trim_start(s).len() <= s.len(),
        trim_start(s) == s.skip(s.len() - trim_start(s).len()),
        trim_start(s).len() > 0 ==> !is_white_space(trim_start(s)[0]),
    decreases s.len(),
{
    if s.len() > 0 && is_white_space(s[0]) {
        lemma_trim_start_facts(s.drop_first());
        assert(s.drop_first().skip(s.drop_first().len() - trim_start(s).len()) =~= s.skip(
            s.len() - trim_start(s).len(),
        ));
    } else {
        assert(s.skip(0) =~= s);
    }
}

/// What `trim_end` leaves does not end with white space and starts where `s` starts.
pub proof fn lemma_trim_end_facts(s: Seq<char>)
    ensures
        trim_end(s).len() <= s.len(),
        trim_end(s) == s.take(trim_end(s).len() as int),
        trim_end(s).len() > 0 ==> !is_white_space(trim_end(s).last()),
    decreases s.len(),
{
    if s.len() > 0 && is_white_space(s.last()) {
        lemma_trim_end_facts(s.drop_last());
        assert(s.drop_last().take(trim_end(s).len() as int) =~= s.take(trim_end(s).len() as int));
    } else {
        assert(s.take(s.len() as int) =~= s);
    }
}

/// A trimmed field neither starts nor ends with white space, of any kind.
pub proof fn lemma_trim_has_no_white_ends(s: Seq<char>)
    ensures
        trim(s).len() > 0 ==> !is_white_space(trim(s)[0]) && !is_white_space(trim(s).last()),
{
    let u = trim_start(s);
    lemma_trim_start_facts(s);
    lemma_trim_end_facts(u);
    if trim(s).len() > 0 {
        assert(trim(s)[0] == u[0]);
    }
}

/// Every entry that a dictionary text gives has a word that neither starts nor ends
/// with white space: each field is trimmed of every White_Space character.
pub proof fn lemma_parsed_words_trimmed(s: Seq<char>)
    ensures
        forall|i: int|
            0 <= i < parse_text(s).len() && (#[trigger] parse_text(s)[i]).0.len() > 0 ==> !is_white_space(
                parse_text(s)[i].0[0],
            ) && !is_white_space(parse_text(s)[i].0.last()),
    decreases s.len(),
{
    let i = index_of(s, '\n');
    lemma_index_of_bounds(s, '\n');
    let line = s.take(i);
    let t = trim(line);
    if !(t.len() == 0 || t[0] == '#') {
        let i1 = index_of(t, ',');
        let r1 = t.skip(i1 + 1);
        let i2 = index_of(r1, ',');
        lemma_trim_has_no_white_ends(r1.take(i2));
    }
    if i < s.len() {
        lemma_parsed_words_trimmed(s.skip(i + 1));
        let here = match parse_line(line) {
            Some(e) => seq![e],
            None => Seq::empty(),
        };
        assert forall|k: int|
            0 <= k < parse_text(s).len() && (#[trigger] parse_text(s)[k]).0.len() > 0 implies !is_white_space(
                parse_text(s)[k].0[0],
            ) && !is_white_space(parse_text(s)[k].0.last()) by {
            if k >= here.len() {
                assert(parse_text(s)[k] == parse_text(s.skip(i + 1))[k - here.len()]);
            }
        }
    }
}

/// The sixteen hexadecimal digits, in order of value.
pub open spec fn hex_digit_chars() -> Seq<char> {
    seq!['0', '1', '2', '3', '4', '5', '6', '7', '8', '9', 'a', 'b', 'c', 'd', 'e', 'f']
}

/// The byte `n` written as two hexadecimal digits.
pub open spec fn hex_byte(n: u8) -> Seq<char> {
    seq![hex_digit_chars()[(n as int) / 16], hex_digit_chars()[(n as int) % 16]]
}

/// The 16-bit number `n` written as four hexadecimal digits.
pub open spec fn hex_word(n: u16) -> Seq<char> {
    seq![
        hex_digit_chars()[(n as int) / 4096],
        hex_digit_chars()[((n as int) / 256) % 16],
        hex_digit_chars()[((n as int) / 16) % 16],
        hex_digit_chars()[(n as int) % 16],
    ]
}

/// The line `KIND,WORD,CODE` with no further white space.
pub open spec fn entry_line(kind: Seq<char>, w: Seq<char>, code: Seq<char>) -> Seq<char> {
    kind + seq![','] + w + seq![','] + code
}

proof fn lemma_hex_digit_char(d: int)
    requires
        0 <= d < 16,
    ensures
        hex_digit(hex_digit_chars()[d]) == Some(d),
{
    let h = hex_digit_chars();
    assert(d == 0 || d == 1 || d == 2 || d == 3 || d == 4 || d == 5 || d == 6 || d == 7 || d == 8 || d == 9
        || d == 10 || d == 11 || d == 12 || d == 13 || d == 14 || d == 15);
}

/// A hexadecimal digit is no white space, no comma, no line end, no sign and no `x`.
proof fn lemma_hex_char_plain(c: char)
    requires
        hex_digit(c) is Some,
    ensures
        !is_white_space(c),
        c != ',',
        c != '\n',
        c != '+',
        c != 'x',
        c != '#',
{
}

proof fn lemma_index_of_concat(a: Seq<char>, b: Seq<char>, c: char)
    requires
        forall|i: int| 0 <= i < a.len() ==> a[i] != c,
    ensures
        index_of(a + b, c) == a.len() + index_of(b, c),
    decreases a.len(),
{
    if a.len() > 0 {
        assert((a + b).drop_first() =~= a.drop_first() + b);
        lemma_index_of_concat(a.drop_first(), b, c);
    } else {
        assert(a + b =~= b);
    }
}

/// A line `VERB,w,code` or `NOUN,w,code`, with `code` made of hexadecimal digits and `w`
/// holding no comma and no white space at its ends, gives the entry for `w` exactly when
/// the code's value fits the kind.
proof fn lemma_entry_line(is_verb: bool, w: Seq<char>, code: Seq<char>)
    requires
        forall|i: int| 0 <= i < w.len() ==> w[i] != ',',
        w.len() > 0 ==> !is_white_space(w[0]) && !is_white_space(w.last()),
        code.len() > 0,
        forall|i: int| 0 <= i < code.len() ==> #[trigger] hex_digit(code[i]) is Some,
    ensures
        ({
            let kind = if is_verb { seq!['V', 'E', 'R', 'B'] } else { seq!['N', 'O', 'U', 'N'] };
            let v = hex_digits_value(code)->0;
            &&& hex_number(code) == hex_digits_value(code)
            &&& hex_digits_value(code) is Some
            &&& parse_line(entry_line(kind, w, code)) == if is_verb {
                if v < 0x100 {
                    Some((w, Some(v as u8), None::<u16>))
                } else {
                    None
                }
            } else {
                if v < 0x10000 {
                    Some((w, None::<u8>, Some(v as u16)))
                } else {
                    None
                }
            }
        }),
{
    let kind = if is_verb { seq!['V', 'E', 'R', 'B'] } else { seq!['N', 'O', 'U', 'N'] };
    let line = entry_line(kind, w, code);
    assert forall|i: int| 0 <= i < code.len() implies !is_white_space(#[trigger] code[i]) && code[i] != ','
        && code[i] != '+' && code[i] != 'x' by {
        lemma_hex_char_plain(code[i]);
    }
    lemma_hex_digits_some(code);
    // the line is already trimmed
    assert(line[0] == kind[0]);
    assert(line.last() == code.last());
    assert(trim_start(line) == line);
    assert(trim_end(line) == line);
    assert(trim(line) == line);
    // the first comma follows the kind
    let r1 = w + seq![','] + code;
    assert(line =~= kind + (seq![','] + r1));
    lemma_index_of_concat(kind, seq![','] + r1, ',');
    assert(index_of(seq![','] + r1, ',') == 0);
    assert(index_of(line, ',') == 4);
    assert(line.skip(5) =~= r1);
    assert(line.take(4) =~= kind);
    assert(trim_start(kind) == kind);
    assert(trim_end(kind) == kind);
    // the second comma follows the word
    assert(r1 =~= w + (seq![','] + code));
    lemma_index_of_concat(w, seq![','] + code, ',');
    assert(index_of(seq![','] + code, ',') == 0);
    assert(r1.skip(w.len() + 1int) =~= code);
    assert(r1.take(w.len() as int) =~= w);
    assert(trim_start(w) == w);
    assert(trim_end(w) == w);
    // the code runs to the end of the line
    assert(code =~= code + Seq::<char>::empty());
    lemma_index_of_concat(code, Seq::<char>::empty(), ',');
    assert(code.take(code.len() as int) =~= code);
    assert(trim_start(code) == code);
    assert(trim_end(code) == code);
    assert(strip_hex_prefixes(code) == code);
}

proof fn lemma_hex_digits_some(code: Seq<char>)
    requires
        forall|i: int| 0 <= i < code.len() ==> #[trigger] hex_digit(code[i]) is Some,
    ensures
        hex_digits_value(code) is Some,
        code.len() > 0 ==> hex_number(code) == hex_digits_value(code),
    decreases code.len(),
{
    if code.len() > 0 {
        lemma_hex_digits_some(code.drop_last());
        assert(hex_digit(code[code.len() - 1]) is Some);
        assert(hex_digit(code[0]) is Some);
        lemma_hex_char_plain(code[0]);
    }
}

/// A line with no line end in it gives what `parse_line` gives for it, and nothing more.
proof fn lemma_single_line(line: Seq<char>)
    requires
        forall|i: int| 0 <= i < line.len() ==> line[i] != '\n',
    ensures
        parse_text(line) == match parse_line(line) {
            Some(e) => seq![e],
            None => Seq::empty(),
        },
{
    assert(line =~= line + Seq::<char>::empty());
    lemma_index_of_concat(line, Seq::<char>::empty(), '\n');
    assert(line.take(line.len() as int) =~= line);
}

/// The characters of a line `KIND,w,code` whose word and code hold no line end hold none.
proof fn lemma_entry_line_one_line(kind: Seq<char>, w: Seq<char>, code: Seq<char>)
    requires
        kind == seq!['V', 'E', 'R', 'B'] || kind == seq!['N', 'O', 'U', 'N'],
        forall|i: int| 0 <= i < w.len() ==> w[i] != '\n',
        forall|i: int| 0 <= i < code.len() ==> #[trigger] hex_digit(code[i]) is Some,
    ensures
        forall|i: int| 0 <= i < entry_line(kind, w, code).len() ==> entry_line(kind, w, code)[i] != '\n',
{
    let line = entry_line(kind, w, code);
    assert forall|i: int| 0 <= i < line.len() implies line[i] != '\n' by {
        if i >= kind.len() + 1 + w.len() + 1 {
            let j = i - (kind.len() + 1 + w.len() + 1);
            assert(line[i] == code[j]);
            lemma_hex_char_plain(code[j]);
        } else if kind.len() < i < kind.len() + 1 + w.len() {
            assert(line[i] == w[i - kind.len() - 1]);
        }
    }
}

/// Every byte is a valid operation code: for every word `w` with no comma, no line end
/// and no white space at its ends, and every byte `n`, the line `VERB,w,hh`, where `hh`
/// writes `n` in two hexadecimal digits, gives exactly the one entry `(w, Some(n), None)`.
pub proof fn lemma_verb_line_any_byte(w: Seq<char>, n: u8)
    requires
        forall|i: int| 0 <= i < w.len() ==> w[i] != ',' && w[i] != '\n',
        w.len() > 0 ==> !is_white_space(w[0]) && !is_white_space(w.last()),
    ensures
        parse_text(entry_line(seq!['V', 'E', 'R', 'B'], w, hex_byte(n))) == seq![
            (w, Some(n), None::<u16>),
        ],
{
    let code = hex_byte(n);
    let hi = (n as int) / 16;
    let lo = (n as int) % 16;
    lemma_hex_digit_char(hi);
    lemma_hex_digit_char(lo);
    assert(code.drop_last() =~= seq![code[0]]);
    assert(seq![code[0]].drop_last() =~= Seq::<char>::empty());
    assert(hex_digits_value(Seq::<char>::empty()) == Some(0int));
    assert(seq![code[0]].last() == code[0]);
    assert(hex_digit(code[0]) == Some(hi));
    assert(hex_digit(code[1]) == Some(lo));
    assert(hex_digits_value(seq![code[0]]) == Some(hi));
    assert(hex_digits_value(code) == Some(16 * hi + lo));
    assert forall|i: int| 0 <= i < code.len() implies #[trigger] hex_digit(code[i]) is Some by {}
    lemma_entry_line(true, w, code);
    lemma_entry_line_one_line(seq!['V', 'E', 'R', 'B'], w, code);
    lemma_single_line(entry_line(seq!['V', 'E', 'R', 'B'], w, code));
}

/// Every 16-bit number is a valid payload id: for every word `w` with no comma, no line
/// end and no white space at its ends, and every `n` below 0x10000, the line
/// `NOUN,w,hhhh`, where `hhhh` writes `n` in four hexadecimal digits, gives exactly the
/// one entry `(w, None, Some(n))`.
pub proof fn lemma_noun_line_any_id(w: Seq<char>, n: u16)
    requires
        forall|i: int| 0 <= i < w.len() ==> w[i] != ',' && w[i] != '\n',
        w.len() > 0 ==> !is_white_space(w[0]) && !is_white_space(w.last()),
    ensures
        parse_text(entry_line(seq!['N', 'O', 'U', 'N'], w, hex_word(n))) == seq![
            (w, None::<u8>, Some(n)),
        ],
{
    let code = hex_word(n);
    let d0 = (n as int) / 4096;
    let d1 = ((n as int) / 256) % 16;
    let d2 = ((n as int) / 16) % 16;
    let d3 = (n as int) % 16;
    lemma_hex_digit_char(d0);
    lemma_hex_digit_char(d1);
    lemma_hex_digit_char(d2);
    lemma_hex_digit_char(d3);
    let c1 = seq![code[0]];
    let c2 = seq![code[0], code[1]];
    let c3 = seq![code[0], code[1], code[2]];
    assert(c1.drop_last() =~= Seq::<char>::empty());
    assert(c2.drop_last() =~= c1);
    assert(c3.drop_last() =~= c2);
    assert(code.drop_last() =~= c3);
    assert(hex_digits_value(Seq::<char>::empty()) == Some(0int));
    assert(hex_digit(code[0]) == Some(d0));
    assert(hex_digit(code[1]) == Some(d1));
    assert(hex_digit(code[2]) == Some(d2));
    assert(hex_digit(code[3]) == Some(d3));
    assert(c1.last() == code[0]);
    assert(c2.last() == code[1]);
    assert(c3.last() == code[2]);
    assert(hex_digits_value(c1) == Some(d0));
    assert(hex_digits_value(c2) == Some(16 * d0 + d1));
    assert(hex_digits_value(c3) == Some(16 * (16 * d0 + d1) + d2));
    assert(hex_digits_value(code) == Some(16 * (16 * (16 * d0 + d1) + d2) + d3));
    assert(16 * (16 * (16 * d0 + d1) + d2) + d3 == n) by (nonlinear_arith)
        requires
            d0 == (n as int) / 4096,
            d1 == ((n as int) / 256) % 16,
            d2 == ((n as int) / 16) % 16,
            d3 == (n as int) % 16,
            0 <= n < 0x10000,
    ;
    assert forall|i: int| 0 <= i < code.len() implies #[trigger] hex_digit(code[i]) is Some by {}
    lemma_entry_line(false, w, code);
    lemma_entry_line_one_line(seq!['N', 'O', 'U', 'N'], w, code);
    lemma_single_line(entry_line(seq!['N', 'O', 'U', 'N'], w, code));
}

} // verus!
