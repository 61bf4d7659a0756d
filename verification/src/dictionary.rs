//! What a dictionary means for text, stated over the words themselves: the automaton
//! state after some text is the longest ending of the text that begins a word.
use vstd::prelude::*;
use vstd::string::StringSliceAdditionalSpecFns;

use crate::rom::{latest, CompressedIntent};

verus! {

/// `p` begins one of `words`.
pub open spec fn is_word_prefix(words: Seq<Seq<u8>>, p: Seq<u8>) -> bool {
    exists|w: int| 0 <= w < words.len() && p.is_prefix_of(#[trigger] words[w])
}

/// `p` is a node of the dictionary's trie: empty, or the beginning of some word.
pub open spec fn in_trie(words: Seq<Seq<u8>>, p: Seq<u8>) -> bool {
    p.len() == 0 || is_word_prefix(words, p)
}

/// The last `k` bytes of `t`.
pub open spec fn last_bytes(t: Seq<u8>, k: int) -> Seq<u8> {
    t.subrange(t.len() - k, t.len() as int)
}

/// The length of the longest ending of `t`, at most `k` bytes long, that is a trie node.
pub open spec fn match_len(words: Seq<Seq<u8>>, t: Seq<u8>, k: int) -> int
    decreases k,
{
    if k <= 0 {
        0
    } else if in_trie(words, last_bytes(t, k)) {
        k
    } else {
        match_len(words, t, k - 1)
    }
}

/// The state of the dictionary automaton after the text `t`: the longest ending of `t`
/// that is a trie node.
pub open spec fn dict_state(words: Seq<Seq<u8>>, t: Seq<u8>) -> Seq<u8> {
    last_bytes(t, match_len(words, t, t.len() as int))
}

/// The longest proper ending of a non-empty `p` that is a trie node: where a failure
/// link from the node of `p` leads.
pub open spec fn longest_proper_match(words: Seq<Seq<u8>>, p: Seq<u8>) -> Seq<u8> {
    last_bytes(p, match_len(words, p, p.len() - 1))
}

/// A dictionary entry as the compiler takes it: a word, with the operation code it
/// carries when it is a verb and the payload id it carries when it is a noun.
pub type Entry<'a> = (&'a str, Option<u8>, Option<u16>);

/// A dictionary entry seen as bytes: the word's UTF-8 bytes and its codes.
pub type WordEntry = (Seq<u8>, Option<u8>, Option<u16>);

/// The entries, with each word taken as its bytes.
pub open spec fn entries_as_bytes(entries: Seq<Entry>) -> Seq<WordEntry> {
    Seq::new(entries.len(), |i: int| (entries[i].0.spec_bytes(), entries[i].1, entries[i].2))
}

/// The words of a list of entries.
pub open spec fn entry_words(entries: Seq<WordEntry>) -> Seq<Seq<u8>> {
    Seq::new(entries.len(), |i: int| entries[i].0)
}

/// The operation code that the entries give to the word `w`: that of the last entry
/// spelled `w` that carries one.
pub open spec fn entry_opcode(entries: Seq<WordEntry>, w: Seq<u8>) -> Option<u8>
    decreases entries.len(),
{
    if entries.len() == 0 {
        None
    } else if entries.last().0 == w && entries.last().1 is Some {
        entries.last().1
    } else {
        entry_opcode(entries.drop_last(), w)
    }
}

/// The payload id that the entries give to the word `w`: that of the last entry
/// spelled `w` that carries one.
pub open spec fn entry_payload(entries: Seq<WordEntry>, w: Seq<u8>) -> Option<u16>
    decreases entries.len(),
{
    if entries.len() == 0 {
        None
    } else if entries.last().0 == w && entries.last().2 is Some {
        entries.last().2
    } else {
        entry_payload(entries.drop_last(), w)
    }
}

/// The entries of a dictionary given as verbs (word, operation code) and nouns
/// (word, payload id): the verbs first, then the nouns.
pub open spec fn verb_noun_entries(verbs: Seq<(&str, u8)>, nouns: Seq<(&str, u16)>) -> Seq<WordEntry> {
    Seq::new(verbs.len(), |i: int| (verbs[i].0.spec_bytes(), Some(verbs[i].1), None)) + Seq::new(
        nouns.len(),
        |i: int| (nouns[i].0.spec_bytes(), None, Some(nouns[i].1)),
    )
}

/// The operation code of the longest non-empty ending of `t`, at most `k` bytes long, to
/// which the entries give an operation code.
pub open spec fn ending_opcode(entries: Seq<WordEntry>, t: Seq<u8>, k: int) -> Option<u8>
    decreases k + 1,
{
    if k < 1 {
        None
    } else if entry_opcode(entries, last_bytes(t, k)) is Some {
        entry_opcode(entries, last_bytes(t, k))
    } else {
        ending_opcode(entries, t, k - 1)
    }
}

/// The payload id of the longest non-empty ending of `t`, at most `k` bytes long, to
/// which the entries give a payload id.
pub open spec fn ending_payload(entries: Seq<WordEntry>, t: Seq<u8>, k: int) -> Option<u16>
    decreases k + 1,
{
    if k < 1 {
        None
    } else if entry_payload(entries, last_bytes(t, k)) is Some {
        entry_payload(entries, last_bytes(t, k))
    } else {
        ending_payload(entries, t, k - 1)
    }
}

/// The outputs kept after the text `t`: at each byte every word that ends there is
/// seen, and the longest such word that carries an operation code (a payload id) gives
/// the code, which replaces the earlier one. An empty word is never seen.
pub open spec fn dict_outputs(entries: Seq<WordEntry>, t: Seq<u8>) -> (Option<u8>, Option<u16>)
    decreases t.len(),
{
    if t.len() == 0 {
        (None, None)
    } else {
        let prev = dict_outputs(entries, t.drop_last());
        let s = dict_state(entry_words(entries), t);
        if s.len() == 0 {
            prev
        } else {
            (
                latest(ending_opcode(entries, t, t.len() as int), prev.0),
                latest(ending_payload(entries, t, t.len() as int), prev.1),
            )
        }
    }
}

/// The intent that a dictionary finds in the text `t`: the latest operation code and
/// the latest payload id, when both were met.
pub open spec fn dictionary_parse(entries: Seq<WordEntry>, t: Seq<u8>) -> Option<CompressedIntent> {
    match dict_outputs(entries, t) {
        (Some(o), Some(p)) => Some(CompressedIntent { opcode: o, payload_id: p }),
        _ => None,
    }
}

/// Trie nodes are closed under taking prefixes.
pub proof fn lemma_in_trie_prefix(words: Seq<Seq<u8>>, s: Seq<u8>, b: u8)
    requires
        in_trie(words, s.push(b)),
    ensures
        in_trie(words, s),
{
    if s.len() > 0 {
        let w = choose|w: int| 0 <= w < words.len() && s.push(b).is_prefix_of(#[trigger] words[w]);
        assert(s.is_prefix_of(words[w]));
    }
}

/// `match_len` finds the longest ending, within its bound, that is a trie node.
pub proof fn lemma_match_len(words: Seq<Seq<u8>>, t: Seq<u8>, k: int)
    requires
        0 <= k <= t.len(),
    ensures
        0 <= match_len(words, t, k) <= k,
        in_trie(words, last_bytes(t, match_len(words, t, k))),
        forall|j: int| 0 <= j <= k && in_trie(words, #[trigger] last_bytes(t, j)) ==> j <= match_len(words, t, k),
    decreases k,
{
    if k > 0 {
        lemma_match_len(words, t, k - 1);
    } else {
        assert(last_bytes(t, 0).len() == 0);
    }
}

/// An ending of an ending of `t` is an ending of `t`.
pub proof fn lemma_last_bytes_nested(t: Seq<u8>, k: int, j: int)
    requires
        0 <= j <= k <= t.len(),
    ensures
        last_bytes(last_bytes(t, k), j) == last_bytes(t, j),
{
    assert(last_bytes(last_bytes(t, k), j) =~= last_bytes(t, j));
}

/// When `t2` is an ending of `t1` and no longer ending of `t1` is a trie node, both
/// texts leave the automaton in the same state.
pub proof fn lemma_same_state(words: Seq<Seq<u8>>, t1: Seq<u8>, t2: Seq<u8>)
    requires
        t2.len() <= t1.len(),
        t2 == last_bytes(t1, t2.len() as int),
        forall|j: int| t2.len() < j <= t1.len() ==> !in_trie(words, #[trigger] last_bytes(t1, j)),
    ensures
        dict_state(words, t1) == dict_state(words, t2),
{
    let n1 = t1.len() as int;
    let n2 = t2.len() as int;
    lemma_match_len(words, t1, n1);
    lemma_match_len(words, t2, n2);
    let m1 = match_len(words, t1, n1);
    let m2 = match_len(words, t2, n2);
    lemma_last_bytes_nested(t1, n2, m2);
    assert(m2 <= m1);
    assert(m1 <= n2);
    lemma_last_bytes_nested(t1, n2, m1);
    assert(m1 <= m2);
}

/// The state after one more byte depends only on the state before it.
pub proof fn lemma_state_step(words: Seq<Seq<u8>>, t: Seq<u8>, b: u8)
    ensures
        dict_state(words, t.push(b)) == dict_state(words, dict_state(words, t).push(b)),
{
    let n = t.len() as int;
    lemma_match_len(words, t, n);
    let m = match_len(words, t, n);
    let q = dict_state(words, t);
    let tb = t.push(b);
    assert(q.push(b) =~= last_bytes(tb, m + 1));
    assert forall|j: int| m + 1 < j <= tb.len() implies !in_trie(words, #[trigger] last_bytes(tb, j)) by {
        if in_trie(words, last_bytes(tb, j)) {
            let s = last_bytes(t, j - 1);
            assert(last_bytes(tb, j) =~= s.push(b));
            lemma_in_trie_prefix(words, s, b);
        }
    }
    lemma_same_state(words, tb, q.push(b));
}

/// When `p` followed by `b` is no trie node, the state after them is the state after
/// the longest proper match of `p` followed by `b`.
pub proof fn lemma_state_falls_back(words: Seq<Seq<u8>>, p: Seq<u8>, b: u8)
    requires
        p.len() > 0,
        !in_trie(words, p.push(b)),
    ensures
        dict_state(words, p.push(b)) == dict_state(words, longest_proper_match(words, p).push(b)),
{
    let n = p.len() as int;
    lemma_match_len(words, p, n - 1);
    let m = match_len(words, p, n - 1);
    let r = longest_proper_match(words, p);
    let pb = p.push(b);
    assert(r.push(b) =~= last_bytes(pb, m + 1));
    assert forall|j: int| m + 1 < j <= pb.len() implies !in_trie(words, #[trigger] last_bytes(pb, j)) by {
        if in_trie(words, last_bytes(pb, j)) {
            if j < pb.len() {
                let s = last_bytes(p, j - 1);
                assert(last_bytes(pb, j) =~= s.push(b));
                lemma_in_trie_prefix(words, s, b);
            } else {
                assert(last_bytes(pb, j) =~= pb);
            }
        }
    }
    lemma_same_state(words, pb, r.push(b));
}

/// The longest proper match of `p` followed by `b` is the state after the longest
/// proper match of `p` followed by `b`.
pub proof fn lemma_proper_match_step(words: Seq<Seq<u8>>, p: Seq<u8>, b: u8)
    requires
        p.len() > 0,
    ensures
        longest_proper_match(words, p.push(b)) == dict_state(words, longest_proper_match(words, p).push(b)),
{
    let n = p.len() as int;
    lemma_match_len(words, p, n - 1);
    let m = match_len(words, p, n - 1);
    let r = longest_proper_match(words, p);
    let pb = p.push(b);
    let pbs = pb.drop_first();
    // the proper endings of p + b are the endings of (p + b) without its first byte
    assert(pbs.len() == n);
    assert forall|k: int| 0 <= k <= n implies #[trigger] last_bytes(pbs, k) == last_bytes(pb, k) by {
        assert(last_bytes(pbs, k) =~= last_bytes(pb, k));
    }
    lemma_match_len(words, pb, n);
    lemma_match_len(words, pbs, n);
    assert(match_len(words, pb, n) == match_len(words, pbs, n)) by {
        let a = match_len(words, pb, n);
        let c = match_len(words, pbs, n);
        assert(last_bytes(pbs, a) == last_bytes(pb, a));
        assert(last_bytes(pbs, c) == last_bytes(pb, c));
    }
    assert(longest_proper_match(words, pb) == dict_state(words, pbs));
    let ps = p.drop_first();
    assert(pbs =~= ps.push(b));
    // the state after p without its first byte is the longest proper match of p
    assert forall|k: int| 0 <= k <= n - 1 implies #[trigger] last_bytes(ps, k) == last_bytes(p, k) by {
        assert(last_bytes(ps, k) =~= last_bytes(p, k));
    }
    lemma_match_len(words, ps, n - 1);
    assert(match_len(words, ps, n - 1) == m) by {
        let c = match_len(words, ps, n - 1);
        assert(last_bytes(ps, c) == last_bytes(p, c));
        assert(last_bytes(ps, m) == last_bytes(p, m));
    }
    assert(dict_state(words, ps) == r);
    lemma_state_step(words, ps, b);
}

/// A word that the entries give a code to is a trie node.
pub proof fn lemma_coded_in_trie(entries: Seq<WordEntry>, w: Seq<u8>)
    requires
        entry_opcode(entries, w) is Some || entry_payload(entries, w) is Some,
    ensures
        in_trie(entry_words(entries), w),
    decreases entries.len(),
{
    let words = entry_words(entries);
    if entries.last().0 == w && (entries.last().1 is Some || entries.last().2 is Some) {
        assert(words[entries.len() - 1] == w);
        assert(w.is_prefix_of(words[entries.len() - 1]));
    } else {
        lemma_coded_in_trie(entries.drop_last(), w);
        let ws = entry_words(entries.drop_last());
        if w.len() > 0 {
            let j = choose|j: int| 0 <= j < ws.len() && w.is_prefix_of(#[trigger] ws[j]);
            assert(ws[j] == words[j]);
        }
    }
}

/// The coded endings of an ending of `t` are those of `t`, up to its length.
pub proof fn lemma_ending_nested(entries: Seq<WordEntry>, t: Seq<u8>, k: int, j: int)
    requires
        -1 <= j <= k <= t.len(),
    ensures
        ending_opcode(entries, last_bytes(t, k), j) == ending_opcode(entries, t, j),
        ending_payload(entries, last_bytes(t, k), j) == ending_payload(entries, t, j),
    decreases j + 1,
{
    if j >= 0 {
        lemma_last_bytes_nested(t, k, j);
        lemma_ending_nested(entries, t, k, j - 1);
    }
}

/// Endings of `t` longer than `m` bytes that are no trie nodes carry no codes.
pub proof fn lemma_ending_skip(entries: Seq<WordEntry>, t: Seq<u8>, k: int, m: int)
    requires
        -1 <= m <= k <= t.len(),
        forall|j: int| m < j <= k ==> !in_trie(entry_words(entries), #[trigger] last_bytes(t, j)),
    ensures
        ending_opcode(entries, t, k) == ending_opcode(entries, t, m),
        ending_payload(entries, t, k) == ending_payload(entries, t, m),
    decreases k - m,
{
    if k > m {
        let e = last_bytes(t, k);
        if entry_opcode(entries, e) is Some || entry_payload(entries, e) is Some {
            lemma_coded_in_trie(entries, e);
        }
        lemma_ending_skip(entries, t, k - 1, m);
    }
}

/// The codes of the endings of `t` are those of the endings of its state: longer
/// endings are no trie nodes.
pub proof fn lemma_ending_of_state(entries: Seq<WordEntry>, t: Seq<u8>)
    ensures
        ({
            let s = dict_state(entry_words(entries), t);
            &&& ending_opcode(entries, t, t.len() as int) == ending_opcode(entries, s, s.len() as int)
            &&& ending_payload(entries, t, t.len() as int) == ending_payload(entries, s, s.len() as int)
        }),
{
    let words = entry_words(entries);
    let n = t.len() as int;
    lemma_match_len(words, t, n);
    let m = match_len(words, t, n);
    lemma_ending_skip(entries, t, n, m);
    lemma_ending_nested(entries, t, m, m);
}

/// The codes of the endings of a non-empty `p` shorter than `p` are those of the
/// endings of its longest proper match.
pub proof fn lemma_ending_of_proper_match(entries: Seq<WordEntry>, p: Seq<u8>)
    requires
        p.len() > 0,
    ensures
        ({
            let q = longest_proper_match(entry_words(entries), p);
            &&& ending_opcode(entries, p, p.len() - 1) == ending_opcode(entries, q, q.len() as int)
            &&& ending_payload(entries, p, p.len() - 1) == ending_payload(entries, q, q.len() as int)
        }),
{
    let words = entry_words(entries);
    let n = p.len() as int;
    lemma_match_len(words, p, n - 1);
    let m = match_len(words, p, n - 1);
    lemma_ending_skip(entries, p, n - 1, m);
    lemma_ending_nested(entries, p, m, m);
}

/// A word that the entries give a code to is one of their words.
pub proof fn lemma_coded_is_word(entries: Seq<WordEntry>, w: Seq<u8>)
    requires
        entry_opcode(entries, w) is Some || entry_payload(entries, w) is Some,
    ensures
        exists|i: int| 0 <= i < entries.len() && #[trigger] entry_words(entries)[i] == w,
    decreases entries.len(),
{
    let words = entry_words(entries);
    if entries.last().0 == w && (entries.last().1 is Some || entries.last().2 is Some) {
        assert(words[entries.len() - 1] == w);
    } else {
        lemma_coded_is_word(entries.drop_last(), w);
        let ws = entry_words(entries.drop_last());
        let i = choose|i: int| 0 <= i < entries.drop_last().len() && #[trigger] ws[i] == w;
        assert(ws[i] == words[i]);
    }
}

} // verus!
