//! Properties of the automaton that hold for every ROM image and every input.
use vstd::prelude::*;

use crate::rom::{spec_byte_step, spec_find_transition, spec_halts, spec_parse, spec_run, step_budget, CompressedIntent};
use crate::translator::{spec_decode, NOT_FOUND};
use crate::dictionary::{
    dict_outputs, dict_state, ending_opcode, ending_payload, entry_opcode, entry_payload, entry_words,
    last_bytes, lemma_coded_in_trie, lemma_coded_is_word, lemma_last_bytes_nested, lemma_match_len,
    match_len, WordEntry,
};

verus! {

/// Empty input yields no intent, whatever the ROM, and its run ends.
pub proof fn lemma_empty_input_yields_nothing(rom: Seq<u8>)
    ensures
        spec_halts(rom, Seq::<u8>::empty()),
        spec_parse(rom, Seq::<u8>::empty()) is None,
        spec_decode(rom, Seq::<u8>::empty()) == Err::<CompressedIntent, u8>(NOT_FOUND),
{
}

/// An empty ROM yields no intent, whatever the input, and its run ends.
pub proof fn lemma_empty_rom_yields_nothing(input: Seq<u8>)
    ensures
        spec_halts(Seq::<u8>::empty(), input),
        spec_parse(Seq::<u8>::empty(), input) is None,
        spec_decode(Seq::<u8>::empty(), input) == Err::<CompressedIntent, u8>(NOT_FOUND),
{
}

/// The run over `a + c` depends on `a` only through the run state after `a`:
/// two inputs that leave the engine in the same state are treated alike from then on.
pub proof fn lemma_run_depends_on_state_only(rom: Seq<u8>, a1: Seq<u8>, a2: Seq<u8>, c: Seq<u8>)
    requires
        spec_run(rom, a1) == spec_run(rom, a2),
    ensures
        spec_run(rom, a1 + c) == spec_run(rom, a2 + c),
    decreases c.len(),
{
    if c.len() == 0 {
        assert(a1 + c =~= a1);
        assert(a2 + c =~= a2);
    } else {
        lemma_run_depends_on_state_only(rom, a1, a2, c.drop_last());
        assert((a1 + c).drop_last() =~= a1 + c.drop_last());
        assert((a2 + c).drop_last() =~= a2 + c.drop_last());
    }
}

/// Once a run has aborted (a read fell outside the ROM) or diverged, more input
/// changes nothing: the input as a whole yields no intent.
pub proof fn lemma_settled_run_is_final(rom: Seq<u8>, a: Seq<u8>, c: Seq<u8>)
    requires
        !(spec_run(rom, a) is Active),
    ensures
        spec_run(rom, a + c) == spec_run(rom, a),
        spec_parse(rom, a + c) is None,
    decreases c.len(),
{
    if c.len() == 0 {
        assert(a + c =~= a);
    } else {
        lemma_settled_run_is_final(rom, a, c.drop_last());
        assert((a + c).drop_last() =~= a + c.drop_last());
    }
}

/// A run that ends on some input ends on each of its prefixes.
pub proof fn lemma_halts_on_prefix(rom: Seq<u8>, a: Seq<u8>, c: Seq<u8>)
    requires
        spec_halts(rom, a + c),
    ensures
        spec_halts(rom, a),
{
    if rom.len() != 0 && spec_run(rom, a) is Diverged {
        lemma_settled_run_is_final(rom, a, c);
    }
}

/// The latest output wins: when the last byte leads into a record that carries an
/// operation code (a payload id), that code (id) is the one the run keeps.
pub proof fn lemma_latest_output_wins(rom: Seq<u8>, a: Seq<u8>, b: u8)
    requires
        spec_run(rom, a) is Active,
        spec_byte_step(rom, spec_run(rom, a)->state, b, step_budget(rom)) is Moved,
    ensures
        ({
            let step = spec_byte_step(rom, spec_run(rom, a)->state, b, step_budget(rom));
            let after = spec_run(rom, a.push(b));
            &&& after is Active
            &&& after->state == step->next
            &&& (step->Moved_opcode is Some ==> after->opcode == step->Moved_opcode)
            &&& (step->Moved_payload is Some ==> after->payload == step->Moved_payload)
            &&& (step->Moved_opcode is None ==> after->opcode == spec_run(rom, a)->opcode)
            &&& (step->Moved_payload is None ==> after->payload == spec_run(rom, a)->payload)
        }),
{
    assert(a.push(b).drop_last() =~= a);
}

/// A byte with no transition out of the root leaves a run at the root where it is,
/// and leaves the outputs met so far unchanged.
pub proof fn lemma_unmatched_byte_at_root(rom: Seq<u8>, a: Seq<u8>, b: u8)
    requires
        0 < rom.len(),
        spec_run(rom, a) is Active,
        spec_run(rom, a)->state == 0,
        spec_find_transition(rom, 0, b) is None,
    ensures
        spec_run(rom, a.push(b)) == spec_run(rom, a),
{
    assert(a.push(b).drop_last() =~= a);
}

/// `decode` answers with the intent exactly when the engine finds one, and with
/// `NOT_FOUND` otherwise.
pub proof fn lemma_decode_agrees_with_parse(rom: Seq<u8>, input: Seq<u8>)
    ensures
        spec_decode(rom, input) is Ok <==> spec_parse(rom, input) is Some,
        spec_decode(rom, input) is Err ==> spec_decode(rom, input) == Err::<CompressedIntent, u8>(NOT_FOUND),
        spec_parse(rom, input) matches Some(i) ==> spec_decode(rom, input) == Ok::<CompressedIntent, u8>(i),
{
}

/// Some ending of `t`, at most `k` bytes long, carries an operation code (a payload id)
/// exactly when the longest coded ending is there.
proof fn lemma_ending_found(entries: Seq<WordEntry>, t: Seq<u8>, k: int, j: int)
    requires
        1 <= j <= k,
    ensures
        entry_opcode(entries, last_bytes(t, j)) is Some ==> ending_opcode(entries, t, k) is Some,
        entry_payload(entries, last_bytes(t, j)) is Some ==> ending_payload(entries, t, k) is Some,
    decreases k - j,
{
    if j < k {
        lemma_ending_found(entries, t, k - 1, j);
    }
}

/// Every word that ends where the text ends is seen, also one that ends inside a longer
/// match: when some non-empty ending of `t` carries an operation code (a payload id),
/// the code kept after `t` is that of the longest ending of `t` that carries one.
pub proof fn lemma_every_ending_word_is_seen(entries: Seq<WordEntry>, t: Seq<u8>, k: int)
    requires
        1 <= k <= t.len(),
    ensures
        entry_opcode(entries, last_bytes(t, k)) is Some ==> {
            &&& ending_opcode(entries, t, t.len() as int) is Some
            &&& dict_outputs(entries, t).0 == ending_opcode(entries, t, t.len() as int)
        },
        entry_payload(entries, last_bytes(t, k)) is Some ==> {
            &&& ending_payload(entries, t, t.len() as int) is Some
            &&& dict_outputs(entries, t).1 == ending_payload(entries, t, t.len() as int)
        },
{
    let w = last_bytes(t, k);
    let words = entry_words(entries);
    if entry_opcode(entries, w) is Some || entry_payload(entries, w) is Some {
        lemma_coded_in_trie(entries, w);
        lemma_match_len(words, t, t.len() as int);
        assert(k <= match_len(words, t, t.len() as int));
        assert(dict_state(words, t).len() > 0);
        lemma_ending_found(entries, t, t.len() as int, k);
    }
}

/// No word of the entries is a proper non-empty ending of another of their words (so
/// in particular none lies inside another).
pub open spec fn no_word_ends_another(entries: Seq<WordEntry>) -> bool {
    let words = entry_words(entries);
    forall|i: int, j: int|
        0 <= i < words.len() && 0 <= j < words.len() && 0 < words[i].len() < words[j].len() ==> last_bytes(
            #[trigger] words[j],
            words[i].len() as int,
        ) != #[trigger] words[i]
}

/// Where no word ends another, the coded ending of `t` that is `k` bytes long is the
/// only coded ending from `k` up to `m` bytes long.
proof fn lemma_single_coded_ending(entries: Seq<WordEntry>, t: Seq<u8>, m: int, k: int)
    requires
        no_word_ends_another(entries),
        1 <= k <= m <= t.len(),
    ensures
        entry_opcode(entries, last_bytes(t, k)) is Some ==> ending_opcode(entries, t, m) == entry_opcode(
            entries,
            last_bytes(t, k),
        ),
        entry_payload(entries, last_bytes(t, k)) is Some ==> ending_payload(entries, t, m)
            == entry_payload(entries, last_bytes(t, k)),
    decreases m - k,
{
    let wk = last_bytes(t, k);
    if m > k && (entry_opcode(entries, wk) is Some || entry_payload(entries, wk) is Some) {
        let wm = last_bytes(t, m);
        if entry_opcode(entries, wm) is Some || entry_payload(entries, wm) is Some {
            let words = entry_words(entries);
            lemma_coded_is_word(entries, wk);
            lemma_coded_is_word(entries, wm);
            let a = choose|i: int| 0 <= i < entries.len() && #[trigger] words[i] == wk;
            let c = choose|i: int| 0 <= i < entries.len() && #[trigger] words[i] == wm;
            lemma_last_bytes_nested(t, m, k);
            assert(last_bytes(words[c], words[a].len() as int) == words[a]);
            assert(false);
        }
        lemma_single_coded_ending(entries, t, m - 1, k);
    }
}

/// Without a coded ending of `t`, no code is found among its endings.
proof fn lemma_no_coded_ending(entries: Seq<WordEntry>, t: Seq<u8>, m: int)
    requires
        m <= t.len(),
        forall|k: int| 1 <= k <= t.len() ==> #[trigger] entry_opcode(entries, last_bytes(t, k)) is None,
    ensures
        ending_opcode(entries, t, m) is None,
    decreases m + 1,
{
    if m >= 1 {
        lemma_no_coded_ending(entries, t, m - 1);
    }
}

/// Without an ending of `t` that carries a payload id, none is found among its endings.
proof fn lemma_no_paid_ending(entries: Seq<WordEntry>, t: Seq<u8>, m: int)
    requires
        m <= t.len(),
        forall|k: int| 1 <= k <= t.len() ==> #[trigger] entry_payload(entries, last_bytes(t, k)) is None,
    ensures
        ending_payload(entries, t, m) is None,
    decreases m + 1,
{
    if m >= 1 {
        lemma_no_paid_ending(entries, t, m - 1);
    }
}

/// Where no word lies inside another, the intent keeps the verb and the noun whose
/// occurrences end last: once a word that carries an operation code (a payload id) ends,
/// its code is the one kept.
pub proof fn lemma_last_occurrence_wins(entries: Seq<WordEntry>, t: Seq<u8>, k: int)
    requires
        no_word_ends_another(entries),
        1 <= k <= t.len(),
    ensures
        entry_opcode(entries, last_bytes(t, k)) is Some ==> dict_outputs(entries, t).0 == entry_opcode(
            entries,
            last_bytes(t, k),
        ),
        entry_payload(entries, last_bytes(t, k)) is Some ==> dict_outputs(entries, t).1 == entry_payload(
            entries,
            last_bytes(t, k),
        ),
{
    lemma_every_ending_word_is_seen(entries, t, k);
    lemma_single_coded_ending(entries, t, t.len() as int, k);
}

/// A byte at which no word carrying an operation code (a payload id) ends keeps the
/// code kept before it.
pub proof fn lemma_no_ending_word_keeps_codes(entries: Seq<WordEntry>, t: Seq<u8>)
    requires
        t.len() > 0,
    ensures
        (forall|k: int| 1 <= k <= t.len() ==> #[trigger] entry_opcode(entries, last_bytes(t, k)) is None)
            ==> dict_outputs(entries, t).0 == dict_outputs(entries, t.drop_last()).0,
        (forall|k: int| 1 <= k <= t.len() ==> #[trigger] entry_payload(entries, last_bytes(t, k)) is None)
            ==> dict_outputs(entries, t).1 == dict_outputs(entries, t.drop_last()).1,
{
    if forall|k: int| 1 <= k <= t.len() ==> #[trigger] entry_opcode(entries, last_bytes(t, k)) is None {
        lemma_no_coded_ending(entries, t, t.len() as int);
    }
    if forall|k: int| 1 <= k <= t.len() ==> #[trigger] entry_payload(entries, last_bytes(t, k)) is None {
        lemma_no_paid_ending(entries, t, t.len() as int);
    }
}

} // verus!
