//! The dictionary compiler: verbs and nouns in, a ROM image out.
//!
//! The words are gathered into a trie, each node gets a failure link (the node of the
//! longest proper suffix of its path that is also in the trie, found breadth first),
//! and the nodes are laid out one after another in the record format of `crate::rom`.
use vstd::prelude::*;
use vstd::string::StringSliceAdditionalSpecFns;
use vstd::utf8::{
    encode_scalar, encode_utf8, last_continuation_byte, leading_byte_width_1, leading_byte_width_2,
    leading_byte_width_3, leading_byte_width_4, second_last_continuation_byte,
    third_last_continuation_byte,
};

use crate::dictionary::{
    dict_outputs, dict_state, dictionary_parse, entry_opcode, entry_payload, entry_words, in_trie,
    entries_as_bytes, is_word_prefix, last_bytes, verb_noun_entries, Entry, WordEntry,
    lemma_match_len, lemma_proper_match_step, lemma_state_falls_back, lemma_state_step,
    longest_proper_match, match_len, ending_opcode, ending_payload, lemma_ending_of_proper_match,
    lemma_ending_of_state,
};
use crate::rom::{
    entry_target, fail_field, has_opcode, has_payload, latest, le_u16, records_well_formed, rom_well_formed,
    spec_byte_step, spec_fail_state, spec_find_transition, spec_gather, spec_halts, spec_outputs, spec_parse,
    spec_run, spec_scan, step_budget, targets_in_range, ByteStep, Walk,
};

verus! {

/// The child that a transition list leads to on byte `b`.
pub open spec fn edge_target(t: Seq<(u8, usize)>, b: u8) -> Option<usize> {
    if exists|k: int| 0 <= k < t.len() && t[k].0 == b {
        Some(t[choose|k: int| 0 <= k < t.len() && t[k].0 == b].1)
    } else {
        None
    }
}

/// Some node of the trie has the path `p`.
pub open spec fn has_node(paths: Seq<Seq<u8>>, p: Seq<u8>) -> bool {
    exists|i: int| 0 <= i < paths.len() && #[trigger] paths[i] == p
}

/// Every prefix of every word has a node.
pub open spec fn prefixes_present(paths: Seq<Seq<u8>>, words: Seq<Seq<u8>>) -> bool {
    forall|w: int, k: int|
        0 <= w < words.len() && 0 <= k <= words[w].len() ==> has_node(paths, #[trigger] words[w].take(k))
}

/// Some element of `q` before position `h` is `x`.
pub open spec fn queued_before(q: Seq<usize>, h: int, x: int) -> bool {
    exists|j: int| 0 <= j < h && #[trigger] q[j] as int == x
}

/// The low byte of a 16-bit number.
pub open spec fn low_byte(v: u16) -> u8 {
    (v % 256) as u8
}

/// The high byte of a 16-bit number.
pub open spec fn high_byte(v: u16) -> u8 {
    (v / 256) as u8
}

/// Every byte extends `p` to the beginning of some word.
pub open spec fn all_bytes_continue(words: Seq<Seq<u8>>, p: Seq<u8>) -> bool {
    forall|b: u8| is_word_prefix(words, #[trigger] p.push(b))
}

/// Some prefix of the words can be continued by all 256 bytes: its trie node would need
/// 256 transitions, more than the one-byte count of a record can hold.
pub open spec fn saturated(words: Seq<Seq<u8>>) -> bool {
    exists|p: Seq<u8>| all_bytes_continue(words, p)
}

/// The total number of bytes in a list of words.
pub open spec fn total_len(words: Seq<Seq<u8>>) -> int
    decreases words.len(),
{
    if words.len() == 0 {
        0
    } else {
        total_len(words.drop_last()) + words.last().len()
    }
}

/// The first entry of a transition list, from position `k` on, that carries byte `b`.
pub open spec fn find_from(t: Seq<(u8, usize)>, k: int, b: u8) -> Option<usize>
    decreases t.len() - k,
{
    if k < 0 || k >= t.len() {
        None
    } else if t[k].0 == b {
        Some(t[k].1)
    } else {
        find_from(t, k + 1, b)
    }
}

/// The outputs of the record that a run over `w`, from the root, ends on.
pub open spec fn word_lookup(rom: Seq<u8>, w: Seq<u8>) -> Option<(Option<u8>, Option<u16>)> {
    match spec_run(rom, w) {
        Walk::Active { state, .. } => spec_outputs(rom, state),
        _ => None,
    }
}

/// The bytes of a transition list strictly increase.
pub open spec fn sorted_bytes(t: Seq<(u8, usize)>) -> bool {
    forall|j: int, k: int| 0 <= j < k < t.len() ==> t[j].0 < t[k].0
}

proof fn lemma_edge_target_at(t: Seq<(u8, usize)>, k: int)
    requires
        sorted_bytes(t),
        0 <= k < t.len(),
    ensures
        edge_target(t, t[k].0) == Some(t[k].1),
{
    let j = choose|j: int| 0 <= j < t.len() && t[j].0 == t[k].0;
    if j < k {
        assert(t[j].0 < t[k].0);
    } else if k < j {
        assert(t[k].0 < t[j].0);
    }
}

proof fn lemma_insert_edge(t: Seq<(u8, usize)>, p: int, b: u8, c: usize)
    requires
        sorted_bytes(t),
        0 <= p <= t.len(),
        forall|j: int| 0 <= j < p ==> #[trigger] t[j].0 < b,
        forall|j: int| p <= j < t.len() ==> #[trigger] t[j].0 > b,
    ensures
        sorted_bytes(t.insert(p, (b, c))),
        edge_target(t.insert(p, (b, c)), b) == Some(c),
        forall|b2: u8| b2 != b ==> #[trigger] edge_target(t.insert(p, (b, c)), b2) == edge_target(t, b2),
{
    let t2 = t.insert(p, (b, c));
    assert(t2[p] == (b, c));
    lemma_edge_target_at(t2, p);
    assert forall|b2: u8| b2 != b implies #[trigger] edge_target(t2, b2) == edge_target(t, b2) by {
        if exists|k: int| 0 <= k < t.len() && t[k].0 == b2 {
            let k = choose|k: int| 0 <= k < t.len() && t[k].0 == b2;
            lemma_edge_target_at(t, k);
            let k2 = if k < p { k } else { k + 1 };
            assert(t2[k2] == t[k]);
            lemma_edge_target_at(t2, k2);
        } else {
            if exists|k: int| 0 <= k < t2.len() && t2[k].0 == b2 {
                let k = choose|k: int| 0 <= k < t2.len() && t2[k].0 == b2;
                if k < p {
                    assert(t[k] == t2[k]);
                } else if k > p {
                    assert(t[k - 1] == t2[k]);
                }
            }
        }
    }
}

/// In a list whose bytes strictly increase, bytes `k - j` places apart differ by at least `k - j`.
proof fn lemma_sorted_gap(t: Seq<(u8, usize)>, j: int, k: int)
    requires
        sorted_bytes(t),
        0 <= j <= k < t.len(),
    ensures
        t[k].0 - t[j].0 >= k - j,
    decreases k - j,
{
    if j < k {
        lemma_sorted_gap(t, j, k - 1);
        assert(t[k - 1].0 < t[k].0);
    }
}

/// A list whose bytes strictly increase has at most 256 entries, and with 256 entries
/// the `k`-th one carries the byte `k`.
proof fn lemma_sorted_len(t: Seq<(u8, usize)>)
    requires
        sorted_bytes(t),
    ensures
        t.len() <= 256,
        t.len() == 256 ==> forall|k: int| 0 <= k < 256 ==> #[trigger] t[k].0 == k,
{
    if t.len() > 0 {
        lemma_sorted_gap(t, 0, t.len() - 1);
    }
    if t.len() == 256 {
        assert forall|k: int| 0 <= k < 256 implies #[trigger] t[k].0 == k by {
            lemma_sorted_gap(t, 0, k);
            lemma_sorted_gap(t, k, 255);
        }
    }
}

proof fn lemma_find_from(t: Seq<(u8, usize)>, k: int, b: u8)
    requires
        sorted_bytes(t),
        0 <= k <= t.len(),
        forall|j: int| 0 <= j < k ==> #[trigger] t[j].0 != b,
    ensures
        find_from(t, k, b) == edge_target(t, b),
    decreases t.len() - k,
{
    if k < t.len() {
        if t[k].0 == b {
            lemma_edge_target_at(t, k);
        } else {
            lemma_find_from(t, k + 1, b);
        }
    } else {
        assert(!(exists|j: int| 0 <= j < t.len() && t[j].0 == b));
    }
}

proof fn lemma_entry_opcode_some(entries: Seq<WordEntry>, w: Seq<u8>)
    requires
        entry_opcode(entries, w) is Some,
    ensures
        exists|k: int| 0 <= k < entries.len() && #[trigger] entries[k].0 == w,
    decreases entries.len(),
{
    if entries.last().0 == w && entries.last().1 is Some {
        assert(entries[entries.len() - 1] == entries.last());
    } else {
        lemma_entry_opcode_some(entries.drop_last(), w);
        let k = choose|k: int| 0 <= k < entries.drop_last().len() && #[trigger] entries.drop_last()[k].0 == w;
        assert(entries[k] == entries.drop_last()[k]);
    }
}

proof fn lemma_entry_payload_some(entries: Seq<WordEntry>, w: Seq<u8>)
    requires
        entry_payload(entries, w) is Some,
    ensures
        exists|k: int| 0 <= k < entries.len() && #[trigger] entries[k].0 == w,
    decreases entries.len(),
{
    if entries.last().0 == w && entries.last().2 is Some {
        assert(entries[entries.len() - 1] == entries.last());
    } else {
        lemma_entry_payload_some(entries.drop_last(), w);
        let k = choose|k: int| 0 <= k < entries.drop_last().len() && #[trigger] entries.drop_last()[k].0 == w;
        assert(entries[k] == entries.drop_last()[k]);
    }
}

/// The number of transitions of the first `k` nodes.
spec fn edge_total(ts: Seq<Vec<(u8, usize)>>, k: int) -> int
    decreases k,
{
    if k <= 0 {
        0
    } else {
        edge_total(ts, k - 1) + ts[k - 1]@.len()
    }
}

/// One more transition at node `curr` counts once more among the nodes past it.
proof fn lemma_edge_total_add(a: Seq<Vec<(u8, usize)>>, b: Seq<Vec<(u8, usize)>>, curr: int, k: int)
    requires
        0 <= curr < a.len(),
        0 <= k <= a.len(),
        a.len() <= b.len(),
        b[curr]@.len() == a[curr]@.len() + 1,
        forall|i: int| 0 <= i < a.len() && i != curr ==> #[trigger] b[i]@.len() == a[i]@.len(),
    ensures
        edge_total(b, k) == edge_total(a, k) + (if curr < k { 1int } else { 0int }),
    decreases k,
{
    if k > 0 {
        lemma_edge_total_add(a, b, curr, k - 1);
    }
}

/// The trie under construction: per node its transitions, failure link and outputs,
/// with the path of bytes that leads to each node from the root and its parent.
struct TrieBuilder {
    transitions: Vec<Vec<(u8, usize)>>,
    fail: Vec<usize>,
    opcode: Vec<Option<u8>>,
    payload_id: Vec<Option<u16>>,
    paths: Ghost<Seq<Seq<u8>>>,
    parent: Ghost<Seq<int>>,
    words: Ghost<Seq<Seq<u8>>>,
}

impl TrieBuilder {
    #[verifier::inline]
    spec fn n(&self) -> int {
        self.transitions@.len() as int
    }

    #[verifier::inline]
    spec fn trans(&self, i: int) -> Seq<(u8, usize)> {
        self.transitions@[i]@
    }

    #[verifier::opaque]
    spec fn wf(&self) -> bool {
        let n = self.n();
        &&& n >= 1
        &&& self.fail@.len() == n
        &&& self.opcode@.len() == n
        &&& self.payload_id@.len() == n
        &&& self.paths@.len() == n
        &&& self.parent@.len() == n
        &&& self.paths@[0] == Seq::<u8>::empty()
        &&& forall|i: int| 0 <= i < n ==> sorted_bytes(#[trigger] self.trans(i))
        &&& forall|i: int, k: int|
            0 <= i < n && 0 <= k < self.trans(i).len() ==> {
                let e = #[trigger] self.trans(i)[k];
                &&& 0 < e.1 < n
                &&& self.paths@[e.1 as int] == self.paths@[i].push(e.0)
                &&& self.parent@[e.1 as int] == i
            }
        &&& forall|c: int|
            0 < c < n ==> {
                &&& 0 <= #[trigger] self.parent@[c] < n
                &&& self.paths@[c].len() > 0
                &&& self.paths@[self.parent@[c]] == self.paths@[c].drop_last()
                &&& edge_target(self.trans(self.parent@[c]), self.paths@[c].last()) == Some(
                    c as usize,
                )
            }
        &&& forall|i: int, j: int|
            0 <= i < n && 0 <= j < n && i != j ==> #[trigger] self.paths@[i] != #[trigger] self.paths@[j]
        &&& edge_total(self.transitions@, n) == n - 1
        &&& forall|i: int| 0 <= i < n ==> #[trigger] self.fail@[i] < n
        &&& forall|i: int|
            0 < i < n ==> self.paths@[self.fail@[i] as int].len() < #[trigger] self.paths@[i].len()
        &&& forall|c: int| 0 < c < n ==> is_word_prefix(self.words@, #[trigger] self.paths@[c])
    }

    fn new() -> (t: Self)
        ensures
            t.wf(),
            t.n() == 1,
            t.words@ == Seq::<Seq<u8>>::empty(),
            t.opcode@ == seq![None::<u8>],
            t.payload_id@ == seq![None::<u16>],
    {
        let mut transitions: Vec<Vec<(u8, usize)>> = Vec::new();
        transitions.push(Vec::new());
        let mut fail: Vec<usize> = Vec::new();
        fail.push(0);
        let mut opcode: Vec<Option<u8>> = Vec::new();
        opcode.push(None);
        let mut payload_id: Vec<Option<u16>> = Vec::new();
        payload_id.push(None);
        let ghost paths = seq![Seq::<u8>::empty()];
        let ghost parent = seq![0int];
        let ghost words = Seq::<Seq<u8>>::empty();
        let t = TrieBuilder {
            transitions,
            fail,
            opcode,
            payload_id,
            paths: Ghost(paths),
            parent: Ghost(parent),
            words: Ghost(words),
        };
        assert(t.trans(0) =~= Seq::<(u8, usize)>::empty());
        assert(edge_total(t.transitions@, 1) == edge_total(t.transitions@, 0) + t.trans(0).len());
        proof {
            reveal(TrieBuilder::wf);
        }
        t
    }

    /// The flags byte of node `i`: bit 0 for an operation code, bit 1 for a payload id.
    spec fn flags_of(&self, i: int) -> u8 {
        if self.opcode@[i] is Some {
            if self.payload_id@[i] is Some {
                3
            } else {
                1
            }
        } else if self.payload_id@[i] is Some {
            2
        } else {
            0
        }
    }

    /// The size of the record of node `i`.
    spec fn record_size(&self, i: int) -> int {
        1 + (if self.opcode@[i] is Some { 1int } else { 0int }) + (if self.payload_id@[i] is Some {
            2int
        } else {
            0int
        }) + 3 + 3 * self.trans(i).len()
    }

    /// Where the record of node `i` starts: the sizes of the records before it.
    spec fn layout_end(&self, i: int) -> int
        decreases i,
    {
        if i <= 0 {
            0
        } else {
            self.layout_end(i - 1) + self.record_size(i - 1)
        }
    }

    /// The stored form of a pointer to node `j`: its offset cut to 16 bits.
    spec fn ptr(&self, j: int) -> u16 {
        self.layout_end(j) as u16
    }

    /// The transition entries of a list: the byte, then the pointer to the target.
    spec fn entries_bytes(&self, t: Seq<(u8, usize)>) -> Seq<u8>
        decreases t.len(),
    {
        if t.len() == 0 {
            Seq::empty()
        } else {
            self.entries_bytes(t.drop_last()) + seq![
                t.last().0,
                low_byte(self.ptr(t.last().1 as int)),
                high_byte(self.ptr(t.last().1 as int)),
            ]
        }
    }

    /// The record of node `i`.
    spec fn record_bytes(&self, i: int) -> Seq<u8> {
        seq![self.flags_of(i)] + (match self.opcode@[i] {
            Some(o) => seq![o],
            None => Seq::empty(),
        }) + (match self.payload_id@[i] {
            Some(p) => seq![low_byte(p), high_byte(p)],
            None => Seq::empty(),
        }) + seq![
            low_byte(self.ptr(self.fail@[i] as int)),
            high_byte(self.ptr(self.fail@[i] as int)),
            self.trans(i).len() as u8,
        ] + self.entries_bytes(self.trans(i))
    }

    /// The records of nodes `0..i`, end to end.
    spec fn image(&self, i: int) -> Seq<u8>
        decreases i,
    {
        if i <= 0 {
            Seq::empty()
        } else {
            self.image(i - 1) + self.record_bytes(i - 1)
        }
    }

    proof fn lemma_edge_len(&self, i: int)
        requires
            self.wf(),
            0 <= i < self.n(),
        ensures
            self.trans(i).len() <= 256,
            self.record_size(i) <= 775,
    {
        reveal(TrieBuilder::wf);
        lemma_sorted_len(self.trans(i));
    }

    proof fn lemma_entries_len(&self, t: Seq<(u8, usize)>)
        ensures
            self.entries_bytes(t).len() == 3 * t.len(),
        decreases t.len(),
    {
        if t.len() > 0 {
            self.lemma_entries_len(t.drop_last());
        }
    }

    proof fn lemma_image_len(&self, i: int)
        requires
            0 <= i <= self.opcode@.len(),
            self.opcode@.len() == self.payload_id@.len(),
        ensures
            self.image(i).len() == self.layout_end(i),
        decreases i,
    {
        if i > 0 {
            self.lemma_image_len(i - 1);
            self.lemma_entries_len(self.trans(i - 1));
        }
    }

    proof fn lemma_layout_mono(&self, i: int, j: int)
        requires
            0 <= i <= j <= self.opcode@.len(),
            self.opcode@.len() == self.payload_id@.len(),
        ensures
            0 <= self.layout_end(i) <= self.layout_end(j),
            i < j ==> self.layout_end(i) + self.record_size(i) <= self.layout_end(j),
        decreases j - i,
    {
        if i < j {
            self.lemma_layout_mono(i, j - 1);
            if i < j - 1 {
                self.lemma_layout_mono(i + 1, j - 1);
            }
        } else {
            self.lemma_layout_nonneg(i);
        }
    }

    proof fn lemma_layout_nonneg(&self, i: int)
        ensures
            0 <= self.layout_end(i),
        decreases i,
    {
        if i > 0 {
            self.lemma_layout_nonneg(i - 1);
        }
    }

    proof fn lemma_entries_index(&self, t: Seq<(u8, usize)>, k: int)
        requires
            0 <= k < t.len(),
        ensures
            self.entries_bytes(t)[3 * k] == t[k].0,
            self.entries_bytes(t)[3 * k + 1] == low_byte(self.ptr(t[k].1 as int)),
            self.entries_bytes(t)[3 * k + 2] == high_byte(self.ptr(t[k].1 as int)),
        decreases t.len(),
    {
        self.lemma_entries_len(t.drop_last());
        if k < t.len() - 1 {
            self.lemma_entries_index(t.drop_last(), k);
        }
    }

    proof fn lemma_record_len(&self, i: int)
        requires
            0 <= i < self.opcode@.len(),
            self.opcode@.len() == self.payload_id@.len(),
        ensures
            self.record_bytes(i).len() == self.record_size(i),
    {
        self.lemma_entries_len(self.trans(i));
    }

    proof fn lemma_image_index(&self, j: int, i: int, x: int)
        requires
            0 <= i < j <= self.opcode@.len(),
            self.opcode@.len() == self.payload_id@.len(),
            0 <= x < self.record_size(i),
        ensures
            self.image(j)[self.layout_end(i) + x] == self.record_bytes(i)[x],
        decreases j,
    {
        self.lemma_image_len(j - 1);
        self.lemma_record_len(j - 1);
        if i < j - 1 {
            self.lemma_image_index(j - 1, i, x);
            self.lemma_layout_mono(i, j - 1);
        }
    }

    /// The image of a well-formed trie in which no node has 256 transitions is a
    /// well-formed ROM.
    proof fn lemma_image_well_formed(&self, i: int)
        requires
            self.wf(),
            0 <= i <= self.n(),
            forall|j: int| 0 <= j < self.n() ==> #[trigger] self.trans(j).len() < 256,
        ensures
            records_well_formed(self.image(self.n()), self.layout_end(i)),
        decreases self.n() - i,
    {
        self.lemma_wf_basics();
        let n = self.n();
        let img = self.image(n);
        self.lemma_image_len(n);
        self.lemma_layout_mono(i, n);
        if i < n {
            self.lemma_image_well_formed(i + 1);
            let pos = self.layout_end(i);
            let r = self.record_bytes(i);
            self.lemma_record_len(i);
            let op = if self.opcode@[i] is Some { 1int } else { 0int };
            let pay = if self.payload_id@[i] is Some { 2int } else { 0int };
            assert forall|x: int| 0 <= x < self.record_size(i) implies #[trigger] img[pos + x] == r[x] by {
                self.lemma_image_index(n, i, x);
            }
            // flags
            assert(img[pos + 0] == self.flags_of(i));
            assert(has_opcode(3u8) && has_payload(3u8)) by (bit_vector);
            assert(has_opcode(1u8) && !has_payload(1u8)) by (bit_vector);
            assert(!has_opcode(2u8) && has_payload(2u8)) by (bit_vector);
            assert(!has_opcode(0u8) && !has_payload(0u8)) by (bit_vector);
            let f = pos + 1 + op + pay;
            assert(fail_field(img, pos) == f);
            // the failure pointer
            self.lemma_fail_facts(i);
            let fp = self.ptr(self.fail@[i] as int);
            self.lemma_layout_mono(self.fail@[i] as int, n);
            assert(img[pos + (1 + op + pay)] == low_byte(fp));
            assert(img[pos + (1 + op + pay + 1)] == high_byte(fp));
            assert(le_u16(low_byte(fp), high_byte(fp)) == fp);
            assert((fp as int) < img.len());
            // the number of transitions
            self.lemma_edge_len(i);
            assert(img[pos + (1 + op + pay + 2)] == self.trans(i).len() as u8);
            let first = f + 3;
            let cnt = self.trans(i).len() as int;
            assert(img[f + 2] as int == cnt);
            assert(first + 3 * cnt == self.layout_end(i + 1));
            assert forall|k: int| 0 <= k < cnt implies #[trigger] entry_target(img, first, k) < img.len() by {
                let e = self.trans(i)[k];
                self.lemma_entries_index(self.trans(i), k);
                self.lemma_edge_facts(i, k);
                self.lemma_layout_mono(e.1 as int, n);
                let cp = self.ptr(e.1 as int);
                let x1 = (first - pos) + 3 * k + 1;
                let x2 = (first - pos) + 3 * k + 2;
                assert(img[pos + x1] == r[x1]);
                assert(img[pos + x2] == r[x2]);
                assert(pos + x1 == first + 3 * k + 1);
                assert(pos + x2 == first + 3 * k + 2);
                assert(le_u16(low_byte(cp), high_byte(cp)) == cp);
            }
            assert(targets_in_range(img, first, cnt));
        }
    }

    /// A node with 256 transitions shows that the words are saturated.
    proof fn lemma_full_node_saturates(&self, i: int)
        requires
            self.wf(),
            0 <= i < self.n(),
            self.trans(i).len() >= 256,
        ensures
            saturated(self.words@),
    {
        reveal(TrieBuilder::wf);
        let t = self.trans(i);
        lemma_sorted_len(t);
        let p = self.paths@[i];
        assert forall|b: u8| is_word_prefix(self.words@, #[trigger] p.push(b)) by {
            let k = b as int;
            assert(t[k].0 == b);
            let c = t[k].1 as int;
            assert(self.paths@[c] == p.push(b));
            assert(is_word_prefix(self.words@, self.paths@[c]));
        }
        assert(all_bytes_continue(self.words@, p));
    }

    /// Some node's record starts at `x`.
    spec fn node_at(&self, x: int) -> bool {
        exists|c: int| 0 <= c < self.n() && #[trigger] self.layout_end(c) == x
    }

    /// The `k`-th ancestor of node `i`.
    spec fn ancestor(&self, i: int, k: nat) -> int
        decreases k,
    {
        if k == 0 {
            i
        } else {
            self.ancestor(self.parent@[i], (k - 1) as nat)
        }
    }

    proof fn lemma_parent_facts(&self, c: int)
        requires
            self.wf(),
            0 < c < self.n(),
        ensures
            0 <= self.parent@[c] < self.n(),
            self.paths@[c].len() > 0,
            self.paths@[self.parent@[c]] == self.paths@[c].drop_last(),
            edge_target(self.trans(self.parent@[c]), self.paths@[c].last()) == Some(c as usize),
            exists|k: int|
                0 <= k < self.trans(self.parent@[c]).len() && #[trigger] self.trans(self.parent@[c])[k].0
                    == self.paths@[c].last() && self.trans(self.parent@[c])[k].1 as int == c,
    {
        reveal(TrieBuilder::wf);
        let t = self.trans(self.parent@[c]);
        let k = choose|k: int| 0 <= k < t.len() && t[k].0 == self.paths@[c].last();
        let e = t[k];
        assert(self.paths@[e.1 as int] == self.paths@[c]);
    }

    proof fn lemma_ancestor(&self, i: int, k: nat)
        requires
            self.wf(),
            0 <= i < self.n(),
            k <= self.paths@[i].len(),
        ensures
            0 <= self.ancestor(i, k) < self.n(),
            self.paths@[self.ancestor(i, k)].len() == self.paths@[i].len() - k,
        decreases k,
    {
        self.lemma_wf_basics();
        if k > 0 {
            if i == 0 {
                assert(self.paths@[0].len() == 0);
            }
            self.lemma_parent_facts(i);
            self.lemma_ancestor(self.parent@[i], (k - 1) as nat);
        }
    }

    /// A node's path is shorter than the number of nodes: each of its prefixes has a node.
    proof fn lemma_depth_bound(&self, i: int)
        requires
            self.wf(),
            0 <= i < self.n(),
        ensures
            self.paths@[i].len() < self.n(),
    {
        let d = self.paths@[i].len();
        let anc = Seq::new((d + 1) as nat, |k: int| self.ancestor(i, k as nat));
        assert forall|k: int| 0 <= k < anc.len() implies 0 <= #[trigger] anc[k] < self.n() by {
            self.lemma_ancestor(i, k as nat);
        }
        assert forall|k1: int, k2: int| 0 <= k1 < anc.len() && 0 <= k2 < anc.len() && k1 != k2 implies anc[k1]
            != anc[k2] by {
            self.lemma_ancestor(i, k1 as nat);
            self.lemma_ancestor(i, k2 as nat);
        }
        crate::counting::lemma_distinct_bounded(anc, self.n());
    }

    /// Every record takes at least four bytes.
    proof fn lemma_layout_size(&self, i: int)
        requires
            0 <= i <= self.opcode@.len(),
            self.opcode@.len() == self.payload_id@.len(),
        ensures
            self.layout_end(i) >= 4 * i,
        decreases i,
    {
        if i > 0 {
            self.lemma_layout_size(i - 1);
        }
    }

    /// The ROM image, read at the record of node `i`, gives back its failure link,
    /// outputs and transitions, when no pointer was cut to 16 bits.
    proof fn lemma_decode_node(&self, i: int, b: u8)
        requires
            self.wf(),
            0 <= i < self.n(),
            self.layout_end(self.n()) <= 0x10000,
            forall|j: int| 0 <= j < self.n() ==> #[trigger] self.trans(j).len() < 256,
        ensures
            spec_fail_state(self.image(self.n()), self.layout_end(i)) == Some(
                self.layout_end(self.fail@[i] as int),
            ),
            spec_outputs(self.image(self.n()), self.layout_end(i)) == Some(
                (self.opcode@[i], self.payload_id@[i]),
            ),
            spec_find_transition(self.image(self.n()), self.layout_end(i), b) == match edge_target(
                self.trans(i),
                b,
            ) {
                Some(c) => Some(self.layout_end(c as int)),
                None => None::<int>,
            },
    {
        self.lemma_wf_basics();
        let n = self.n();
        let img = self.image(n);
        self.lemma_image_len(n);
        self.lemma_layout_mono(i, n);
        let pos = self.layout_end(i);
        let r = self.record_bytes(i);
        self.lemma_record_len(i);
        let op = if self.opcode@[i] is Some { 1int } else { 0int };
        let pay = if self.payload_id@[i] is Some { 2int } else { 0int };
        assert forall|x: int| 0 <= x < self.record_size(i) implies #[trigger] img[pos + x] == r[x] by {
            self.lemma_image_index(n, i, x);
        }
        assert(img[pos + 0] == self.flags_of(i));
        assert(has_opcode(3u8) && has_payload(3u8)) by (bit_vector);
        assert(has_opcode(1u8) && !has_payload(1u8)) by (bit_vector);
        assert(!has_opcode(2u8) && has_payload(2u8)) by (bit_vector);
        assert(!has_opcode(0u8) && !has_payload(0u8)) by (bit_vector);
        let f = pos + 1 + op + pay;
        assert(fail_field(img, pos) == f);
        // failure link
        self.lemma_fail_facts(i);
        let fl = self.fail@[i] as int;
        self.lemma_layout_mono(fl, n);
        if fl < n {
            self.lemma_layout_mono(fl + 1, n);
        }
        let fp = self.ptr(fl);
        assert(fp as int == self.layout_end(fl));
        assert(img[pos + (1 + op + pay)] == low_byte(fp));
        assert(img[pos + (1 + op + pay + 1)] == high_byte(fp));
        assert(le_u16(low_byte(fp), high_byte(fp)) == fp);
        // outputs
        if self.opcode@[i] is Some {
            assert(img[pos + 1] == r[1]);
        }
        if self.payload_id@[i] is Some {
            let p = self.payload_id@[i]->0;
            assert(img[pos + (1 + op)] == low_byte(p));
            assert(img[pos + (1 + op + 1)] == high_byte(p));
            assert(le_u16(low_byte(p), high_byte(p)) == p);
        }
        // transitions
        let t = self.trans(i);
        self.lemma_edge_len(i);
        let cnt = t.len() as int;
        assert(img[pos + (1 + op + pay + 2)] == t.len() as u8);
        let first = f + 3;
        self.lemma_scan(i, 0, b);
        assert(forall|j: int| 0 <= j < 0 ==> #[trigger] t[j].0 != b);
        self.lemma_edge_facts_all(i);
        lemma_find_from(t, 0, b);
    }

    proof fn lemma_edge_facts_all(&self, i: int)
        requires
            self.wf(),
            0 <= i < self.n(),
        ensures
            sorted_bytes(self.trans(i)),
    {
        reveal(TrieBuilder::wf);
    }

    /// Scanning the transition entries of node `i` from the `k`-th on finds what
    /// `find_from` finds, at its record offset.
    proof fn lemma_scan(&self, i: int, k: int, b: u8)
        requires
            self.wf(),
            0 <= i < self.n(),
            0 <= k <= self.trans(i).len(),
            self.layout_end(self.n()) <= 0x10000,
            forall|j: int| 0 <= j < self.n() ==> #[trigger] self.trans(j).len() < 256,
        ensures
            ({
                let first = self.layout_end(i) + self.record_size(i) - 3 * self.trans(i).len();
                spec_scan(self.image(self.n()), first + 3 * k, (self.trans(i).len() - k) as nat, b)
                    == match find_from(self.trans(i), k, b) {
                    Some(c) => Some(self.layout_end(c as int)),
                    None => None::<int>,
                }
            }),
        decreases self.trans(i).len() - k,
    {
        self.lemma_wf_basics();
        let n = self.n();
        let t = self.trans(i);
        let img = self.image(n);
        let pos = self.layout_end(i);
        let first = pos + self.record_size(i) - 3 * t.len();
        if k < t.len() {
            self.lemma_scan(i, k + 1, b);
            self.lemma_image_len(n);
            self.lemma_layout_mono(i, n);
            self.lemma_record_len(i);
            let r = self.record_bytes(i);
            let e = t[k];
            self.lemma_entries_index(t, k);
            self.lemma_edge_facts(i, k);
            self.lemma_entries_len(t);
            let x0 = (first - pos) + 3 * k;
            self.lemma_image_index(n, i, x0);
            self.lemma_image_index(n, i, x0 + 1);
            self.lemma_image_index(n, i, x0 + 2);
            assert(img[pos + x0] == e.0);
            let c = e.1 as int;
            self.lemma_layout_mono(c, n);
            if c < n {
                self.lemma_layout_mono(c + 1, n);
            }
            let cp = self.ptr(c);
            assert(cp as int == self.layout_end(c));
            assert(img[pos + x0 + 1] == low_byte(cp));
            assert(img[pos + x0 + 2] == high_byte(cp));
            assert(le_u16(low_byte(cp), high_byte(cp)) == cp);
        }
    }

    /// From the record of node `c`, gathering outputs along the failure chain finds, for
    /// each code still missing, that of the longest coded ending of the node's path.
    proof fn lemma_gather_matches(
        &self,
        entries: Seq<WordEntry>,
        c: int,
        op: Option<u8>,
        pay: Option<u16>,
        fuel: nat,
    )
        requires
            self.wf(),
            prefixes_present(self.paths@, self.words@),
            forall|y: int| 0 <= y < self.n() ==> #[trigger] self.fail_ok(y),
            self.layout_end(self.n()) <= 0x10000,
            forall|j: int| 0 <= j < self.n() ==> #[trigger] self.trans(j).len() < 256,
            self.words@ == entry_words(entries),
            forall|c: int|
                0 <= c < self.n() ==> #[trigger] self.opcode@[c] == entry_opcode(entries, self.paths@[c]),
            forall|c: int|
                0 <= c < self.n() ==> #[trigger] self.payload_id@[c] == entry_payload(entries, self.paths@[c]),
            0 < c < self.n(),
            fuel > self.paths@[c].len(),
        ensures
            spec_gather(self.image(self.n()), self.layout_end(c), op, pay, fuel) == Some(
                (
                    latest(op, ending_opcode(entries, self.paths@[c], self.paths@[c].len() as int)),
                    latest(pay, ending_payload(entries, self.paths@[c], self.paths@[c].len() as int)),
                ),
            ),
        decreases self.paths@[c].len(),
    {
        self.lemma_wf_basics();
        let n = self.n();
        self.lemma_decode_node(c, 0u8);
        let p = self.paths@[c];
        assert(last_bytes(p, p.len() as int) =~= p);
        self.lemma_layout_size(c);
        self.lemma_fail_facts(c);
        assert(self.fail_ok(c));
        lemma_ending_of_proper_match(entries, p);
        let fl = self.fail@[c] as int;
        if fl != 0 {
            self.lemma_layout_size(fl);
            self.lemma_gather_matches(
                entries,
                fl,
                latest(op, self.opcode@[c]),
                latest(pay, self.payload_id@[c]),
                (fuel - 1) as nat,
            );
        } else {
            assert(self.layout_end(0) == 0);
            assert(self.paths@[0].len() == 0);
        }
    }

    /// Read from the root, the bytes of a word whose prefixes all have nodes lead
    /// through those nodes, one byte at a time.
    proof fn lemma_run_follows_word(&self, entries: Seq<WordEntry>, w: Seq<u8>, m: int)
        requires
            self.wf(),
            prefixes_present(self.paths@, self.words@),
            forall|y: int| 0 <= y < self.n() ==> #[trigger] self.fail_ok(y),
            self.layout_end(self.n()) <= 0x10000,
            forall|j: int| 0 <= j < self.n() ==> #[trigger] self.trans(j).len() < 256,
            self.words@ == entry_words(entries),
            forall|c: int|
                0 <= c < self.n() ==> #[trigger] self.opcode@[c] == entry_opcode(entries, self.paths@[c]),
            forall|c: int|
                0 <= c < self.n() ==> #[trigger] self.payload_id@[c] == entry_payload(entries, self.paths@[c]),
            0 <= m <= w.len(),
            forall|k: int| 0 <= k <= w.len() ==> has_node(self.paths@, #[trigger] w.take(k)),
        ensures
            spec_run(self.image(self.n()), w.take(m)) is Active,
            exists|c: int|
                0 <= c < self.n() && self.paths@[c] == w.take(m) && #[trigger] self.layout_end(c)
                    == spec_run(self.image(self.n()), w.take(m))->state,
        decreases m,
    {
        self.lemma_wf_basics();
        let n = self.n();
        let img = self.image(n);
        if m == 0 {
            assert(w.take(0) =~= Seq::<u8>::empty());
            assert(self.layout_end(0) == 0);
        } else {
            self.lemma_run_follows_word(entries, w, m - 1);
            let c0 = choose|c: int|
                0 <= c < n && self.paths@[c] == w.take(m - 1) && #[trigger] self.layout_end(c)
                    == spec_run(img, w.take(m - 1))->state;
            assert(has_node(self.paths@, w.take(m)));
            let c = choose|c: int| 0 <= c < self.paths@.len() && #[trigger] self.paths@[c] == w.take(m);
            assert(w.take(m).len() == m);
            if c == 0 {
                assert(self.paths@[0].len() == 0);
            }
            self.lemma_parent_facts(c);
            assert(w.take(m).drop_last() =~= w.take(m - 1));
            self.lemma_unique_path(self.parent@[c], c0);
            assert(w.take(m).last() == w[m - 1]);
            self.lemma_decode_node(c0, w[m - 1]);
            self.lemma_decode_node(c, w[m - 1]);
            self.lemma_image_len(n);
            self.lemma_layout_mono(c0, n);
            crate::rom::lemma_run_take_step(img, w, m - 1);
            assert(w.take(m).drop_last() =~= w.take(m - 1));
            let b = w[m - 1];
            assert(self.parent@[c] == c0);
            assert(self.paths@[c].last() == b);
            assert(edge_target(self.trans(c0), b) is Some);
            let t = self.trans(c0);
            let k = choose|k: int| 0 <= k < t.len() && t[k].0 == b;
            self.lemma_edge_facts(c0, k);
            lemma_edge_target_at(t, k);
            assert(self.paths@[t[k].1 as int] == self.paths@[c]);
            self.lemma_unique_path(t[k].1 as int, c);
            assert(spec_find_transition(img, self.layout_end(c0), b) == Some(self.layout_end(c)));
            self.lemma_depth_bound(c);
            self.lemma_layout_size(n);
            self.lemma_gather_matches(entries, c, None, None, step_budget(img));
            assert(0 <= self.layout_end(c0) < img.len());
            assert(spec_byte_step(img, self.layout_end(c0), b, step_budget(img)) is Moved);
        }
    }

    /// The failure link of node `x` leads to the node of the longest proper ending of
    /// its path that is a trie node.
    spec fn fail_ok(&self, x: int) -> bool {
        x == 0 || self.paths@[self.fail@[x] as int] == longest_proper_match(self.words@, self.paths@[x])
    }

    /// The trie has a node for exactly the trie nodes of its words.
    proof fn lemma_node_iff(&self, p: Seq<u8>)
        requires
            self.wf(),
            prefixes_present(self.paths@, self.words@),
        ensures
            in_trie(self.words@, p) <==> has_node(self.paths@, p),
    {
        reveal(TrieBuilder::wf);
        if has_node(self.paths@, p) {
            let c = choose|c: int| 0 <= c < self.paths@.len() && #[trigger] self.paths@[c] == p;
            if c != 0 {
                assert(is_word_prefix(self.words@, self.paths@[c]));
            }
        }
        if in_trie(self.words@, p) {
            if p.len() == 0 {
                assert(self.paths@[0] =~= p);
            } else {
                let w = choose|w: int| 0 <= w < self.words@.len() && p.is_prefix_of(#[trigger] self.words@[w]);
                assert(self.words@[w].take(p.len() as int) =~= p);
                assert(has_node(self.paths@, self.words@[w].take(p.len() as int)));
            }
        }
    }

    /// Node `x` has a transition on `b` exactly when its path followed by `b` is a trie
    /// node, and the transition leads to the node of that path.
    proof fn lemma_child_iff(&self, x: int, b: u8)
        requires
            self.wf(),
            prefixes_present(self.paths@, self.words@),
            0 <= x < self.n(),
        ensures
            edge_target(self.trans(x), b) is Some <==> in_trie(self.words@, self.paths@[x].push(b)),
            edge_target(self.trans(x), b) matches Some(c) ==> 0 < c < self.n() && self.paths@[c as int]
                == self.paths@[x].push(b),
    {
        self.lemma_wf_basics();
        let t = self.trans(x);
        let q = self.paths@[x].push(b);
        if edge_target(t, b) is Some {
            let k = choose|k: int| 0 <= k < t.len() && t[k].0 == b;
            self.lemma_edge_facts(x, k);
            lemma_edge_target_at(t, k);
            assert(has_node(self.paths@, self.paths@[t[k].1 as int]));
            self.lemma_node_iff(q);
        }
        if in_trie(self.words@, q) {
            self.lemma_node_iff(q);
            let c = choose|c: int| 0 <= c < self.paths@.len() && #[trigger] self.paths@[c] == q;
            if c == 0 {
                assert(self.paths@[0].len() == 0);
            }
            self.lemma_parent_facts(c);
            assert(q.drop_last() =~= self.paths@[x]);
            self.lemma_unique_path(self.parent@[c], x);
            assert(q.last() == b);
        }
    }

    /// With every failure link right, a byte read at the record of node `x` does what the
    /// dictionary automaton does: it moves to the node of the new state, reading its
    /// outputs, or stays at the root when the new state is empty.
    proof fn lemma_step_matches_dictionary(&self, entries: Seq<WordEntry>, x: int, b: u8, fuel: nat)
        requires
            self.wf(),
            prefixes_present(self.paths@, self.words@),
            forall|y: int| 0 <= y < self.n() ==> #[trigger] self.fail_ok(y),
            self.layout_end(self.n()) <= 0x10000,
            forall|j: int| 0 <= j < self.n() ==> #[trigger] self.trans(j).len() < 256,
            self.words@ == entry_words(entries),
            forall|c: int|
                0 <= c < self.n() ==> #[trigger] self.opcode@[c] == entry_opcode(entries, self.paths@[c]),
            forall|c: int|
                0 <= c < self.n() ==> #[trigger] self.payload_id@[c] == entry_payload(entries, self.paths@[c]),
            0 <= x < self.n(),
            fuel > self.paths@[x].len(),
        ensures
            ({
                let st = spec_byte_step(self.image(self.n()), self.layout_end(x), b, fuel);
                let ds = dict_state(self.words@, self.paths@[x].push(b));
                if ds.len() == 0 {
                    st is Stay
                } else {
                    exists|c: int|
                        0 <= c < self.n() && self.paths@[c] == ds && st == (ByteStep::Moved {
                            next: #[trigger] self.layout_end(c),
                            opcode: ending_opcode(entries, ds, ds.len() as int),
                            payload: ending_payload(entries, ds, ds.len() as int),
                        })
                }
            }),
        decreases self.paths@[x].len(),
    {
        self.lemma_wf_basics();
        let n = self.n();
        let img = self.image(n);
        self.lemma_image_len(n);
        self.lemma_layout_mono(x, n);
        self.lemma_decode_node(x, b);
        self.lemma_child_iff(x, b);
        let q = self.paths@[x];
        let qb = q.push(b);
        match edge_target(self.trans(x), b) {
            Some(c) => {
                self.lemma_decode_node(c as int, b);
                self.lemma_depth_bound(c as int);
                self.lemma_layout_size(n);
                self.lemma_gather_matches(entries, c as int, None, None, step_budget(img));
                lemma_match_len(self.words@, qb, qb.len() as int);
                assert(last_bytes(qb, qb.len() as int) =~= qb);
                assert(dict_state(self.words@, qb) == qb);
            },
            None => {
                if x == 0 {
                    assert(q.len() == 0);
                    assert(last_bytes(qb, 1) =~= qb);
                    assert(match_len(self.words@, qb, 0) == 0);
                    assert(dict_state(self.words@, qb).len() == 0);
                } else {
                    self.lemma_layout_size(x);
                    self.lemma_fail_facts(x);
                    assert(self.fail_ok(x));
                    lemma_state_falls_back(self.words@, q, b);
                    let fl = self.fail@[x] as int;
                    self.lemma_step_matches_dictionary(entries, fl, b, (fuel - 1) as nat);
                }
            },
        }
    }

    /// With every failure link right, the run over any text follows the dictionary
    /// automaton: it stands on the node of the dictionary state and keeps its outputs.
    proof fn lemma_run_matches_dictionary(&self, entries: Seq<WordEntry>, t: Seq<u8>)
        requires
            self.wf(),
            prefixes_present(self.paths@, self.words@),
            forall|y: int| 0 <= y < self.n() ==> #[trigger] self.fail_ok(y),
            self.layout_end(self.n()) <= 0x10000,
            forall|j: int| 0 <= j < self.n() ==> #[trigger] self.trans(j).len() < 256,
            self.words@ == entry_words(entries),
            forall|c: int|
                0 <= c < self.n() ==> #[trigger] self.opcode@[c] == entry_opcode(entries, self.paths@[c]),
            forall|c: int|
                0 <= c < self.n() ==> #[trigger] self.payload_id@[c] == entry_payload(entries, self.paths@[c]),
        ensures
            spec_run(self.image(self.n()), t) is Active,
            exists|c: int|
                0 <= c < self.n() && self.paths@[c] == dict_state(self.words@, t) && #[trigger] self.layout_end(c)
                    == spec_run(self.image(self.n()), t)->state,
            spec_run(self.image(self.n()), t)->opcode == dict_outputs(entries, t).0,
            spec_run(self.image(self.n()), t)->payload == dict_outputs(entries, t).1,
        decreases t.len(),
    {
        self.lemma_wf_basics();
        let n = self.n();
        let img = self.image(n);
        if t.len() == 0 {
            assert(self.layout_end(0) == 0);
            assert(dict_state(self.words@, t) =~= self.paths@[0]);
        } else {
            let t0 = t.drop_last();
            let b = t.last();
            self.lemma_run_matches_dictionary(entries, t0);
            let x = choose|c: int|
                0 <= c < n && self.paths@[c] == dict_state(self.words@, t0) && #[trigger] self.layout_end(c)
                    == spec_run(img, t0)->state;
            self.lemma_depth_bound(x);
            self.lemma_layout_size(n);
            self.lemma_image_len(n);
            self.lemma_step_matches_dictionary(entries, x, b, step_budget(img));
            lemma_state_step(self.words@, t0, b);
            lemma_ending_of_state(entries, t);
            assert(t0.push(b) =~= t);
            if dict_state(self.words@, t).len() == 0 {
                assert(self.layout_end(0) == 0);
                assert(dict_state(self.words@, t) =~= self.paths@[0]);
            }
        }
    }

    /// Once every node visited has its children queued and the queue is used up, every
    /// node but the root is queued.
    proof fn lemma_all_queued(&self, q: Seq<usize>, y: int)
        requires
            self.wf(),
            0 < y < self.n(),
            forall|z: int|
                0 < z < self.n() && (self.parent@[z] == 0 || queued_before(q, q.len() as int, self.parent@[z]))
                    ==> #[trigger] queued_before(q, q.len() as int, z),
        ensures
            queued_before(q, q.len() as int, y),
        decreases self.paths@[y].len(),
    {
        self.lemma_parent_facts(y);
        let p = self.parent@[y];
        if p != 0 {
            self.lemma_parent_facts(p);
            self.lemma_all_queued(q, p);
        }
    }

    proof fn lemma_wf_basics(&self)
        requires
            self.wf(),
        ensures
            self.n() >= 1,
            self.paths@.len() == self.n(),
            self.parent@.len() == self.n(),
            self.opcode@.len() == self.n(),
            self.payload_id@.len() == self.n(),
            self.fail@.len() == self.n(),
            self.paths@[0] == Seq::<u8>::empty(),
    {
        reveal(TrieBuilder::wf);
    }

    /// A trie has one transition fewer than it has nodes.
    proof fn lemma_edge_count(&self)
        requires
            self.wf(),
        ensures
            edge_total(self.transitions@, self.n()) == self.n() - 1,
    {
        reveal(TrieBuilder::wf);
    }

    /// A record takes at most seven bytes besides three per transition.
    proof fn lemma_layout_bound(&self, i: int)
        requires
            0 <= i <= self.n(),
            self.opcode@.len() == self.n(),
            self.payload_id@.len() == self.n(),
        ensures
            self.layout_end(i) <= 7 * i + 3 * edge_total(self.transitions@, i),
        decreases i,
    {
        if i > 0 {
            self.lemma_layout_bound(i - 1);
        }
    }

    /// Distinct nodes have distinct paths.
    proof fn lemma_unique_path(&self, i: int, j: int)
        requires
            self.wf(),
            0 <= i < self.n(),
            0 <= j < self.n(),
            self.paths@[i] == self.paths@[j],
        ensures
            i == j,
    {
        reveal(TrieBuilder::wf);
    }

    proof fn lemma_edge_facts(&self, i: int, k: int)
        requires
            self.wf(),
            0 <= i < self.n(),
            0 <= k < self.trans(i).len(),
        ensures
            0 < self.trans(i)[k].1 < self.n(),
            self.paths@[self.trans(i)[k].1 as int] == self.paths@[i].push(self.trans(i)[k].0),
            self.parent@[self.trans(i)[k].1 as int] == i,
            sorted_bytes(self.trans(i)),
    {
        reveal(TrieBuilder::wf);
        let e = self.trans(i)[k];
    }

    proof fn lemma_fail_facts(&self, i: int)
        requires
            self.wf(),
            0 <= i < self.n(),
        ensures
            self.fail@[i] < self.n(),
            i != 0 ==> self.paths@[self.fail@[i] as int].len() < self.paths@[i].len(),
            i != 0 ==> self.paths@[i].len() > 0,
    {
        reveal(TrieBuilder::wf);
    }

    /// Adds a new node as the child of `curr` on byte `b`.
    #[verifier::spinoff_prover]
    #[verifier::rlimit(50)]
    fn add_child(&mut self, curr: usize, b: u8) -> (next: usize)
        requires
            old(self).wf(),
            curr < old(self).n(),
            edge_target(old(self).trans(curr as int), b) is None,
            is_word_prefix(old(self).words@, old(self).paths@[curr as int].push(b)),
        ensures
            final(self).wf(),
            next == old(self).n(),
            final(self).n() == old(self).n() + 1,
            final(self).paths@ == old(self).paths@.push(old(self).paths@[curr as int].push(b)),
            final(self).words@ == old(self).words@,
            final(self).opcode@ == old(self).opcode@.push(None),
            final(self).payload_id@ == old(self).payload_id@.push(None),
    {
        proof {
            reveal(TrieBuilder::wf);
        }
        let ghost old_self = *self;
        let ghost path = self.paths@[curr as int].push(b);
        let next = self.transitions.len();
        self.transitions.push(Vec::new());
        self.fail.push(0);
        self.opcode.push(None);
        self.payload_id.push(None);
        self.paths = Ghost(self.paths@.push(path));
        self.parent = Ghost(self.parent@.push(curr as int));
        let mut p: usize = 0;
        while p < self.transitions[curr].len() && self.transitions[curr][p].0 < b
            invariant
                self.transitions@.len() == old_self.n() + 1,
                curr < old_self.n(),
                self.trans(curr as int) == old_self.trans(curr as int),
                sorted_bytes(old_self.trans(curr as int)),
                p <= old_self.trans(curr as int).len(),
                forall|j: int| 0 <= j < p ==> #[trigger] old_self.trans(curr as int)[j].0 < b,
            decreases old_self.trans(curr as int).len() - p,
        {
            p += 1;
        }
        let ghost t = old_self.trans(curr as int);
        proof {
            assert forall|j: int| p <= j < t.len() implies #[trigger] t[j].0 > b by {
                if t[j].0 == b {
                    lemma_edge_target_at(t, j);
                }
                if p < t.len() {
                    assert(t[p as int].0 >= b);
                    if t[p as int].0 == b {
                        lemma_edge_target_at(t, p as int);
                    }
                }
            }
            lemma_insert_edge(t, p as int, b, next);
        }
        self.transitions[curr].insert(p, (b, next));
        proof {
            let n = self.n();
            assert(self.trans(next as int) =~= Seq::<(u8, usize)>::empty());
            assert forall|i: int| 0 <= i < n implies sorted_bytes(#[trigger] self.trans(i)) by {
                if i < old_self.n() && i != curr {
                    assert(self.trans(i) == old_self.trans(i));
                }
            }
            // the new path is new
            assert forall|j: int| 0 <= j < old_self.n() implies old_self.paths@[j] != path by {
                if old_self.paths@[j] == path {
                    assert(j != 0);
                    let pj = old_self.parent@[j];
                    assert(old_self.paths@[pj] == old_self.paths@[curr as int]);
                    assert(pj == curr);
                    assert(path.last() == b);
                }
            }
            assert forall|i: int, k: int|
                0 <= i < n && 0 <= k < self.trans(i).len() implies {
                    let e = #[trigger] self.trans(i)[k];
                    &&& 0 < e.1 < n
                    &&& self.paths@[e.1 as int] == self.paths@[i].push(e.0)
                    &&& self.parent@[e.1 as int] == i
                } by {
                if i == curr {
                    if k < p {
                        assert(self.trans(i)[k] == t[k]);
                    } else if k > p {
                        assert(self.trans(i)[k] == t[k - 1]);
                    }
                } else {
                    assert(i < old_self.n());
                    assert(self.trans(i) == old_self.trans(i));
                }
            }
            assert forall|c: int| 0 < c < n implies {
                &&& 0 <= #[trigger] self.parent@[c] < n
                &&& self.paths@[c].len() > 0
                &&& self.paths@[self.parent@[c]] == self.paths@[c].drop_last()
                &&& edge_target(self.trans(self.parent@[c]), self.paths@[c].last()) == Some(
                    c as usize,
                )
            } by {
                if c < old_self.n() {
                    let pc = old_self.parent@[c];
                    if pc == curr {
                        assert(old_self.paths@[c].last() != b);
                    } else {
                        assert(self.trans(pc) == old_self.trans(pc));
                    }
                } else {
                    assert(c == next);
                    assert(path.drop_last() =~= old_self.paths@[curr as int]);
                }
            }
            assert forall|i: int, j: int|
                0 <= i < n && 0 <= j < n && i != j implies #[trigger] self.paths@[i]
                != #[trigger] self.paths@[j] by {
                if i < old_self.n() && j < old_self.n() {
                    assert(old_self.paths@[i] != old_self.paths@[j]);
                }
            }
            assert forall|i: int| 0 <= i < old_self.n() && i != curr implies #[trigger] self.transitions@[i]@.len()
                == old_self.transitions@[i]@.len() by {
                assert(self.trans(i) == old_self.trans(i));
            }
            lemma_edge_total_add(old_self.transitions@, self.transitions@, curr as int, old_self.n());
            assert(edge_total(self.transitions@, n) == edge_total(self.transitions@, n - 1) + self.trans(
                next as int,
            ).len());
            assert forall|i: int| 0 <= i < n implies #[trigger] self.fail@[i] < n by {
                if i < old_self.n() {
                    assert(self.fail@[i] == old_self.fail@[i]);
                }
            }
            assert forall|i: int| 0 < i < n implies self.paths@[self.fail@[i] as int].len()
                < #[trigger] self.paths@[i].len() by {
                if i < old_self.n() {
                    assert(self.fail@[i] == old_self.fail@[i]);
                    assert(old_self.paths@[old_self.fail@[i] as int].len() < old_self.paths@[i].len());
                }
            }
            assert forall|c: int| 0 < c < n implies is_word_prefix(self.words@, #[trigger] self.paths@[c]) by {
                if c < old_self.n() {
                    assert(is_word_prefix(old_self.words@, old_self.paths@[c]));
                }
            }
        }
        next
    }

    /// Inserts a word: follows or creates the nodes along its bytes, then gives the
    /// last node the outputs that are present.
    fn insert_pattern(&mut self, word: &[u8], opcode: Option<u8>, payload_id: Option<u16>)
        requires
            old(self).wf(),
            prefixes_present(old(self).paths@, old(self).words@),
        ensures
            final(self).wf(),
            prefixes_present(final(self).paths@, final(self).words@),
            final(self).words@ == old(self).words@.push(word@),
            old(self).n() <= final(self).n() <= old(self).n() + word@.len(),
            forall|i: int| 0 <= i < old(self).n() ==> #[trigger] final(self).paths@[i] == old(self).paths@[i],
            forall|i: int|
                0 <= i < final(self).n() ==> #[trigger] final(self).opcode@[i] == (if final(self).paths@[i]
                    == word@ && opcode is Some {
                    opcode
                } else if i < old(self).n() {
                    old(self).opcode@[i]
                } else {
                    None
                }),
            forall|i: int|
                0 <= i < final(self).n() ==> #[trigger] final(self).payload_id@[i] == (if final(self).paths@[i]
                    == word@ && payload_id is Some {
                    payload_id
                } else if i < old(self).n() {
                    old(self).payload_id@[i]
                } else {
                    None
                }),
    {
        let ghost old_self = *self;
        self.words = Ghost(self.words@.push(word@));
        proof {
            lemma_wf_frame(old_self, *self);
            old_self.lemma_wf_basics();
            assert(word@.take(0) =~= self.paths@[0]);
        }
        let mut curr: usize = 0;
        let mut i: usize = 0;
        while i < word.len()
            invariant
                self.wf(),
                self.words@ == old_self.words@.push(word@),
                prefixes_present(self.paths@, old_self.words@),
                forall|k: int| 0 <= k <= i ==> has_node(self.paths@, #[trigger] word@.take(k)),
                i <= word.len(),
                curr < self.n(),
                self.paths@[curr as int] == word@.take(i as int),
                old_self.n() <= self.n() <= old_self.n() + i,
                forall|j: int| 0 <= j < old_self.n() ==> #[trigger] self.paths@[j] == old_self.paths@[j],
                forall|j: int| 0 <= j < self.n() ==> #[trigger] self.opcode@[j] == (if j < old_self.n() {
                    old_self.opcode@[j]
                } else {
                    None
                }),
                forall|j: int| 0 <= j < self.n() ==> #[trigger] self.payload_id@[j] == (if j < old_self.n() {
                    old_self.payload_id@[j]
                } else {
                    None
                }),
            decreases word.len() - i,
        {
            let b = word[i];
            proof {
                self.lemma_wf_basics();
            }
            let ghost next_path = word@.take(i + 1);
            assert(next_path =~= self.paths@[curr as int].push(b));
            curr = match self.find_child(curr, b) {
                Some(next) => {
                    next
                },
                None => {
                    proof {
                        assert(next_path.is_prefix_of(self.words@[old_self.words@.len() as int]));
                    }
                    let ghost before = self.paths@;
                    let next = self.add_child(curr, b);
                    proof {
                        self.lemma_wf_basics();
                        assert(self.paths@[next as int] == next_path);
                        assert forall|w: int, k: int|
                            0 <= w < old_self.words@.len() && 0 <= k <= old_self.words@[w].len() implies has_node(
                            self.paths@,
                            #[trigger] old_self.words@[w].take(k),
                        ) by {
                            assert(has_node(before, old_self.words@[w].take(k)));
                            let j = choose|j: int| 0 <= j < before.len() && #[trigger] before[j] == old_self.words@[w].take(k);
                            assert(self.paths@[j] == before[j]);
                        }
                        assert forall|k: int| 0 <= k <= i implies has_node(self.paths@, #[trigger] word@.take(k)) by {
                            assert(has_node(before, word@.take(k)));
                            let j = choose|j: int| 0 <= j < before.len() && #[trigger] before[j] == word@.take(k);
                            assert(self.paths@[j] == before[j]);
                        }
                    }
                    next
                },
            };
            proof {
                assert(self.paths@[curr as int] == next_path);
                assert(has_node(self.paths@, word@.take(i + 1)));
            }
            i += 1;
        }
        assert(word@.take(word.len() as int) =~= word@);
        let ghost last = curr as int;
        proof {
            self.lemma_wf_basics();
        }
        proof {
            // the node of the word is the only one with its path
            assert forall|j: int| 0 <= j < self.n() && self.paths@[j] == word@ implies j == last by {
                self.lemma_unique_path(j, last);
            }
        }
        proof {
            self.lemma_wf_basics();
        }
        let ghost before_outputs = *self;
        if opcode.is_some() {
            self.opcode.set(curr, opcode);
        }
        if payload_id.is_some() {
            self.payload_id.set(curr, payload_id);
        }
        proof {
            lemma_wf_frame(before_outputs, *self);
            assert forall|w: int, k: int|
                0 <= w < self.words@.len() && 0 <= k <= self.words@[w].len() implies has_node(
                self.paths@,
                #[trigger] self.words@[w].take(k),
            ) by {
                if w < old_self.words@.len() {
                    assert(self.words@[w] == old_self.words@[w]);
                } else {
                    assert(self.words@[w] == word@);
                }
            }
        }
    }

    /// Gives every node its failure link, breadth first: the link of the child of
    /// `curr` on byte `b` is the target of `b` out of the first node along the failure
    /// chain of `curr` that has such a transition, and the root where there is none.
    /// Each link then leads to the node of the longest proper ending of the node's path
    /// that is a trie node.
    #[verifier::spinoff_prover]
    #[verifier::rlimit(100)]
    fn compute_failure_links(&mut self)
        requires
            old(self).wf(),
            prefixes_present(old(self).paths@, old(self).words@),
        ensures
            final(self).wf(),
            final(self).transitions@ == old(self).transitions@,
            final(self).paths@ == old(self).paths@,
            final(self).parent@ == old(self).parent@,
            final(self).opcode@ == old(self).opcode@,
            final(self).payload_id@ == old(self).payload_id@,
            final(self).words@ == old(self).words@,
            forall|y: int| 0 <= y < final(self).n() ==> #[trigger] final(self).fail_ok(y),
    {
        let ghost old_self = *self;
        proof {
            self.lemma_wf_basics();
        }
        let mut queue: Vec<usize> = Vec::new();
        assert(queue@.no_duplicates());
        let root_len = self.transitions[0].len();
        let mut k: usize = 0;
        while k < root_len
            invariant
                self.wf(),
                prefixes_present(self.paths@, self.words@),
                self.transitions@ == old_self.transitions@,
                self.paths@ == old_self.paths@,
                self.parent@ == old_self.parent@,
                self.opcode@ == old_self.opcode@,
                self.payload_id@ == old_self.payload_id@,
                self.words@ == old_self.words@,
                root_len == self.trans(0).len(),
                self.n() >= 1,
                self.fail@.len() == self.n(),
                self.paths@.len() == self.n(),
                self.parent@.len() == self.n(),
                k <= root_len,
                queue@.len() == k,
                forall|j: int| 0 <= j < k ==> #[trigger] queue@[j] == self.trans(0)[j].1,
                forall|j: int| 0 <= j < k ==> 0 < #[trigger] queue@[j] < self.n(),
                forall|j: int| 0 <= j < k ==> self.parent@[#[trigger] queue@[j] as int] == 0,
                forall|j: int| 0 <= j < k ==> self.paths@[#[trigger] queue@[j] as int].len() == 1,
                forall|j: int| 0 <= j < k ==> self.fail_ok(#[trigger] queue@[j] as int),
                queue@.no_duplicates(),
            decreases root_len - k,
        {
            let child = self.transitions[0][k].1;
            proof {
                self.lemma_edge_facts(0, k as int);
                self.lemma_wf_basics();
                assert(self.paths@[child as int].len() == 1);
                assert forall|j: int| 0 <= j < queue@.len() implies queue@[j] != child by {
                    self.lemma_edge_facts(0, j);
                    if queue@[j] == child {
                        assert(self.trans(0)[j].0 < self.trans(0)[k as int].0);
                        assert(self.paths@[child as int].last() == self.trans(0)[k as int].0);
                    }
                }
            }
            let ghost before = *self;
            self.fail.set(child, 0);
            proof {
                lemma_wf_set_fail(before, *self, child as int, 0);
                let pc = self.paths@[child as int];
                assert(match_len(self.words@, pc, 0) == 0);
                assert(longest_proper_match(self.words@, pc) =~= self.paths@[0]);
                assert forall|j: int| 0 <= j < k implies self.fail_ok(#[trigger] queue@[j] as int) by {
                    assert(before.fail_ok(queue@[j] as int));
                }
            }
            queue.push(child);
            k += 1;
        }
        let mut head: usize = 0;
        proof {
            assert forall|y: int| 0 < y < self.n() implies #[trigger] self.paths@[y].len() >= 1 by {
                self.lemma_parent_facts(y);
            }
            assert forall|y: int|
                0 < y < self.n() && (self.parent@[y] == 0 || queued_before(queue@, 0, self.parent@[y]))
                implies queued_before(queue@, queue@.len() as int, y) by {
                self.lemma_parent_facts(y);
                let t = self.trans(0);
                let kk = choose|kk: int|
                    0 <= kk < t.len() && #[trigger] t[kk].0 == self.paths@[y].last() && t[kk].1 as int == y;
                assert(queue@[kk] as int == y);
            }
        }
        while head < queue.len()
            invariant
                self.wf(),
                prefixes_present(self.paths@, self.words@),
                self.transitions@ == old_self.transitions@,
                self.paths@ == old_self.paths@,
                self.parent@ == old_self.parent@,
                self.opcode@ == old_self.opcode@,
                self.payload_id@ == old_self.payload_id@,
                self.words@ == old_self.words@,
                self.n() >= 1,
                self.fail@.len() == self.n(),
                self.paths@.len() == self.n(),
                self.parent@.len() == self.n(),
                head <= queue.len(),
                forall|j: int| 0 <= j < queue.len() ==> 0 < #[trigger] queue@[j] < self.n(),
                queue@.no_duplicates(),
                forall|j: int|
                    0 <= j < queue.len() ==> self.parent@[#[trigger] queue@[j] as int] == 0
                        || queued_before(queue@, head as int, self.parent@[queue@[j] as int]),
                // breadth first: the paths of queued nodes do not get shorter ...
                forall|j: int, j2: int|
                    0 <= j <= j2 < queue.len() ==> self.paths@[#[trigger] queue@[j] as int].len()
                        <= self.paths@[#[trigger] queue@[j2] as int].len(),
                // ... and are at most one byte longer than that of the next node to visit
                head < queue.len() ==> forall|j: int|
                    head <= j < queue.len() ==> self.paths@[#[trigger] queue@[j] as int].len()
                        <= self.paths@[queue@[head as int] as int].len() + 1,
                // every node with a shorter path than the next node to visit is queued
                head < queue.len() ==> forall|y: int|
                    0 < y < self.n() && #[trigger] self.paths@[y].len() < self.paths@[queue@[head as int] as int].len()
                        ==> queued_before(queue@, queue@.len() as int, y),
                // the children of visited nodes are queued
                forall|y: int|
                    0 < y < self.n() && (self.parent@[y] == 0 || queued_before(queue@, head as int, self.parent@[y]))
                        ==> #[trigger] queued_before(queue@, queue@.len() as int, y),
                // queued nodes have their failure links right
                forall|j: int| 0 <= j < queue.len() ==> self.fail_ok(#[trigger] queue@[j] as int),
            decreases self.n() - head,
        {
            proof {
                let qi = Seq::new(queue@.len(), |j: int| queue@[j] as int);
                assert(qi.no_duplicates());
                crate::counting::lemma_distinct_bounded(qi, self.n());
            }
            let curr = queue[head];
            head += 1;
            let fail_state = self.fail[curr];
            proof {
                self.lemma_fail_facts(curr as int);
                // every node with a shorter path than `curr` has its failure link right
                assert forall|y: int|
                    0 <= y < self.n() && self.paths@[y].len() < self.paths@[curr as int].len() implies #[trigger] self.fail_ok(y) by {
                    if y != 0 {
                        assert(queued_before(queue@, queue@.len() as int, y));
                        let j = choose|j: int| 0 <= j < queue@.len() && #[trigger] queue@[j] as int == y;
                        assert(self.fail_ok(queue@[j] as int));
                    }
                }
                assert(self.fail_ok(queue@[head - 1] as int));
            }
            let m = self.transitions[curr].len();
            let ghost popped = queue@;
            let ghost d = self.paths@[curr as int].len();
            let mut k: usize = 0;
            while k < m
                invariant
                    self.wf(),
                    prefixes_present(self.paths@, self.words@),
                    self.transitions@ == old_self.transitions@,
                    self.paths@ == old_self.paths@,
                    self.parent@ == old_self.parent@,
                    self.opcode@ == old_self.opcode@,
                    self.payload_id@ == old_self.payload_id@,
                    self.words@ == old_self.words@,
                    0 < curr < self.n(),
                    self.n() >= 1,
                    self.fail@.len() == self.n(),
                    self.paths@.len() == self.n(),
                    self.parent@.len() == self.n(),
                    m == self.trans(curr as int).len(),
                    fail_state == self.fail@[curr as int],
                    fail_state < self.n(),
                    self.paths@[fail_state as int].len() < self.paths@[curr as int].len(),
                    self.fail_ok(curr as int),
                    d == self.paths@[curr as int].len(),
                    forall|y: int| 0 <= y < self.n() && self.paths@[y].len() < d ==> #[trigger] self.fail_ok(y),
                    1 <= head <= popped.len(),
                    popped[head - 1] == curr,
                    popped.no_duplicates(),
                    forall|j: int| 0 <= j < popped.len() ==> 0 < #[trigger] popped[j] < self.n(),
                    forall|j: int|
                        0 <= j < popped.len() ==> self.parent@[#[trigger] popped[j] as int] == 0
                            || queued_before(popped, head - 1, self.parent@[popped[j] as int]),
                    forall|j: int, j2: int|
                        0 <= j <= j2 < popped.len() ==> self.paths@[#[trigger] popped[j] as int].len()
                            <= self.paths@[#[trigger] popped[j2] as int].len(),
                    forall|j: int| head - 1 <= j < popped.len() ==> self.paths@[#[trigger] popped[j] as int].len() <= d + 1,
                    forall|y: int|
                        0 < y < self.n() && #[trigger] self.paths@[y].len() < d ==> queued_before(popped, popped.len() as int, y),
                    forall|y: int|
                        0 < y < self.n() && (self.parent@[y] == 0 || queued_before(popped, head - 1, self.parent@[y]))
                            ==> #[trigger] queued_before(popped, popped.len() as int, y),
                    k <= m,
                    queue@.len() == popped.len() + k,
                    queue@.no_duplicates(),
                    forall|j: int| 0 <= j < queue@.len() ==> 0 < #[trigger] queue@[j] < self.n(),
                    forall|j: int| 0 <= j < popped.len() ==> #[trigger] queue@[j] == popped[j],
                    forall|j: int|
                        popped.len() <= j < queue@.len() ==> #[trigger] queue@[j] == self.trans(curr as int)[j
                            - popped.len()].1,
                    forall|j: int| 0 <= j < queue@.len() ==> self.fail_ok(#[trigger] queue@[j] as int),
                decreases m - k,
            {
                let (b, child) = self.transitions[curr][k];
                proof {
                    self.lemma_edge_facts(curr as int, k as int);
                    self.lemma_wf_basics();
                    lemma_proper_match_step(self.words@, self.paths@[curr as int], b);
                }
                let ghost target = longest_proper_match(self.words@, self.paths@[child as int]);
                let ghost fails = self.fail@;
                let mut f = fail_state;
                loop
                    invariant_except_break
                        self.fail@ == fails,
                    invariant
                        self.wf(),
                        prefixes_present(self.paths@, self.words@),
                        self.n() >= 1,
                        self.fail@.len() == self.n(),
                        self.paths@.len() == self.n(),
                        self.parent@.len() == self.n(),
                        0 < child < self.n(),
                        self.paths@[child as int] == self.paths@[curr as int].push(b),
                        self.transitions@ == old_self.transitions@,
                        self.paths@ == old_self.paths@,
                        self.parent@ == old_self.parent@,
                        self.opcode@ == old_self.opcode@,
                        self.payload_id@ == old_self.payload_id@,
                        self.words@ == old_self.words@,
                        f < self.n(),
                        self.paths@[f as int].len() < self.paths@[curr as int].len(),
                        d == self.paths@[curr as int].len(),
                        forall|y: int| 0 <= y < self.n() && self.paths@[y].len() < d ==> #[trigger] self.fail_ok(y),
                        crate::dictionary::dict_state(self.words@, self.paths@[f as int].push(b)) == target,
                        target == longest_proper_match(self.words@, self.paths@[child as int]),
                    ensures
                        self.wf(),
                        self.n() >= 1,
                        self.fail@.len() == self.n(),
                        self.paths@.len() == self.n(),
                        self.parent@.len() == self.n(),
                        self.transitions@ == old_self.transitions@,
                        self.paths@ == old_self.paths@,
                        self.parent@ == old_self.parent@,
                        self.opcode@ == old_self.opcode@,
                        self.payload_id@ == old_self.payload_id@,
                        self.words@ == old_self.words@,
                        self.paths@[self.fail@[child as int] as int] == target,
                        self.fail@ == fails.update(child as int, self.fail@[child as int]),
                    decreases self.paths@[f as int].len(),
                {
                    if let Some(next) = self.find_child(f, b) {
                        assert(self.paths@[next as int].len() < self.paths@[child as int].len());
                        proof {
                            let q = self.paths@[f as int].push(b);
                            self.lemma_child_iff(f as int, b);
                            lemma_match_len(self.words@, q, q.len() as int);
                            assert(last_bytes(q, q.len() as int) =~= q);
                        }
                        let ghost before = *self;
                        self.fail.set(child, next);
                        proof {
                            lemma_wf_set_fail(before, *self, child as int, next);
                            assert forall|y: int| 0 <= y < self.n() && self.paths@[y].len() < d implies #[trigger] self.fail_ok(y) by {
                                assert(before.fail_ok(y));
                            }
                        }
                        break;
                    }
                    if f == 0 {
                        proof {
                            self.lemma_wf_basics();
                            let q = self.paths@[0].push(b);
                            self.lemma_child_iff(0, b);
                            assert(last_bytes(q, 1) =~= q);
                            assert(match_len(self.words@, q, 0) == 0);
                            assert(target =~= self.paths@[0]);
                        }
                        let ghost before = *self;
                        self.fail.set(child, 0);
                        proof {
                            lemma_wf_set_fail(before, *self, child as int, 0);
                            assert forall|y: int| 0 <= y < self.n() && self.paths@[y].len() < d implies #[trigger] self.fail_ok(y) by {
                                assert(before.fail_ok(y));
                            }
                        }
                        break;
                    }
                    proof {
                        self.lemma_fail_facts(f as int);
                        self.lemma_child_iff(f as int, b);
                        assert(self.fail_ok(f as int));
                        lemma_state_falls_back(self.words@, self.paths@[f as int], b);
                    }
                    f = self.fail[f];
                }
                proof {
                    // the child is not queued yet: its parent is `curr`, which was just popped
                    assert forall|j: int| 0 <= j < queue@.len() implies queue@[j] != child by {
                        if j < popped.len() {
                            if popped[j] == child {
                                assert(queued_before(popped, head - 1, curr as int));
                                let j2 = choose|j2: int| 0 <= j2 < head - 1 && #[trigger] popped[j2] as int == curr as int;
                                assert(popped[j2] == popped[head - 1]);
                            }
                        } else {
                            let k2 = j - popped.len();
                            assert(queue@[j] == self.trans(curr as int)[k2].1);
                            self.lemma_edge_facts(curr as int, k2);
                            if queue@[j] == child {
                                assert(self.trans(curr as int)[k2].0 != b);
                                assert(self.paths@[child as int].last() == b);
                            }
                        }
                    }
                    assert(self.fail_ok(child as int));
                    assert forall|j: int| 0 <= j < queue@.len() implies self.fail_ok(#[trigger] queue@[j] as int) by {
                        assert(queue@[j] != child);
                    }
                    assert forall|y: int| 0 <= y < self.n() && self.paths@[y].len() < d implies #[trigger] self.fail_ok(y) by {
                        assert(y != child);
                    }
                    assert(self.fail_ok(curr as int));
                }
                let ghost before_push = queue@;
                queue.push(child);
                proof {
                    assert forall|i: int, j: int|
                        0 <= i < queue@.len() && 0 <= j < queue@.len() && i != j implies queue@[i]
                        != queue@[j] by {
                        if i < before_push.len() && j < before_push.len() {
                            assert(before_push[i] != before_push[j]);
                        }
                    }
                }
                k += 1;
            }
            proof {
                let q = queue@;
                let h = head as int;
                // a child of `curr` is queued
                assert forall|y: int| 0 < y < self.n() && self.parent@[y] == curr implies queued_before(
                    q,
                    q.len() as int,
                    y,
                ) by {
                    self.lemma_parent_facts(y);
                    let t = self.trans(curr as int);
                    let kk = choose|kk: int|
                        0 <= kk < t.len() && #[trigger] t[kk].0 == self.paths@[y].last() && t[kk].1 as int == y;
                    assert(q[popped.len() + kk] == t[kk].1);
                }
                assert forall|j: int|
                    0 <= j < q.len() implies self.parent@[#[trigger] q[j] as int] == 0
                        || queued_before(q, h, self.parent@[q[j] as int]) by {
                    if j < popped.len() {
                        if self.parent@[q[j] as int] != 0 {
                            let p = self.parent@[q[j] as int];
                            assert(queued_before(popped, h - 1, p));
                            let j2 = choose|j2: int| 0 <= j2 < h - 1 && #[trigger] popped[j2] as int == p;
                            assert(q[j2] == popped[j2]);
                        }
                    } else {
                        let k2 = j - popped.len();
                        self.lemma_edge_facts(curr as int, k2);
                        assert(q[h - 1] == curr);
                    }
                }
                // depths along the queue do not decrease, and stay within d + 1
                assert forall|j: int| 0 <= j < q.len() implies self.paths@[#[trigger] q[j] as int].len() <= d + 1 by {
                    if j < popped.len() {
                        if j < h - 1 {
                            assert(self.paths@[popped[j] as int].len() <= self.paths@[popped[h - 1] as int].len());
                        }
                    } else {
                        self.lemma_edge_facts(curr as int, j - popped.len());
                    }
                }
                assert forall|j: int| h - 1 <= j < q.len() implies d <= self.paths@[#[trigger] q[j] as int].len() by {
                    if j < popped.len() {
                        assert(self.paths@[popped[h - 1] as int].len() <= self.paths@[popped[j] as int].len());
                    } else {
                        self.lemma_edge_facts(curr as int, j - popped.len());
                    }
                }
                assert forall|j: int, j2: int|
                    0 <= j <= j2 < q.len() implies self.paths@[#[trigger] q[j] as int].len()
                        <= self.paths@[#[trigger] q[j2] as int].len() by {
                    if j2 < popped.len() {
                        assert(self.paths@[popped[j] as int].len() <= self.paths@[popped[j2] as int].len());
                    } else {
                        self.lemma_edge_facts(curr as int, j2 - popped.len());
                        if j >= popped.len() {
                            self.lemma_edge_facts(curr as int, j - popped.len());
                        }
                    }
                }
                // the children of visited nodes are queued
                assert forall|y: int|
                    0 < y < self.n() && (self.parent@[y] == 0 || queued_before(q, h, self.parent@[y]))
                        implies #[trigger] queued_before(q, q.len() as int, y) by {
                    if self.parent@[y] != 0 {
                        let p = self.parent@[y];
                        let i = choose|i: int| 0 <= i < h && #[trigger] q[i] as int == p;
                        if i < h - 1 {
                            assert(q[i] == popped[i]);
                            assert(queued_before(popped, h - 1, p));
                        } else {
                            assert(p == curr);
                        }
                    }
                    if queued_before(popped, popped.len() as int, y) {
                        let i = choose|i: int| 0 <= i < popped.len() && #[trigger] popped[i] as int == y;
                        assert(q[i] == popped[i]);
                    }
                }
                // every node with a shorter path than the next node to visit is queued
                if h < q.len() {
                    assert forall|y: int|
                        0 < y < self.n() && #[trigger] self.paths@[y].len() < self.paths@[q[h] as int].len()
                            implies queued_before(q, q.len() as int, y) by {
                        if self.paths@[y].len() < d {
                            let i = choose|i: int| 0 <= i < popped.len() && #[trigger] popped[i] as int == y;
                            assert(q[i] == popped[i]);
                        } else {
                            self.lemma_parent_facts(y);
                            let p = self.parent@[y];
                            if p != 0 {
                                assert(self.paths@[p].len() < d);
                                let i = choose|i: int| 0 <= i < popped.len() && #[trigger] popped[i] as int == p;
                                assert(q[i] == popped[i]);
                                if i >= h {
                                    assert(self.paths@[q[h] as int].len() <= self.paths@[q[i] as int].len());
                                }
                                assert(queued_before(q, h, p));
                            }
                        }
                    }
                    assert forall|j: int|
                        h <= j < q.len() implies self.paths@[#[trigger] q[j] as int].len()
                            <= self.paths@[q[h] as int].len() + 1 by {
                        assert(self.paths@[q[j] as int].len() <= d + 1);
                        assert(d <= self.paths@[q[h] as int].len());
                    }
                }
            }
        }
        proof {
            assert forall|y: int| 0 <= y < self.n() implies #[trigger] self.fail_ok(y) by {
                if y != 0 {
                    self.lemma_all_queued(queue@, y);
                    let j = choose|j: int| 0 <= j < queue@.len() && #[trigger] queue@[j] as int == y;
                    assert(self.fail_ok(queue@[j] as int));
                }
            }
        }
    }

    /// Lays the nodes out one after another in the record format.
    #[verifier::spinoff_prover]
    #[verifier::rlimit(50)]
    fn serialize(&self) -> (buf: Vec<u8>)
        requires
            self.wf(),
            self.n() * 775 <= usize::MAX,
        ensures
            buf@ == self.image(self.n()),
            buf@.len() == self.layout_end(self.n()),
    {
        proof {
            self.lemma_wf_basics();
        }
        let n = self.transitions.len();
        let mut offsets: Vec<usize> = Vec::new();
        let mut total_size: usize = 0;
        let mut i: usize = 0;
        while i < n
            invariant
                self.wf(),
                n == self.n(),
                n * 775 <= usize::MAX,
                self.opcode@.len() == n,
                self.payload_id@.len() == n,
                i <= n,
                offsets@.len() == i,
                forall|j: int| 0 <= j < i ==> #[trigger] offsets@[j] == self.layout_end(j),
                total_size == self.layout_end(i as int),
                total_size <= 775 * i,
            decreases n - i,
        {
            proof {
                self.lemma_edge_len(i as int);
            }
            offsets.push(total_size);
            let mut size: usize = 1;  // flags
            if self.opcode[i].is_some() {
                size += 1;
            }
            if self.payload_id[i].is_some() {
                size += 2;
            }
            size += 2;  // failure offset
            size += 1;  // number of transitions
            size += 3 * self.transitions[i].len();
            total_size += size;
            i += 1;
        }
        let mut buf: Vec<u8> = Vec::new();
        let mut i: usize = 0;
        while i < n
            invariant
                self.wf(),
                n == self.n(),
                self.opcode@.len() == n,
                self.payload_id@.len() == n,
                self.fail@.len() == n,
                i <= n,
                offsets@.len() == n,
                forall|j: int| 0 <= j < n ==> #[trigger] offsets@[j] == self.layout_end(j),
                buf@ == self.image(i as int),
            decreases n - i,
        {
            let ghost start = buf@;
            let mut flags = 0u8;
            if self.opcode[i].is_some() {
                flags |= 1;
            }
            if self.payload_id[i].is_some() {
                flags |= 2;
            }
            proof {
                assert(0u8 | 1u8 == 1u8) by (bit_vector);
                assert(0u8 | 2u8 == 2u8) by (bit_vector);
                assert(1u8 | 2u8 == 3u8) by (bit_vector);
                assert(flags == self.flags_of(i as int));
            }
            buf.push(flags);
            if let Some(op) = self.opcode[i] {
                buf.push(op);
            }
            if let Some(pay) = self.payload_id[i] {
                buf.push((pay % 256) as u8);
                buf.push((pay / 256) as u8);
            }
            proof {
                self.lemma_fail_facts(i as int);
            }
            let fail_offset = offsets[self.fail[i]] as u16;
            buf.push((fail_offset % 256) as u8);
            buf.push((fail_offset / 256) as u8);
            buf.push(self.transitions[i].len() as u8);
            let ghost head = buf@;
            let t = &self.transitions[i];
            let mut k: usize = 0;
            assert(t@.take(0) =~= Seq::<(u8, usize)>::empty());
            assert(head == self.image(i as int) + (self.record_bytes(i as int).take(head.len() - start.len())));
            while k < t.len()
                invariant
                    self.wf(),
                    n == self.n(),
                    i < n,
                    t@ == self.trans(i as int),
                    offsets@.len() == n,
                    forall|j: int| 0 <= j < n ==> #[trigger] offsets@[j] == self.layout_end(j),
                    k <= t.len(),
                    buf@ == head + self.entries_bytes(t@.take(k as int)),
                decreases t.len() - k,
            {
                let (b, child) = t[k];
                proof {
                    self.lemma_edge_facts(i as int, k as int);
                }
                buf.push(b);
                let child_offset = offsets[child] as u16;
                buf.push((child_offset % 256) as u8);
                buf.push((child_offset / 256) as u8);
                proof {
                    assert(t@.take(k + 1).drop_last() =~= t@.take(k as int));
                }
                k += 1;
            }
            proof {
                assert(t@.take(t.len() as int) =~= t@);
                assert(buf@ =~= self.image(i as int) + self.record_bytes(i as int));
            }
            i += 1;
        }
        proof {
            self.lemma_image_len(n as int);
        }
        buf
    }

    /// The child of node `i` on byte `b`, if it has one.
    fn find_child(&self, i: usize, b: u8) -> (r: Option<usize>)
        requires
            self.wf(),
            i < self.n(),
        ensures
            r == edge_target(self.trans(i as int), b),
            r matches Some(c) ==> 0 < c < self.n() && self.paths@[c as int] == self.paths@[i as int].push(b),
    {
        proof {
            reveal(TrieBuilder::wf);
        }
        let t = &self.transitions[i];
        let mut k: usize = 0;
        while k < t.len()
            invariant
                self.wf(),
                i < self.n(),
                t@ == self.trans(i as int),
                sorted_bytes(t@),
                k <= t.len(),
                forall|j: int| 0 <= j < k ==> t@[j].0 != b,
            decreases t.len() - k,
        {
            if t[k].0 == b {
                proof {
                    reveal(TrieBuilder::wf);
                    lemma_edge_target_at(t@, k as int);
                    assert(self.trans(i as int)[k as int] == t@[k as int]);
                }
                return Some(t[k].1);
            }
            k += 1;
        }
        None
    }
}

/// Changing only the outputs, or adding words, keeps a trie well formed.
proof fn lemma_wf_frame(a: TrieBuilder, b: TrieBuilder)
    requires
        a.wf(),
        b.transitions@ == a.transitions@,
        b.fail@ == a.fail@,
        b.paths@ == a.paths@,
        b.parent@ == a.parent@,
        b.opcode@.len() == a.opcode@.len(),
        b.payload_id@.len() == a.payload_id@.len(),
        a.words@.is_prefix_of(b.words@),
    ensures
        b.wf(),
{
    reveal(TrieBuilder::wf);
    assert forall|c: int| 0 < c < b.n() implies is_word_prefix(b.words@, #[trigger] b.paths@[c]) by {
        assert(is_word_prefix(a.words@, a.paths@[c]));
        let w = choose|w: int| 0 <= w < a.words@.len() && a.paths@[c].is_prefix_of(#[trigger] a.words@[w]);
        assert(a.words@[w] == b.words@[w]);
    }
}

/// Changing the failure link of a node other than the root to a node with a shorter
/// path keeps a trie well formed.
proof fn lemma_wf_set_fail(a: TrieBuilder, b: TrieBuilder, c: int, v: usize)
    requires
        a.wf(),
        0 < c < a.n(),
        v < a.n(),
        a.paths@[v as int].len() < a.paths@[c].len(),
        b.transitions@ == a.transitions@,
        b.fail@ == a.fail@.update(c, v),
        b.paths@ == a.paths@,
        b.parent@ == a.parent@,
        b.opcode@ == a.opcode@,
        b.payload_id@ == a.payload_id@,
        b.words@ == a.words@,
    ensures
        b.wf(),
{
    reveal(TrieBuilder::wf);
}

/// A node added after some words were inserted does not spell any of those words:
/// each of them already had its own node.
proof fn lemma_new_node_not_old_word(old: TrieBuilder, new: TrieBuilder, c: int, k: int)
    requires
        new.wf(),
        prefixes_present(old.paths@, old.words@),
        old.paths@.len() <= c < new.n(),
        old.paths@.len() <= new.n(),
        forall|j: int| 0 <= j < old.paths@.len() ==> #[trigger] new.paths@[j] == old.paths@[j],
        0 <= k < old.words@.len(),
    ensures
        new.paths@[c] != old.words@[k],
{
    let w = old.words@[k];
    assert(w.take(w.len() as int) =~= w);
    assert(has_node(old.paths@, old.words@[k].take(w.len() as int)));
    let j = choose|j: int| 0 <= j < old.paths@.len() && #[trigger] old.paths@[j] == w.take(w.len() as int);
    if new.paths@[c] == w {
        assert(new.paths@[j] == new.paths@[c]);
        new.lemma_unique_path(j, c);
    }
}

/// No byte of a UTF-8 encoding is 0xFF.
proof fn lemma_utf8_has_no_ff(chars: Seq<char>)
    ensures
        forall|i: int| 0 <= i < encode_utf8(chars).len() ==> #[trigger] encode_utf8(chars)[i] != 0xFFu8,
    decreases chars.len(),
{
    if chars.len() > 0 {
        lemma_utf8_has_no_ff(chars.drop_first());
        let s = chars[0] as u32;
        assert(leading_byte_width_1(s) != 0xFFu8) by (bit_vector);
        assert(leading_byte_width_2(s) != 0xFFu8) by (bit_vector);
        assert(leading_byte_width_3(s) != 0xFFu8) by (bit_vector);
        assert(leading_byte_width_4(s) != 0xFFu8) by (bit_vector);
        assert(last_continuation_byte(s) != 0xFFu8) by (bit_vector);
        assert(second_last_continuation_byte(s) != 0xFFu8) by (bit_vector);
        assert(third_last_continuation_byte(s) != 0xFFu8) by (bit_vector);
        let e = encode_scalar(s);
        assert(forall|i: int| 0 <= i < e.len() ==> #[trigger] e[i] != 0xFFu8);
        let rest = encode_utf8(chars.drop_first());
        assert(encode_utf8(chars) == e + rest);
        assert forall|i: int| 0 <= i < encode_utf8(chars).len() implies #[trigger] encode_utf8(chars)[i] != 0xFFu8 by {
            if i >= e.len() {
                assert(encode_utf8(chars)[i] == rest[i - e.len()]);
            }
        }
    }
}

/// Words that are text never saturate a trie node: no text holds the byte 0xFF,
/// so no prefix of them is continued by every byte.
proof fn lemma_text_words_unsaturated(entries: Seq<Entry>)
    ensures
        !saturated(entry_words(entries_as_bytes(entries))),
{
    let words = entry_words(entries_as_bytes(entries));
    if saturated(words) {
        let p = choose|p: Seq<u8>| all_bytes_continue(words, p);
        assert(is_word_prefix(words, p.push(0xFFu8)));
        let w = choose|w: int| 0 <= w < words.len() && p.push(0xFFu8).is_prefix_of(#[trigger] words[w]);
        let chars = entries[w].0@;
        assert(words[w] == encode_utf8(chars));
        lemma_utf8_has_no_ff(chars);
        assert(words[w][p.len() as int] == p.push(0xFFu8)[p.len() as int]);
    }
}

/// Compiles a list of entries, in order, into a ROM image.
pub(crate) fn compile_entries(entries: &[Entry]) -> (rom: Vec<u8>)
    requires
        (1 + total_len(entry_words(entries_as_bytes(entries@)))) * 775 <= usize::MAX,
    ensures
        rom_well_formed(rom@),
        rom@.len() <= 10 * (1 + total_len(entry_words(entries_as_bytes(entries@)))),
        rom@.len() <= 0x10000 ==> forall|input: Seq<u8>| spec_halts(rom@, input),
        rom@.len() <= 0x10000 ==> forall|input: Seq<u8>|
            #[trigger] spec_parse(rom@, input) == dictionary_parse(entries_as_bytes(entries@), input),
        rom@.len() <= 0x10000 ==> forall|k: int|
            0 <= k < entries@.len() ==> #[trigger] word_lookup(
                rom@,
                entry_words(entries_as_bytes(entries@))[k],
            ) == Some(
                (
                    entry_opcode(entries_as_bytes(entries@), entry_words(entries_as_bytes(entries@))[k]),
                    entry_payload(entries_as_bytes(entries@), entry_words(entries_as_bytes(entries@))[k]),
                ),
            ),
{
    let ghost es = entries_as_bytes(entries@);
    let ghost words = entry_words(es);
    let mut trie = TrieBuilder::new();
    let mut i: usize = 0;
    proof {
        assert(words.take(0) =~= Seq::<Seq<u8>>::empty());
        assert(es.take(0) =~= Seq::<WordEntry>::empty());
        trie.lemma_wf_basics();
    }
    while i < entries.len()
        invariant
            trie.wf(),
            prefixes_present(trie.paths@, trie.words@),
            es == entries_as_bytes(entries@),
            words == entry_words(es),
            (1 + total_len(words)) * 775 <= usize::MAX,
            i <= entries.len(),
            trie.words@ == words.take(i as int),
            trie.n() <= 1 + total_len(words.take(i as int)),
            trie.opcode@.len() == trie.n(),
            trie.payload_id@.len() == trie.n(),
            trie.paths@.len() == trie.n(),
            forall|c: int|
                0 <= c < trie.n() ==> #[trigger] trie.opcode@[c] == entry_opcode(es.take(i as int), trie.paths@[c]),
            forall|c: int|
                0 <= c < trie.n() ==> #[trigger] trie.payload_id@[c] == entry_payload(
                    es.take(i as int),
                    trie.paths@[c],
                ),
        decreases entries.len() - i,
    {
        let (word, opcode, payload_id) = entries[i];
        let ghost before = trie;
        trie.insert_pattern(word.as_bytes(), opcode, payload_id);
        proof {
            trie.lemma_wf_basics();
            assert(words.take(i + 1) =~= words.take(i as int).push(word.spec_bytes()));
            assert(words.take(i + 1).drop_last() =~= words.take(i as int));
            let ei = es.take(i + 1);
            assert(ei.drop_last() =~= es.take(i as int));
            assert(ei.last() == es[i as int]);
            assert forall|c: int| 0 <= c < trie.n() implies #[trigger] trie.opcode@[c] == entry_opcode(
                ei,
                trie.paths@[c],
            ) by {
                if c >= before.n() && !(trie.paths@[c] == word.spec_bytes() && opcode is Some) {
                    if entry_opcode(es.take(i as int), trie.paths@[c]) is Some {
                        lemma_entry_opcode_some(es.take(i as int), trie.paths@[c]);
                        let k = choose|k: int|
                            0 <= k < es.take(i as int).len() && #[trigger] es.take(i as int)[k].0 == trie.paths@[c];
                        assert(before.words@[k] == words[k]);
                        lemma_new_node_not_old_word(before, trie, c, k);
                    }
                }
            }
            assert forall|c: int| 0 <= c < trie.n() implies #[trigger] trie.payload_id@[c] == entry_payload(
                ei,
                trie.paths@[c],
            ) by {
                if c >= before.n() && !(trie.paths@[c] == word.spec_bytes() && payload_id is Some) {
                    if entry_payload(es.take(i as int), trie.paths@[c]) is Some {
                        lemma_entry_payload_some(es.take(i as int), trie.paths@[c]);
                        let k = choose|k: int|
                            0 <= k < es.take(i as int).len() && #[trigger] es.take(i as int)[k].0 == trie.paths@[c];
                        assert(before.words@[k] == words[k]);
                        lemma_new_node_not_old_word(before, trie, c, k);
                    }
                }
            }
        }
        i += 1;
    }
    proof {
        assert(words.take(entries.len() as int) =~= words);
        assert(es.take(entries.len() as int) =~= es);
    }
    let ghost built = trie;
    trie.compute_failure_links();
    let rom = trie.serialize();
    proof {
        trie.lemma_wf_basics();
        trie.lemma_edge_count();
        trie.lemma_layout_bound(trie.n());
        assert(rom@.len() <= 10 * (1 + total_len(words)));
        lemma_text_words_unsaturated(entries@);
        assert forall|k: int| 0 <= k < trie.n() implies #[trigger] trie.trans(k).len() < 256 by {
            if trie.trans(k).len() >= 256 {
                trie.lemma_full_node_saturates(k);
            }
        }
        trie.lemma_image_well_formed(0);
        if rom@.len() <= 0x10000 {
            assert forall|input: Seq<u8>| spec_halts(rom@, input) by {
                trie.lemma_run_matches_dictionary(es, input);
            }
            assert forall|input: Seq<u8>| #[trigger] spec_parse(rom@, input) == dictionary_parse(es, input) by {
                trie.lemma_run_matches_dictionary(es, input);
                trie.lemma_layout_size(trie.n());
            }
            assert forall|k: int| 0 <= k < es.len() implies #[trigger] word_lookup(rom@, words[k]) == Some(
                (entry_opcode(es, words[k]), entry_payload(es, words[k])),
            ) by {
                let w = words[k];
                assert forall|m: int| 0 <= m <= w.len() implies has_node(trie.paths@, #[trigger] w.take(m)) by {
                    assert(words[k] == trie.words@[k]);
                }
                trie.lemma_run_follows_word(es, w, w.len() as int);
                assert(w.take(w.len() as int) =~= w);
                let c = choose|c: int|
                    0 <= c < trie.n() && trie.paths@[c] == w.take(w.len() as int) && #[trigger] trie.layout_end(c)
                        == spec_run(rom@, w.take(w.len() as int))->state;
                trie.lemma_decode_node(c, 0);
            }
        }
    }
    rom
}

/// Compiles a dictionary into a ROM image: the verbs carry operation codes, the nouns
/// payload ids; where a word is given twice, the later code wins.
pub fn compile_rom(verbs: &[(&str, u8)], nouns: &[(&str, u16)]) -> (rom: Vec<u8>)
    requires
        (1 + total_len(entry_words(verb_noun_entries(verbs@, nouns@)))) * 775 <= usize::MAX,
    ensures
        rom_well_formed(rom@),
        rom@.len() <= 10 * (1 + total_len(entry_words(verb_noun_entries(verbs@, nouns@)))),
        rom@.len() <= 0x10000 ==> forall|input: Seq<u8>| spec_halts(rom@, input),
        rom@.len() <= 0x10000 ==> forall|input: Seq<u8>|
            #[trigger] spec_parse(rom@, input) == dictionary_parse(verb_noun_entries(verbs@, nouns@), input),
        rom@.len() <= 0x10000 ==> forall|k: int|
            0 <= k < verbs@.len() + nouns@.len() ==> #[trigger] word_lookup(
                rom@,
                entry_words(verb_noun_entries(verbs@, nouns@))[k],
            ) == Some(
                (
                    entry_opcode(
                        verb_noun_entries(verbs@, nouns@),
                        entry_words(verb_noun_entries(verbs@, nouns@))[k],
                    ),
                    entry_payload(
                        verb_noun_entries(verbs@, nouns@),
                        entry_words(verb_noun_entries(verbs@, nouns@))[k],
                    ),
                ),
            ),
{
    let ghost target = verb_noun_entries(verbs@, nouns@);
    let mut entries: Vec<Entry> = Vec::new();
    proof {
        assert(entries_as_bytes(entries@) =~= target.take(0));
    }
    let mut i: usize = 0;
    while i < verbs.len()
        invariant
            i <= verbs.len(),
            target == verb_noun_entries(verbs@, nouns@),
            entries_as_bytes(entries@) == target.take(i as int),
            entries@.len() == i,
        decreases verbs.len() - i,
    {
        let (word, opcode) = verbs[i];
        entries.push((word, Some(opcode), None));
        proof {
            assert(entries_as_bytes(entries@) =~= target.take(i + 1));
        }
        i += 1;
    }
    let mut j: usize = 0;
    while j < nouns.len()
        invariant
            j <= nouns.len(),
            target == verb_noun_entries(verbs@, nouns@),
            entries_as_bytes(entries@) == target.take(verbs.len() + j),
            entries@.len() == verbs.len() + j,
        decreases nouns.len() - j,
    {
        let (word, payload_id) = nouns[j];
        entries.push((word, None, Some(payload_id)));
        proof {
            assert(entries_as_bytes(entries@) =~= target.take(verbs.len() + j + 1));
        }
        j += 1;
    }
    proof {
        assert(entries_as_bytes(entries@) =~= target);
    }
    compile_entries(&entries)
}

} // verus!
