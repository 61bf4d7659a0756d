//! The ROM image format and the automaton that runs over it.
//!
//! A ROM is a flat sequence of node records laid end to end. A record is:
//! a flags byte (bit 0: an operation code follows, bit 1: a payload id follows),
//! the optional operation code (one byte), the optional payload id (two bytes,
//! little endian), the offset of the failure node (two bytes, little endian),
//! the number of outgoing transitions (one byte), and that many transitions of
//! three bytes each: the input byte, then the offset of the target node (little endian).
//! The root node starts at offset 0.
use vstd::prelude::*;

verus! {

/// The decoded intent: an operation code and the id of the object it applies to.
#[derive(Clone, Copy, Debug, PartialEq, Eq, Structural)]
pub struct CompressedIntent {
    pub opcode: u8,
    pub payload_id: u16,
}

/// Whether a flags byte announces an operation code.
pub open spec fn has_opcode(flags: u8) -> bool {
    flags & 1u8 != 0
}

/// Whether a flags byte announces a payload id.
pub open spec fn has_payload(flags: u8) -> bool {
    flags & 2u8 != 0
}

/// Two bytes read as a little-endian 16-bit number.
pub open spec fn le_u16(b0: u8, b1: u8) -> u16 {
    (b0 as int + 256 * (b1 as int)) as u16
}

/// The position of the failure offset in the record that starts at `off`.
pub open spec fn fail_field(rom: Seq<u8>, off: int) -> int
    recommends
        0 <= off < rom.len(),
{
    off + 1 + (if has_opcode(rom[off]) { 1int } else { 0int }) + (if has_payload(rom[off]) {
        2int
    } else {
        0int
    })
}

/// The failure offset stored in the record at `off`, if the bytes are there.
pub open spec fn spec_fail_state(rom: Seq<u8>, off: int) -> Option<int> {
    if 0 <= off < rom.len() && fail_field(rom, off) + 1 < rom.len() {
        Some(le_u16(rom[fail_field(rom, off)], rom[fail_field(rom, off) + 1]) as int)
    } else {
        None
    }
}

/// The outputs of the record at `off`: its operation code and its payload id,
/// each present when the flags announce it; `None` if a byte lies past the end.
pub open spec fn spec_outputs(rom: Seq<u8>, off: int) -> Option<(Option<u8>, Option<u16>)> {
    if !(0 <= off < rom.len()) {
        None
    } else {
        let flags = rom[off];
        let pay = off + 1 + (if has_opcode(flags) { 1int } else { 0int });
        if has_opcode(flags) && !(off + 1 < rom.len()) {
            None
        } else if has_payload(flags) && !(pay + 1 < rom.len()) {
            None
        } else {
            Some(
                (
                    if has_opcode(flags) { Some(rom[off + 1]) } else { None },
                    if has_payload(flags) { Some(le_u16(rom[pay], rom[pay + 1])) } else { None },
                ),
            )
        }
    }
}

/// Scans `n` transition entries starting at `pos` for the input byte `b`;
/// the first entry that carries `b` gives the target offset.
pub open spec fn spec_scan(rom: Seq<u8>, pos: int, n: nat, b: u8) -> Option<int>
    decreases n,
{
    if n == 0 || !(0 <= pos < rom.len()) {
        None
    } else if rom[pos] == b {
        if pos + 2 < rom.len() {
            Some(le_u16(rom[pos + 1], rom[pos + 2]) as int)
        } else {
            None
        }
    } else {
        spec_scan(rom, pos + 3, (n - 1) as nat, b)
    }
}

/// The target of the transition on `b` out of the record at `off`, if there is one.
pub open spec fn spec_find_transition(rom: Seq<u8>, off: int, b: u8) -> Option<int> {
    if !(0 <= off < rom.len()) {
        None
    } else {
        let count = fail_field(rom, off) + 2;
        if !(count < rom.len()) {
            None
        } else {
            spec_scan(rom, count + 1, rom[count] as nat, b)
        }
    }
}

/// The target offset of the `k`-th transition entry of a list that starts at `first`.
pub open spec fn entry_target(rom: Seq<u8>, first: int, k: int) -> int {
    le_u16(rom[first + 3 * k + 1], rom[first + 3 * k + 2]) as int
}

/// All `n` transition entries from `first` on point inside the ROM.
pub open spec fn targets_in_range(rom: Seq<u8>, first: int, n: int) -> bool {
    forall|k: int| 0 <= k < n ==> #[trigger] entry_target(rom, first, k) < rom.len()
}

/// The records from `pos` on are complete, lie end to end up to the very end of
/// the ROM, and every failure and transition offset in them points inside the ROM.
pub open spec fn records_well_formed(rom: Seq<u8>, pos: int) -> bool
    decreases rom.len() - pos,
{
    if pos < 0 {
        false
    } else if pos >= rom.len() {
        pos == rom.len()
    } else {
        let f = fail_field(rom, pos);
        if f + 2 > rom.len() {
            false
        } else if le_u16(rom[f], rom[f + 1]) as int >= rom.len() {
            false
        } else if f + 3 > rom.len() {
            false
        } else {
            let n = rom[f + 2] as int;
            let first = f + 3;
            if first + 3 * n > rom.len() {
                false
            } else {
                targets_in_range(rom, first, n) && records_well_formed(rom, first + 3 * n)
            }
        }
    }
}

/// Where the record that starts at `pos` ends: after its flags, outputs, failure
/// offset, count and transition entries.
pub open spec fn record_end(rom: Seq<u8>, pos: int) -> int {
    fail_field(rom, pos) + 3 + 3 * (rom[fail_field(rom, pos) + 2] as int)
}

/// `s` is the start of one of the records laid end to end from `pos` on.
pub open spec fn is_record_start(rom: Seq<u8>, pos: int, s: int) -> bool
    decreases rom.len() - pos,
{
    if pos < 0 || pos >= rom.len() {
        false
    } else if pos == s {
        true
    } else if record_end(rom, pos) <= pos || record_end(rom, pos) > rom.len() {
        false
    } else {
        is_record_start(rom, record_end(rom, pos), s)
    }
}

/// A scan over transition entries whose targets all lie inside the ROM finds only
/// targets inside the ROM.
proof fn lemma_scan_in_range(rom: Seq<u8>, first: int, n: int, j: int, b: u8)
    requires
        0 <= j <= n,
        0 <= first,
        first + 3 * n <= rom.len(),
        targets_in_range(rom, first, n),
    ensures
        spec_scan(rom, first + 3 * j, (n - j) as nat, b) matches Some(t) ==> 0 <= t < rom.len(),
    decreases n - j,
{
    if j < n {
        assert(first + 3 * (j + 1) == first + 3 * j + 3);
        lemma_scan_in_range(rom, first, n, j + 1, b);
        assert(entry_target(rom, first, j) < rom.len());
    }
}

/// In a well-formed ROM every record laid end to end from `pos` is complete: its
/// transition count lies inside the ROM, and the record ends after it starts and at or
/// before the end of the ROM.
pub proof fn lemma_well_formed_records_complete(rom: Seq<u8>, pos: int, s: int)
    requires
        records_well_formed(rom, pos),
        is_record_start(rom, pos, s),
    ensures
        0 <= s < rom.len(),
        fail_field(rom, s) + 2 < rom.len(),
        s < record_end(rom, s) <= rom.len(),
    decreases rom.len() - pos,
{
    let f = fail_field(rom, pos);
    let n = rom[f + 2] as int;
    if pos != s {
        lemma_well_formed_records_complete(rom, f + 3 + 3 * n, s);
    }
}

/// Cutting the last byte off a well-formed ROM breaks the record that ends there.
proof fn lemma_truncated_from(rom: Seq<u8>, pos: int)
    requires
        records_well_formed(rom, pos),
        pos < rom.len(),
    ensures
        !records_well_formed(rom.drop_last(), pos),
    decreases rom.len() - pos,
{
    let r = rom.drop_last();
    let f = fail_field(rom, pos);
    let n = rom[f + 2] as int;
    let next = f + 3 + 3 * n;
    assert(0 <= pos);
    assert(f + 3 <= rom.len());
    assert(r[pos] == rom[pos]);
    assert(fail_field(r, pos) == f);
    if records_well_formed(r, pos) {
        assert(f + 3 <= r.len());
        assert(r[f + 2] == rom[f + 2]);
        assert(next <= r.len());
        assert(records_well_formed(r, next));
        assert(records_well_formed(rom, next));
        if next < rom.len() {
            lemma_truncated_from(rom, next);
        }
    }
}

/// A non-empty ROM that is well formed is no longer well formed with its last byte cut off.
pub proof fn lemma_truncated_rom_invalid(rom: Seq<u8>)
    requires
        rom.len() > 0,
        rom_well_formed(rom),
    ensures
        !rom_well_formed(rom.drop_last()),
{
    lemma_truncated_from(rom, 0);
}

/// In a well-formed ROM every record's failure offset can be read and points inside the
/// ROM, and every transition it has on any byte points inside the ROM.
pub proof fn lemma_well_formed_pointers_inside(rom: Seq<u8>, pos: int, s: int, b: u8)
    requires
        records_well_formed(rom, pos),
        is_record_start(rom, pos, s),
    ensures
        spec_fail_state(rom, s) matches Some(f) && 0 <= f < rom.len(),
        spec_find_transition(rom, s, b) matches Some(c) ==> 0 <= c < rom.len(),
    decreases rom.len() - pos,
{
    let f = fail_field(rom, pos);
    let n = rom[f + 2] as int;
    if pos == s {
        lemma_scan_in_range(rom, f + 3, n, 0, b);
    } else {
        lemma_well_formed_pointers_inside(rom, f + 3 + 3 * n, s, b);
    }
}

/// The whole ROM is a well-formed sequence of records (an empty ROM is).
pub open spec fn rom_well_formed(rom: Seq<u8>) -> bool {
    records_well_formed(rom, 0)
}

/// The outputs gathered from the record at `off` on along its failure chain, the codes
/// `op` and `pay` being those found so far: each code still missing is taken from the
/// first record met that carries one, so that every word ending at the record is seen and
/// the longest one that carries a code gives it. The walk stops once both codes are
/// found, after the root, where the failure chain reaches the root (whose codes, those of
/// an empty word, are not read along the chain), where a failure offset cannot be read,
/// or after `fuel` records; it gives `None` where the outputs of a record it meets cannot
/// be read.
pub open spec fn spec_gather(rom: Seq<u8>, off: int, op: Option<u8>, pay: Option<u16>, fuel: nat) -> Option<
    (Option<u8>, Option<u16>),
>
    decreases fuel,
{
    if fuel == 0 {
        Some((op, pay))
    } else {
        match spec_outputs(rom, off) {
            None => None,
            Some((o, p)) => {
                let op2 = latest(op, o);
                let pay2 = latest(pay, p);
                if (op2 is Some && pay2 is Some) || off == 0 {
                    Some((op2, pay2))
                } else {
                    match spec_fail_state(rom, off) {
                        None => Some((op2, pay2)),
                        Some(f) => if f == 0 {
                            Some((op2, pay2))
                        } else {
                            spec_gather(rom, f, op2, pay2, (fuel - 1) as nat)
                        },
                    }
                }
            },
        }
    }
}

/// What following one input byte out of a state comes to.
pub enum ByteStep {
    /// A transition was taken to the record at `next`; the outputs gathered from it on
    /// along its failure chain are given.
    Moved { next: int, opcode: Option<u8>, payload: Option<u16> },
    /// No transition out of the root: the byte is consumed and the run stays at the root.
    Stay,
    /// A read fell outside the ROM: the run ends without a result.
    Abort,
    /// The failure chain did not come to an end within the step budget.
    Stuck,
}

/// Follows the byte `b` out of the record at `cur`: take its transition on `b` if it
/// has one; otherwise, away from the root, fall back along the failure offset and try
/// again, at most `fuel` times in all.
pub open spec fn spec_byte_step(rom: Seq<u8>, cur: int, b: u8, fuel: nat) -> ByteStep
    decreases fuel,
{
    if fuel == 0 {
        ByteStep::Stuck
    } else if !(0 <= cur < rom.len()) {
        ByteStep::Abort
    } else {
        match spec_find_transition(rom, cur, b) {
            Some(next) => match spec_gather(rom, next, None, None, step_budget(rom)) {
                Some((op, pay)) => ByteStep::Moved { next, opcode: op, payload: pay },
                None => ByteStep::Abort,
            },
            None => if cur == 0 {
                ByteStep::Stay
            } else {
                match spec_fail_state(rom, cur) {
                    Some(f) => spec_byte_step(rom, f, b, (fuel - 1) as nat),
                    None => ByteStep::Abort,
                }
            },
        }
    }
}

/// The step budget for one byte: one more than the number of offsets in the ROM.
/// A failure chain that has not ended within it has met some offset twice, so it never ends.
pub open spec fn step_budget(rom: Seq<u8>) -> nat {
    (rom.len() + 1) as nat
}

/// The state of a run over a prefix of the input.
pub enum Walk {
    /// The run is at the record `state`; the latest operation code and payload id
    /// met so far are kept.
    Active { state: int, opcode: Option<u8>, payload: Option<u16> },
    /// A read fell outside the ROM.
    Aborted,
    /// A failure chain never came to an end.
    Diverged,
}

/// The newer of two optional outputs: the newer one where it is present.
pub open spec fn latest<T>(newer: Option<T>, older: Option<T>) -> Option<T> {
    if newer is Some {
        newer
    } else {
        older
    }
}

/// The run state after one more byte.
pub open spec fn spec_advance(rom: Seq<u8>, w: Walk, b: u8) -> Walk {
    match w {
        Walk::Active { state, opcode, payload } => match spec_byte_step(
            rom,
            state,
            b,
            step_budget(rom),
        ) {
            ByteStep::Moved { next, opcode: op, payload: pay } => Walk::Active {
                state: next,
                opcode: latest(op, opcode),
                payload: latest(pay, payload),
            },
            ByteStep::Stay => Walk::Active { state: 0, opcode, payload },
            ByteStep::Abort => Walk::Aborted,
            ByteStep::Stuck => Walk::Diverged,
        },
        other => other,
    }
}

/// The run state after the whole input, starting at the root with no outputs.
pub open spec fn spec_run(rom: Seq<u8>, input: Seq<u8>) -> Walk
    decreases input.len(),
{
    if input.len() == 0 {
        Walk::Active { state: 0, opcode: None, payload: None }
    } else {
        spec_advance(rom, spec_run(rom, input.drop_last()), input.last())
    }
}

/// The intent found in `input`: the latest operation code and the latest payload id
/// met on a run that neither aborted nor diverged, when both were met.
pub open spec fn spec_parse(rom: Seq<u8>, input: Seq<u8>) -> Option<CompressedIntent> {
    if rom.len() == 0 {
        None
    } else {
        match spec_run(rom, input) {
            Walk::Active { opcode: Some(o), payload: Some(p), .. } => Some(
                CompressedIntent { opcode: o, payload_id: p },
            ),
            _ => None,
        }
    }
}

/// No failure chain along the run over `input` loops forever, so the run is never cut.
pub open spec fn spec_halts(rom: Seq<u8>, input: Seq<u8>) -> bool {
    rom.len() == 0 || !(spec_run(rom, input) is Diverged)
}

/// One more byte of input advances the run by one step.
pub proof fn lemma_run_take_step(rom: Seq<u8>, input: Seq<u8>, i: int)
    requires
        0 <= i < input.len(),
    ensures
        spec_run(rom, input.take(i + 1)) == spec_advance(rom, spec_run(rom, input.take(i)), input[i]),
{
    assert(input.take(i + 1).drop_last() =~= input.take(i));
}

/// Once a run has aborted or diverged, no further input changes that.
proof fn lemma_run_settled(rom: Seq<u8>, input: Seq<u8>, i: int)
    requires
        0 <= i <= input.len(),
        !(spec_run(rom, input.take(i)) is Active),
    ensures
        spec_run(rom, input) == spec_run(rom, input.take(i)),
    decreases input.len() - i,
{
    if i < input.len() {
        lemma_run_take_step(rom, input, i);
        lemma_run_settled(rom, input, i + 1);
    } else {
        assert(input.take(i) =~= input);
    }
}

/// The offset that the failure link of the record at `c` leads to (-1 where it cannot be read).
pub open spec fn fail_hop(rom: Seq<u8>, c: int) -> int {
    match spec_fail_state(rom, c) {
        Some(f) => f,
        None => -1,
    }
}

/// The offset reached from `cur` after `k` failure hops.
pub open spec fn fail_chain(rom: Seq<u8>, cur: int, k: nat) -> int
    decreases k,
{
    if k == 0 {
        cur
    } else {
        fail_chain(rom, fail_hop(rom, cur), (k - 1) as nat)
    }
}

/// At `c` the byte `b` finds no transition and the run falls back along the failure link.
pub open spec fn falls_back(rom: Seq<u8>, c: int, b: u8) -> bool {
    &&& 0 <= c < rom.len()
    &&& spec_find_transition(rom, c, b) is None
    &&& c != 0
    &&& spec_fail_state(rom, c) is Some
}

proof fn lemma_fail_chain_shift(rom: Seq<u8>, cur: int, k: nat)
    ensures
        fail_chain(rom, cur, k + 1) == fail_hop(rom, fail_chain(rom, cur, k)),
    decreases k,
{
    assert(fail_chain(rom, cur, k + 1) == fail_chain(rom, fail_hop(rom, cur), k));
    if k > 0 {
        lemma_fail_chain_shift(rom, fail_hop(rom, cur), (k - 1) as nat);
        assert(fail_chain(rom, cur, k) == fail_chain(rom, fail_hop(rom, cur), (k - 1) as nat));
    } else {
        assert(fail_chain(rom, fail_hop(rom, cur), 0) == fail_hop(rom, cur));
    }
}

/// A step that is stuck after `fuel` rounds fell back at each of them.
proof fn lemma_stuck_falls_back(rom: Seq<u8>, cur: int, b: u8, fuel: nat)
    requires
        spec_byte_step(rom, cur, b, fuel) is Stuck,
    ensures
        forall|k: nat| k < fuel ==> falls_back(rom, #[trigger] fail_chain(rom, cur, k), b),
    decreases fuel,
{
    if fuel > 0 {
        lemma_stuck_falls_back(rom, fail_hop(rom, cur), b, (fuel - 1) as nat);
        assert forall|k: nat| k < fuel implies falls_back(rom, #[trigger] fail_chain(rom, cur, k), b) by {
            if k > 0 {
                assert(fail_chain(rom, cur, k) == fail_chain(rom, fail_hop(rom, cur), (k - 1) as nat));
            }
        }
    }
}

/// Once the failure chain from `cur` returns to an offset it met before, while falling
/// back at every offset up to there, the step is stuck whatever the fuel.
proof fn lemma_cycle_stuck(rom: Seq<u8>, cur: int, b: u8, p: nat, q: nat, fuel: nat, k: nat)
    requires
        p < q,
        k < q,
        fail_chain(rom, cur, p) == fail_chain(rom, cur, q),
        forall|j: nat| j < q ==> falls_back(rom, #[trigger] fail_chain(rom, cur, j), b),
    ensures
        spec_byte_step(rom, fail_chain(rom, cur, k), b, fuel) is Stuck,
    decreases fuel,
{
    if fuel > 0 {
        let c = fail_chain(rom, cur, k);
        assert(falls_back(rom, c, b));
        lemma_fail_chain_shift(rom, cur, k);
        if k + 1 < q {
            lemma_cycle_stuck(rom, cur, b, p, q, (fuel - 1) as nat, k + 1);
        } else {
            lemma_cycle_stuck(rom, cur, b, p, q, (fuel - 1) as nat, p);
        }
    }
}

/// The step budget is exact: a step that is still stuck after `step_budget(rom)` rounds
/// is stuck for any number of rounds, since its failure chain has met some offset twice.
/// So `spec_halts` holds exactly when no failure chain along the run loops.
pub proof fn lemma_step_budget_exact(rom: Seq<u8>, cur: int, b: u8, fuel: nat)
    requires
        spec_byte_step(rom, cur, b, step_budget(rom)) is Stuck,
    ensures
        spec_byte_step(rom, cur, b, fuel) is Stuck,
{
    let n = rom.len() as int;
    lemma_stuck_falls_back(rom, cur, b, step_budget(rom));
    let offsets = Seq::new((n + 1) as nat, |k: int| fail_chain(rom, cur, k as nat));
    assert forall|i: int| 0 <= i < offsets.len() implies 0 <= #[trigger] offsets[i] < n by {
        assert(falls_back(rom, fail_chain(rom, cur, i as nat), b));
    }
    if offsets.no_duplicates() {
        crate::counting::lemma_distinct_bounded(offsets, n);
    }
    let (p, q) = choose|p: int, q: int|
        0 <= p < offsets.len() && 0 <= q < offsets.len() && p != q && offsets[p] == offsets[q];
    let (p, q) = if p < q { (p, q) } else { (q, p) };
    assert(fail_chain(rom, cur, p as nat) == fail_chain(rom, cur, q as nat));
    assert forall|j: nat| j < q as nat implies falls_back(rom, #[trigger] fail_chain(rom, cur, j), b) by {
    }
    lemma_cycle_stuck(rom, cur, b, p as nat, q as nat, fuel, 0);
}

/// The failure chain cannot go on from `x`: `x` is the root, lies outside the ROM, or
/// its failure offset cannot be read.
pub open spec fn chain_settled(rom: Seq<u8>, x: int) -> bool {
    !(0 < x < rom.len() && spec_fail_state(rom, x) is Some)
}

/// From every offset below 0x10000 (the offsets a run can be at), the failure chain
/// settles within as many hops as the ROM has bytes.
pub open spec fn fail_links_settle(rom: Seq<u8>) -> bool {
    forall|c: int| 0 <= c < rom.len() && c < 0x10000 ==> #[trigger] settles_from(rom, c)
}

/// The failure chain from `c` settles within as many hops as the ROM has bytes.
pub open spec fn settles_from(rom: Seq<u8>, c: int) -> bool {
    exists|k: nat| k <= rom.len() && #[trigger] chain_settled(rom, fail_chain(rom, c, k))
}

/// Every state of an active run is an offset below 0x10000.
proof fn lemma_run_state_bounded(rom: Seq<u8>, input: Seq<u8>)
    ensures
        spec_run(rom, input) matches Walk::Active { state, .. } ==> 0 <= state < 0x10000,
    decreases input.len(),
{
    if input.len() > 0 {
        lemma_run_state_bounded(rom, input.drop_last());
        let w = spec_run(rom, input.drop_last());
        if w is Active {
            let step = spec_byte_step(rom, w->state, input.last(), step_budget(rom));
            if step is Moved {
                lemma_byte_step_target_bounded(rom, w->state, input.last(), step_budget(rom));
            }
        }
    }
}

proof fn lemma_scan_bounded(rom: Seq<u8>, pos: int, n: nat, b: u8)
    ensures
        spec_scan(rom, pos, n, b) matches Some(t) ==> 0 <= t < 0x10000,
    decreases n,
{
    if n > 0 && 0 <= pos < rom.len() && rom[pos] != b {
        lemma_scan_bounded(rom, pos + 3, (n - 1) as nat, b);
    }
}

proof fn lemma_byte_step_target_bounded(rom: Seq<u8>, cur: int, b: u8, fuel: nat)
    ensures
        spec_byte_step(rom, cur, b, fuel) matches ByteStep::Moved { next, .. } ==> 0 <= next < 0x10000,
    decreases fuel,
{
    if fuel > 0 && 0 <= cur < rom.len() {
        let count = fail_field(rom, cur) + 2;
        if count < rom.len() {
            lemma_scan_bounded(rom, count + 1, rom[count] as nat, b);
        }
        if spec_find_transition(rom, cur, b) is None && cur != 0 {
            if let Some(f) = spec_fail_state(rom, cur) {
                lemma_byte_step_target_bounded(rom, f, b, (fuel - 1) as nat);
            }
        }
    }
}

/// Where the failure links settle, no run over any input is cut.
pub proof fn lemma_settled_fail_links_halt(rom: Seq<u8>, input: Seq<u8>)
    requires
        fail_links_settle(rom),
    ensures
        spec_halts(rom, input),
    decreases input.len(),
{
    if rom.len() > 0 && input.len() > 0 {
        lemma_settled_fail_links_halt(rom, input.drop_last());
        lemma_run_state_bounded(rom, input.drop_last());
        let w = spec_run(rom, input.drop_last());
        if w is Active {
            let s = w->state;
            let b = input.last();
            if spec_byte_step(rom, s, b, step_budget(rom)) is Stuck {
                lemma_stuck_falls_back(rom, s, b, step_budget(rom));
                assert(falls_back(rom, fail_chain(rom, s, 0), b));
                assert(settles_from(rom, s));
                let k = choose|k: nat| k <= rom.len() && #[trigger] chain_settled(rom, fail_chain(rom, s, k));
                assert(falls_back(rom, fail_chain(rom, s, k), b));
            }
        }
    }
}

/// An optional offset seen as an optional integer.
pub open spec fn offset_view(o: Option<usize>) -> Option<int> {
    match o {
        Some(v) => Some(v as int),
        None => None,
    }
}

fn le_u16_value(b0: u8, b1: u8) -> (v: u16)
    ensures
        v == le_u16(b0, b1),
{
    (b1 as u16) * 256 + (b0 as u16)
}

/// The static routing engine: an automaton stored as a ROM image.
pub struct FstEngine {
    pub rom_matrix: &'static [u8],
}

impl FstEngine {
    pub fn new(rom_matrix: &'static [u8]) -> (e: Self)
        ensures
            e.rom_matrix@ == rom_matrix@,
    {
        Self { rom_matrix }
    }

    /// Checks the structure of the ROM: the records lie end to end up to its end,
    /// and every failure and transition offset points inside it.
    pub fn validate_rom(&self) -> (ok: bool)
        ensures
            ok == rom_well_formed(self.rom_matrix@),
            ok ==> forall|s: int|
                #[trigger] is_record_start(self.rom_matrix@, 0, s) ==> fail_field(self.rom_matrix@, s) + 2
                    < self.rom_matrix@.len() && record_end(self.rom_matrix@, s) <= self.rom_matrix@.len(),
    {
        let ghost rom = self.rom_matrix@;
        let mut pos: usize = 0;
        let len = self.rom_matrix.len();
        if len == 0 {
            return true;
        }
        while pos < len
            invariant
                rom == self.rom_matrix@,
                len == rom.len(),
                pos <= len,
                rom_well_formed(rom) == records_well_formed(rom, pos as int),
            decreases len - pos,
        {
            let ghost start = pos as int;
            let flags = self.rom_matrix[pos];
            pos += 1;
            let mut skip: usize = 0;
            if flags & 1 != 0 {
                skip += 1;
            }
            if flags & 2 != 0 {
                skip += 2;
            }
            assert(pos + skip == fail_field(rom, start));
            if skip + 2 > len - pos {
                return false;
            }
            pos += skip;
            let fail_offset = le_u16_value(self.rom_matrix[pos], self.rom_matrix[pos + 1]) as usize;
            if fail_offset >= len {
                return false;
            }
            pos += 2;
            if 1 > len - pos {
                return false;
            }
            let num_transitions = self.rom_matrix[pos] as usize;
            pos += 1;
            if num_transitions * 3 > len - pos {
                return false;
            }
            let ghost first = pos as int;
            let mut k: usize = 0;
            while k < num_transitions
                invariant
                    rom == self.rom_matrix@,
                    len == rom.len(),
                    0 <= start < first <= len,
                    num_transitions == rom[first - 1] as int,
                    first == fail_field(rom, start) + 3,
                    first + 3 * num_transitions <= len,
                    k <= num_transitions,
                    pos == first + 3 * k,
                    forall|j: int| 0 <= j < k ==> #[trigger] entry_target(rom, first, j) < len,
                    rom_well_formed(rom) == records_well_formed(rom, start),
                    le_u16(rom[first - 3], rom[first - 2]) < len,
                decreases num_transitions - k,
            {
                let child_offset = le_u16_value(self.rom_matrix[pos + 1], self.rom_matrix[pos + 2]) as usize;
                assert(child_offset == entry_target(rom, first, k as int));
                if child_offset >= len {
                    assert(!targets_in_range(rom, first, num_transitions as int));
                    return false;
                }
                pos += 3;
                k += 1;
            }
            assert(targets_in_range(rom, first, num_transitions as int));
        }
        proof {
            if rom_well_formed(rom) {
                assert forall|s: int| #[trigger] is_record_start(rom, 0, s) implies fail_field(rom, s) + 2
                    < rom.len() && record_end(rom, s) <= rom.len() by {
                    lemma_well_formed_records_complete(rom, 0, s);
                }
            }
        }
        pos == len
    }

    /// Runs the automaton over `input` and returns the intent when both an operation
    /// code and a payload id were met; the latest of each wins. Every word that ends at
    /// a byte is seen, also one that ends inside a longer match. A failure chain that
    /// loops is cut after a bounded number of hops, and the run then finds nothing.
    pub fn parse_stream(&self, input: &[u8]) -> (r: Option<CompressedIntent>)
        ensures
            r == spec_parse(self.rom_matrix@, input@),
    {
        let ghost rom = self.rom_matrix@;
        if self.rom_matrix.is_empty() {
            return None;
        }
        let len = self.rom_matrix.len();
        let mut current_offset: usize = 0;
        let mut matched_opcode: Option<u8> = None;
        let mut matched_payload_id: Option<u16> = None;
        let mut i: usize = 0;
        assert(input@.take(0) =~= Seq::<u8>::empty());
        while i < input.len()
            invariant
                rom == self.rom_matrix@,
                len == rom.len(),
                len > 0,
                i <= input.len(),
                current_offset < 0x10000,
                spec_run(rom, input@.take(i as int)) == (Walk::Active {
                    state: current_offset as int,
                    opcode: matched_opcode,
                    payload: matched_payload_id,
                }),
            decreases input.len() - i,
        {
            let b = input[i];
            let ghost start = current_offset as int;
            let ghost prior_opcode = matched_opcode;
            let ghost prior_payload = matched_payload_id;
            let mut remaining: usize = len;
            proof {
                lemma_run_take_step(rom, input@, i as int);
            }
            loop
                invariant_except_break
                    rom == self.rom_matrix@,
                    len == rom.len(),
                    len > 0,
                    i < input.len(),
                    b == input@[i as int],
                    current_offset < 0x10000,
                    remaining <= len,
                    matched_opcode == prior_opcode,
                    matched_payload_id == prior_payload,
                    spec_run(rom, input@.take(i + 1)) == spec_advance(
                        rom,
                        Walk::Active { state: start, opcode: prior_opcode, payload: prior_payload },
                        b,
                    ),
                    spec_byte_step(rom, current_offset as int, b, (remaining + 1) as nat)
                        == spec_byte_step(rom, start, b, step_budget(rom)),
                ensures
                    rom == self.rom_matrix@,
                    len == rom.len(),
                    len > 0,
                    i < input.len(),
                    current_offset < 0x10000,
                    spec_run(rom, input@.take(i + 1)) == (Walk::Active {
                        state: current_offset as int,
                        opcode: matched_opcode,
                        payload: matched_payload_id,
                    }),
                decreases remaining,
            {
                if current_offset >= len {
                    proof {
                        lemma_run_settled(rom, input@, i + 1);
                        assert(input@.take(input.len() as int) =~= input@);
                    }
                    return None;
                }
                if let Some(next_offset) = self.find_transition(current_offset, b) {
                    current_offset = next_offset;
                    // Gather the outputs of the new state and of the endings it contains
                    if let Some((op, pay)) = self.gather_outputs(current_offset) {
                        if let Some(o) = op {
                            matched_opcode = Some(o);
                        }
                        if let Some(p) = pay {
                            matched_payload_id = Some(p);
                        }
                    } else {
                        proof {
                            lemma_run_settled(rom, input@, i + 1);
                            assert(input@.take(input.len() as int) =~= input@);
                        }
                        return None;
                    }
                    break;
                } else {
                    if current_offset == 0 {
                        // At the root and no transition matches: consume the byte and stay
                        break;
                    }
                    // Follow the failure transition
                    if let Some(fail_offset) = self.read_fail_state(current_offset) {
                        if remaining == 0 {
                            // the chain has met some offset twice: it would never end
                            proof {
                                assert(spec_byte_step(rom, fail_offset as int, b, 0) is Stuck);
                                assert(spec_byte_step(rom, current_offset as int, b, 1) is Stuck);
                                lemma_run_settled(rom, input@, i + 1);
                                assert(input@.take(input.len() as int) =~= input@);
                            }
                            return None;
                        }
                        current_offset = fail_offset;
                        remaining -= 1;
                    } else {
                        proof {
                            lemma_run_settled(rom, input@, i + 1);
                            assert(input@.take(input.len() as int) =~= input@);
                        }
                        return None;
                    }
                }
            }
            i += 1;
        }
        assert(input@.take(input.len() as int) =~= input@);
        // An intent needs both an operation code and a payload id
        match (matched_opcode, matched_payload_id) {
            (Some(opcode), Some(payload_id)) => Some(CompressedIntent { opcode, payload_id }),
            _ => None,
        }
    }

    /// Checks that the failure links settle: from every offset a run can be at, the
    /// failure chain reaches the root, an offset outside the ROM, or an unreadable
    /// record within as many hops as the ROM has bytes. Where it does, `parse_stream`
    /// never cuts a run.
    pub fn check_fail_links(&self) -> (ok: bool)
        ensures
            ok == fail_links_settle(self.rom_matrix@),
    {
        let ghost rom = self.rom_matrix@;
        let len = self.rom_matrix.len();
        let limit: usize = if len < 0x10000 { len } else { 0x10000 };
        let mut c: usize = 0;
        while c < limit
            invariant
                rom == self.rom_matrix@,
                len == rom.len(),
                limit <= len,
                limit <= 0x10000,
                limit == len || limit == 0x10000,
                c <= limit,
                forall|d: int| 0 <= d < c ==> #[trigger] settles_from(rom, d),
            decreases limit - c,
        {
            let mut cur: usize = c;
            let mut hops: usize = 0;
            let mut settled = false;
            proof {
                assert(fail_chain(rom, c as int, 0) == c);
            }
            while hops < len && !settled
                invariant
                    rom == self.rom_matrix@,
                    len == rom.len(),
                    c < limit <= 0x10000,
                    cur < 0x10000,
                    hops <= len,
                    settled ==> chain_settled(rom, fail_chain(rom, c as int, hops as nat)),
                    !settled ==> cur == fail_chain(rom, c as int, hops as nat),
                    forall|j: nat| j < hops ==> !chain_settled(rom, #[trigger] fail_chain(rom, c as int, j)),
                decreases (len - hops) + (if settled { 0int } else { 1int }),
            {
                if cur == 0 || cur >= len {
                    settled = true;
                } else {
                    match self.read_fail_state(cur) {
                        Some(f) => {
                            proof {
                                lemma_fail_chain_shift(rom, c as int, hops as nat);
                            }
                            cur = f;
                            hops += 1;
                        },
                        None => {
                            settled = true;
                        },
                    }
                }
            }
            if !settled {
                let at_end = if cur == 0 || cur >= len {
                    true
                } else {
                    match self.read_fail_state(cur) {
                        Some(_) => false,
                        None => true,
                    }
                };
                if !at_end {
                    proof {
                        assert forall|k: nat| k <= rom.len() implies !chain_settled(
                            rom,
                            #[trigger] fail_chain(rom, c as int, k),
                        ) by {
                            if k < hops {
                            }
                        }
                        assert(!settles_from(rom, c as int));
                    }
                    return false;
                }
            }
            proof {
                assert(chain_settled(rom, fail_chain(rom, c as int, hops as nat)));
                assert(settles_from(rom, c as int));
            }
            c += 1;
        }
        proof {
            assert forall|d: int| 0 <= d < rom.len() && d < 0x10000 implies #[trigger] settles_from(
                rom,
                d,
            ) by {
                assert(d < c);
            }
        }
        true
    }

    /// The outputs gathered from the record at `offset` on along its failure chain.
    fn gather_outputs(&self, offset: usize) -> (r: Option<(Option<u8>, Option<u16>)>)
        ensures
            r == spec_gather(self.rom_matrix@, offset as int, None, None, step_budget(self.rom_matrix@)),
    {
        let ghost rom = self.rom_matrix@;
        let len = self.rom_matrix.len();
        let mut cur = offset;
        let mut op: Option<u8> = None;
        let mut pay: Option<u16> = None;
        let mut remaining: usize = len;
        loop
            invariant
                rom == self.rom_matrix@,
                len == rom.len(),
                remaining <= len,
                spec_gather(rom, cur as int, op, pay, (remaining + 1) as nat) == spec_gather(
                    rom,
                    offset as int,
                    None,
                    None,
                    step_budget(rom),
                ),
            decreases remaining,
        {
            let (o, p) = match self.read_outputs(cur) {
                Some(x) => x,
                None => {
                    return None;
                },
            };
            if op.is_none() {
                op = o;
            }
            if pay.is_none() {
                pay = p;
            }
            if (op.is_some() && pay.is_some()) || cur == 0 {
                return Some((op, pay));
            }
            match self.read_fail_state(cur) {
                None => {
                    return Some((op, pay));
                },
                Some(f) => {
                    if f == 0 {
                        return Some((op, pay));
                    }
                    if remaining == 0 {
                        assert(spec_gather(rom, f as int, op, pay, 0) == Some((op, pay)));
                        return Some((op, pay));
                    }
                    cur = f;
                    remaining -= 1;
                },
            }
        }
    }

    fn read_outputs(&self, offset: usize) -> (r: Option<(Option<u8>, Option<u16>)>)
        ensures
            r == spec_outputs(self.rom_matrix@, offset as int),
    {
        let len = self.rom_matrix.len();
        if offset >= len {
            return None;
        }
        let flags = self.rom_matrix[offset];
        let mut op = None;
        let mut skip: usize = 1;
        if flags & 1 != 0 {
            if len - offset < 2 {
                return None;
            }
            op = Some(self.rom_matrix[offset + 1]);
            skip = 2;
        }
        let mut pay = None;
        if flags & 2 != 0 {
            if len - offset <= skip + 1 {
                return None;
            }
            let pos = offset + skip;
            pay = Some(le_u16_value(self.rom_matrix[pos], self.rom_matrix[pos + 1]));
        }
        Some((op, pay))
    }

    /// The number of bytes from the start of a record to its failure offset.
    fn header_skip(flags: u8) -> (skip: usize)
        ensures
            skip == 1 + (if has_opcode(flags) { 1int } else { 0int }) + (if has_payload(flags) {
                2int
            } else {
                0int
            }),
    {
        let mut skip: usize = 1;
        if flags & 1 != 0 {
            skip += 1;
        }
        if flags & 2 != 0 {
            skip += 2;
        }
        skip
    }

    fn find_transition(&self, offset: usize, b: u8) -> (r: Option<usize>)
        ensures
            offset_view(r) == spec_find_transition(self.rom_matrix@, offset as int, b),
            r matches Some(v) ==> v < 0x10000,
    {
        let ghost rom = self.rom_matrix@;
        let len = self.rom_matrix.len();
        if offset >= len {
            return None;
        }
        let skip = Self::header_skip(self.rom_matrix[offset]);
        // the transition count follows the two bytes of the failure offset
        if len - offset <= skip + 2 {
            return None;
        }
        let mut pos = offset + skip + 2;
        let num_transitions = self.rom_matrix[pos] as usize;
        pos += 1;
        let mut i: usize = 0;
        while i < num_transitions
            invariant
                len == rom.len(),
                rom == self.rom_matrix@,
                i <= num_transitions,
                pos <= len,
                spec_scan(rom, pos as int, (num_transitions - i) as nat, b) == spec_find_transition(
                    rom,
                    offset as int,
                    b,
                ),
            decreases num_transitions - i,
        {
            let tb = *self.rom_matrix.get(pos)?;
            if tb == b {
                let b0 = *self.rom_matrix.get(pos + 1)?;
                let b1 = *self.rom_matrix.get(pos + 2)?;
                return Some(le_u16_value(b0, b1) as usize);
            }
            if len - pos <= 3 {
                // the next entry would start past the end
                assert(spec_scan(rom, pos + 3, (num_transitions - i - 1) as nat, b) is None);
                return None;
            }
            pos += 3;
            i += 1;
        }
        None
    }

    fn read_fail_state(&self, offset: usize) -> (r: Option<usize>)
        ensures
            offset_view(r) == spec_fail_state(self.rom_matrix@, offset as int),
            r matches Some(v) ==> v < 0x10000,
    {
        let len = self.rom_matrix.len();
        if offset >= len {
            return None;
        }
        let skip = Self::header_skip(self.rom_matrix[offset]);
        if len - offset <= skip + 1 {
            return None;
        }
        let pos = offset + skip;
        Some(le_u16_value(self.rom_matrix[pos], self.rom_matrix[pos + 1]) as usize)
    }
}

impl Default for FstEngine {
    fn default() -> (e: Self)
        ensures
            e.rom_matrix@ == crate::default_rom::DEFAULT_ROM_MATRIX@,
    {
        Self { rom_matrix: &crate::default_rom::DEFAULT_ROM_MATRIX }
    }
}

} // verus!
