//! How much room a message takes as bytes.
//!
//! Sizes are computed in 32 bits, so what could exceed them is told apart beforehand, by
//! an upper bound. The bound itself is only counted up to `LIMIT`.
use crate::cluster::raw::{
    allowed, bare_message, conf_unknown, delimited, entries_in, entries_weight, entry_context_len,
    entry_data_len, entry_parts, entry_unknown, entry_weight, fixed32_count, fixed64_count,
    has_table, head_of, lengths_weight, message_entries, message_head, message_snapshot,
    message_unknown, metadata_unknown,
    numbers_of, numbers_ok, sizable, sizable_entry, snapshot_coming, snapshot_in,
    snapshot_learners, snapshot_len, snapshot_outgoing, snapshot_parts, snapshot_unknown,
    snapshot_voters, snapshot_weight, table_weight, unknown_in, unknown_parts, unknown_weight,
    value_parts, value_weight, values_at, varint_count, ValueParts,
};
use protobuf::{UnknownFields, UnknownValues};
use raft::prelude::Message as RaftMessage;
use raft::prelude::{Entry, Snapshot};
use vstd::prelude::*;

verus! {

/// No size reaches this.
pub const LIMIT: u64 = 0xffff_ffff;

/// A size as far as it is counted.
pub open spec fn counted(n: int) -> int {
    if n < LIMIT {
        n
    } else {
        LIMIT as int
    }
}

/// One size more.
fn plus(a: u64, b: u64) -> (n: u64)
    requires
        a <= LIMIT,
        b <= LIMIT,
    ensures
        n == counted(a + b),
{
    if a + b < LIMIT {
        a + b
    } else {
        LIMIT
    }
}

/// The same size, many times.
fn times(count: usize, size: u64) -> (n: u64)
    requires
        0 < size <= 16,
    ensures
        n == counted(count * size),
{
    let count: u64 = count as u64;
    if count >= LIMIT {
        assert(count * size >= LIMIT) by (nonlinear_arith)
            requires
                count >= LIMIT,
                size >= 1,
        ;
        return LIMIT;
    }
    assert(count * size <= LIMIT * 16) by (nonlinear_arith)
        requires
            0 <= count < LIMIT,
            0 <= size <= 16,
    ;
    if count * size < LIMIT {
        count * size
    } else {
        LIMIT
    }
}

/// Any number can be the one that is counted first.
proof fn lemma_weight_split(table: Map<u32, ValueParts>, k: u32)
    requires
        table.dom().finite(),
        table.contains_key(k),
    ensures
        table_weight(table) == value_weight(table[k]) + table_weight(table.remove(k)),
    decreases table.dom().len(),
{
    let c = table.dom().choose();
    if c != k {
        lemma_weight_split(table.remove(c), k);
        lemma_weight_split(table.remove(k), c);
        assert(table.remove(c).remove(k) =~= table.remove(k).remove(c));
    }
}

/// The weight of what is held under one number.
fn weigh_values(v: &UnknownValues) -> (n: u64)
    ensures
        n == counted(value_weight(value_parts(*v)) as int),
{
    let fixed = plus(times(fixed32_count(v), 9), times(fixed64_count(v), 13));
    let mut n: u64 = plus(fixed, times(varint_count(v), 15));
    let ghost parts = value_parts(*v);
    let ghost start = 9 * parts.fixed32 + 13 * parts.fixed64 + 15 * parts.varint;
    let values = delimited(v);
    let mut i: usize = 0;
    assert(parts.lengths.take(0) =~= Seq::<nat>::empty());
    while i < values.len()
        invariant
            i <= values@.len(),
            parts.lengths == values@.map_values(|b: Vec<u8>| b@.len()),
            n == counted((start + lengths_weight(parts.lengths.take(i as int))) as int),
        decreases values@.len() - i,
    {
        let len = times(values[i].len(), 1);
        n = plus(n, plus(len, 15));
        proof {
            let grown = parts.lengths.take(i + 1);
            assert(grown.drop_last() =~= parts.lengths.take(i as int));
            assert(grown.last() == values@[i as int]@.len());
        }
        i = i + 1;
    }
    assert(parts.lengths.take(i as int) =~= parts.lengths);
    n
}

/// The weight of unknown fields, unless the format does not allow one of the numbers.
fn weigh_unknown(u: &UnknownFields) -> (r: Option<u64>)
    ensures
        match r {
            Some(n) => numbers_ok(unknown_parts(*u)) && n == counted(
                unknown_weight(unknown_parts(*u)) as int,
            ),
            None => !numbers_ok(unknown_parts(*u)),
        },
{
    if !has_table(u) {
        return Some(0);
    }
    let numbers = numbers_of(u);
    let ghost table = unknown_parts(*u)->0;
    let mut n: u64 = 0;
    let mut i: usize = 0;
    let ghost mut seen = Map::<u32, ValueParts>::empty();
    while i < numbers.len()
        invariant
            i <= numbers@.len(),
            unknown_parts(*u) == Some(table),
            numbers@.no_duplicates(),
            numbers@.to_set() == table.dom(),
            seen.dom() == numbers@.take(i as int).to_set(),
            seen.dom().finite(),
            forall|k: u32| #[trigger] seen.contains_key(k) ==> seen[k] == table[k],
            n == counted(table_weight(seen) as int),
            forall|k: int| 0 <= k < i ==> 1 <= #[trigger] numbers@[k] <= 0x1fff_ffff,
        decreases numbers@.len() - i,
    {
        let number = numbers[i];
        assert(numbers@.to_set().contains(number)) by {
            assert(numbers@.contains(numbers@[i as int]));
        }
        if number == 0 || number > 0x1fff_ffff {
            assert(table.dom().contains(number));
            return None;
        }
        match values_at(u, number) {
            Some(v) => {
                n = plus(n, weigh_values(v));
                proof {
                    let grown = seen.insert(number, table[number]);
                    assert(!seen.contains_key(number)) by {
                        if numbers@.take(i as int).contains(number) {
                            let j = numbers@.take(i as int).index_of(number);
                            assert(numbers@[j] == numbers@[i as int]);
                        }
                    }
                    lemma_weight_split(grown, number);
                    assert(grown.remove(number) =~= seen);
                    let longer = numbers@.take(i + 1);
                    assert(longer =~= numbers@.take(i as int).push(number));
                    assert(grown.dom() =~= longer.to_set()) by {
                        assert forall|k: u32| grown.dom().contains(k) == longer.contains(k) by {
                            if longer.contains(k) && k != number {
                                let j = longer.index_of(k);
                                assert(numbers@.take(i as int)[j] == k);
                            }
                            if numbers@.take(i as int).contains(k) {
                                let j = numbers@.take(i as int).index_of(k);
                                assert(longer[j] == k);
                            }
                            assert(longer[i as int] == number);
                        }
                    }
                    seen = grown;
                }
            },
            None => {
                assert(table.dom().contains(number));
            },
        }
        i = i + 1;
    }
    assert(numbers@.take(i as int) =~= numbers@);
    assert(seen =~= table);
    assert forall|k: u32| #[trigger] table.dom().contains(k) implies 1 <= k <= 0x1fff_ffff by {
        assert(numbers@.to_set().contains(k));
        let j = numbers@.index_of(k);
        assert(numbers@[j] == k);
    }
    Some(n)
}

/// The weight of an entry, unless the format does not allow the number of one of its
/// fields.
fn weigh_entry(e: &Entry) -> (r: Option<u64>)
    ensures
        match r {
            Some(n) => numbers_ok(entry_parts(*e).unknown) && n == counted(
                entry_weight(entry_parts(*e)) as int,
            ),
            None => !numbers_ok(entry_parts(*e).unknown),
        },
{
    match weigh_unknown(entry_unknown(e)) {
        Some(unknown) => {
            let data = times(entry_data_len(e), 1);
            let context = times(entry_context_len(e), 1);
            Some(plus(plus(96, data), plus(context, unknown)))
        },
        None => None,
    }
}

/// Whether the size of an entry can be computed.
pub(crate) fn entry_is_sizable(e: &Entry) -> (b: bool)
    ensures
        b == sizable_entry(entry_parts(*e)),
{
    match weigh_entry(e) {
        Some(n) => n < LIMIT,
        None => false,
    }
}

/// Whether the sizes of all entries can be computed.
pub(crate) fn entries_are_sizable(entries: &[Entry]) -> (b: bool)
    ensures
        b == (forall|i: int|
            0 <= i < entries@.len() ==> sizable_entry(entry_parts(#[trigger] entries@[i]))),
{
    let mut i: usize = 0;
    while i < entries.len()
        invariant
            i <= entries@.len(),
            forall|k: int| 0 <= k < i ==> sizable_entry(entry_parts(#[trigger] entries@[k])),
        decreases entries@.len() - i,
    {
        if !entry_is_sizable(&entries[i]) {
            assert(!sizable_entry(entry_parts(entries@[i as int])));
            return false;
        }
        i = i + 1;
    }
    true
}

/// The weight of entries, unless the format does not allow the number of a field.
fn weigh_entries(entries: &[Entry]) -> (r: Option<u64>)
    ensures
        match r {
            Some(n) => n == counted(entries_weight(entries@) as int) && forall|i: int|
                0 <= i < entries@.len() ==> numbers_ok(entry_parts(#[trigger] entries@[i]).unknown),
            None => exists|i: int|
                0 <= i < entries@.len() && !numbers_ok(entry_parts(#[trigger] entries@[i]).unknown),
        },
{
    let mut n: u64 = 0;
    let mut i: usize = 0;
    assert(entries@.take(0) =~= Seq::<Entry>::empty());
    while i < entries.len()
        invariant
            i <= entries@.len(),
            n == counted(entries_weight(entries@.take(i as int)) as int),
            forall|k: int|
                0 <= k < i ==> numbers_ok(entry_parts(#[trigger] entries@[k]).unknown),
        decreases entries@.len() - i,
    {
        match weigh_entry(&entries[i]) {
            Some(m) => {
                n = plus(n, plus(m, 16));
            },
            None => {
                assert(!numbers_ok(entry_parts(entries@[i as int]).unknown));
                return None;
            },
        }
        proof {
            let grown = entries@.take(i + 1);
            assert(grown.drop_last() =~= entries@.take(i as int));
            assert(grown.last() == entries@[i as int]);
        }
        i = i + 1;
    }
    assert(entries@.take(i as int) =~= entries@);
    Some(n)
}

/// The weight of a snapshot, unless the format does not allow the number of a field.
fn weigh_snapshot(s: &Snapshot) -> (r: Option<u64>)
    ensures
        ({
            let parts = snapshot_parts(*s);
            let ok = numbers_ok(parts.unknown) && numbers_ok(parts.metadata_unknown) && numbers_ok(
                parts.conf_unknown,
            );
            match r {
                Some(n) => ok && n == counted(snapshot_weight(parts) as int),
                None => !ok,
            }
        }),
{
    match (
        weigh_unknown(snapshot_unknown(s)),
        weigh_unknown(metadata_unknown(s)),
        weigh_unknown(conf_unknown(s)),
    ) {
        (Some(a), Some(b), Some(c)) => {
            let voters = plus(
                times(snapshot_voters(s).len(), 12),
                times(snapshot_outgoing(s).len(), 12),
            );
            let learners = plus(
                times(snapshot_learners(s).len(), 12),
                times(snapshot_coming(s).len(), 12),
            );
            let known = plus(plus(128, times(snapshot_len(s), 1)), plus(voters, learners));
            Some(plus(known, plus(a, plus(b, c))))
        },
        _ => None,
    }
}

/// Whether the size of a message can be computed.
pub fn is_sizable(msg: &RaftMessage) -> (b: bool)
    ensures
        b == sizable(*msg),
{
    let entries = entries_in(msg);
    match (
        weigh_unknown(unknown_in(msg)),
        weigh_entries(entries),
        weigh_snapshot(snapshot_in(msg)),
    ) {
        (Some(a), Some(b), Some(c)) => {
            let context = times(head_of(msg).context, 1);
            plus(plus(256, context), plus(a, plus(b, c))) < LIMIT
        },
        (_, None, _) => {
            proof {
                let i = choose|i: int|
                    0 <= i < entries@.len() && !numbers_ok(
                        entry_parts(#[trigger] entries@[i]).unknown,
                    );
                assert(!numbers_ok(entry_parts(message_entries(*msg)[i]).unknown));
            }
            false
        },
        _ => false,
    }
}

/// Whether there is nothing unknown in a message, in its entries and in its snapshot.
pub fn is_bare(msg: &RaftMessage) -> (b: bool)
    ensures
        b == bare_message(*msg),
{
    let snapshot = snapshot_in(msg);
    if has_table(unknown_in(msg)) || has_table(snapshot_unknown(snapshot)) || has_table(
        metadata_unknown(snapshot),
    ) || has_table(conf_unknown(snapshot)) {
        return false;
    }
    let entries = entries_in(msg);
    let mut i: usize = 0;
    while i < entries.len()
        invariant
            i <= entries@.len(),
            entries@ == message_entries(*msg),
            forall|k: int| 0 <= k < i ==> entry_parts(#[trigger] entries@[k]).unknown is None,
        decreases entries@.len() - i,
    {
        if has_table(entry_unknown(&entries[i])) {
            assert(!(entry_parts(message_entries(*msg)[i as int]).unknown is None));
            return false;
        }
        i = i + 1;
    }
    true
}

/// No more is written for entries of a limited size than so many times the limit.
proof fn lemma_entries_bound(entries: Seq<Entry>, limit: nat)
    requires
        forall|i: int|
            0 <= i < entries.len() ==> entry_parts(#[trigger] entries[i]).unknown is None
                && entry_parts(entries[i]).data.len() + entry_parts(entries[i]).context.len()
                <= limit,
    ensures
        entries_weight(entries) <= (limit + 112) * entries.len(),
    decreases entries.len(),
{
    if entries.len() > 0 {
        let init = entries.drop_last();
        assert forall|i: int| 0 <= i < init.len() implies entry_parts(
            #[trigger] init[i],
        ).unknown is None && entry_parts(init[i]).data.len() + entry_parts(init[i]).context.len()
            <= limit by {
            assert(init[i] == entries[i]);
        }
        lemma_entries_bound(init, limit);
        let last = entry_parts(entries[entries.len() - 1]);
        assert(entry_weight(last) <= 96 + limit);
        assert((limit + 112) * entries.len() == (limit + 112) * init.len() + (limit + 112))
            by (nonlinear_arith)
            requires
                entries.len() == init.len() + 1,
        ;
    }
}

/// A message of ordinary size in which there is nothing unknown can be written, unless it
/// lacks something: one with up to a thousand entries of up to a megabyte each, and
/// with a snapshot of up to a gigabyte and up to a million ids.
pub proof fn ordinary_message_is_sizable(m: RaftMessage)
    requires
        bare_message(m),
        message_head(m).context <= 1_000_000,
        message_entries(m).len() <= 1000,
        forall|i: int|
            0 <= i < message_entries(m).len() ==> entry_parts(
                #[trigger] message_entries(m)[i],
            ).data.len() + entry_parts(message_entries(m)[i]).context.len() <= 1_000_000,
        message_snapshot(m).len <= 1_000_000_000,
        message_snapshot(m).voters.len() + message_snapshot(m).learners.len() + message_snapshot(
            m,
        ).outgoing.len() + message_snapshot(m).coming.len() <= 1_000_000,
    ensures
        sizable(m),
        forall|i: int|
            0 <= i < message_entries(m).len() ==> sizable_entry(
                entry_parts(#[trigger] message_entries(m)[i]),
            ),
{
    let n = message_entries(m).len();
    lemma_entries_bound(message_entries(m), 1_000_000);
    assert((1_000_000 + 112) * n <= 1_000_112_000) by (nonlinear_arith)
        requires
            n <= 1000,
    ;
    assert(entries_weight(message_entries(m)) <= 1_000_112_000);
    assert(snapshot_weight(message_snapshot(m)) <= 128 + 1_000_000_000 + 12 * 1_000_000);
}

/// A field whose number the format does not allow keeps a message from being written,
/// wherever it stands.
pub proof fn disallowed_number_is_noticed(m: RaftMessage, number: u32)
    requires
        number == 0 || number > 0x1fff_ffff,
        ({
            ||| message_unknown(m) matches Some(table) && table.contains_key(number)
            ||| message_snapshot(m).unknown matches Some(table) && table.contains_key(number)
            ||| message_snapshot(m).metadata_unknown matches Some(table) && table.contains_key(
                number,
            )
            ||| message_snapshot(m).conf_unknown matches Some(table) && table.contains_key(number)
            ||| exists|i: int|
                0 <= i < message_entries(m).len() && (entry_parts(
                    #[trigger] message_entries(m)[i],
                ).unknown matches Some(table) && table.contains_key(number))
        }),
    ensures
        !sizable(m),
{
    if sizable(m) {
        if exists|i: int|
            0 <= i < message_entries(m).len() && (entry_parts(
                #[trigger] message_entries(m)[i],
            ).unknown matches Some(table) && table.contains_key(number)) {
            let i = choose|i: int|
                0 <= i < message_entries(m).len() && (entry_parts(
                    #[trigger] message_entries(m)[i],
                ).unknown matches Some(table) && table.contains_key(number));
            assert(numbers_ok(entry_parts(message_entries(m)[i]).unknown));
        }
        assert(!allowed(set![number]));
    }
}

} // verus!
