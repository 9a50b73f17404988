//! What holds of the ledger whatever is asked of it.

use vstd::prelude::*;
use vstd::bytes::{
    lemma_auto_spec_u32_to_from_le_bytes, lemma_auto_spec_u64_to_from_le_bytes,
    spec_u32_to_le_bytes, spec_u64_to_le_bytes_open,
    spec_u64_to_le_bytes_to_open,
};
use crate::codec::{
    db_bytes, db_of, ledger_bytes, ledger_encodes, ledger_of, lemma_db_of,
    lemma_ledger_bytes_len, lemma_ledger_of, lemma_registry_of, lemma_rows_bytes_len,
    price_bytes, registry_bytes, registry_of, rows_bytes, sound_ledger_of,
};
use crate::error::LedgerError;
use crate::ledger::{
    holds, keyed, lemma_upsert_all_keyed, lemma_upsert_one_keyed, lemma_without_keyed,
    lemma_without_origins, slot_of, survives, upsert_all, upsert_one, without, LedgerView,
};
use crate::program::{
    all_zero, committed, fresh_ledger, init_outcome, opened, remove_outcome, settled,
    transfer_outcome, upsert_outcome, verified_write_outcome,
};
use crate::record::{empty_price, zero_symbol, Caller, Price, SimplePriceDB};

verus! {

/// The last record of `records` that carries the symbol of `x`, or `x` itself
/// where none does.
pub open spec fn latest(x: Price, records: Seq<Price>) -> Price
    decreases records.len(),
{
    if records.len() == 0 {
        x
    } else if records.last().symbol == x.symbol {
        records.last()
    } else {
        latest(x, records.drop_last())
    }
}

/// After a batch, every slot that was occupied before holds the last record
/// of the batch for its symbol, or what it held where the batch has none.
pub proof fn lemma_upsert_all_slots(a: Seq<Price>, records: Seq<Price>)
    requires
        keyed(a),
    ensures
        upsert_all(a, records).len() >= a.len(),
        forall|i: int|
            0 <= i < a.len() ==> #[trigger] upsert_all(a, records)[i] == latest(a[i], records),
    decreases records.len(),
{
    if records.len() > 0 {
        let init = records.drop_last();
        let last = records.last();
        let mid = upsert_all(a, init);
        lemma_upsert_all_slots(a, init);
        lemma_upsert_all_keyed(a, init);
        lemma_upsert_one_keyed(mid, last);
        let end = upsert_one(mid, last);
        assert forall|i: int| 0 <= i < a.len() implies #[trigger] end[i] == latest(
            a[i],
            records,
        ) by {
            assert(mid[i] == latest(a[i], init));
            assert(mid[i].symbol == a[i].symbol);
            assert(a[i].symbol != zero_symbol());
            if last.symbol != zero_symbol() && holds(mid, last.symbol) {
                let at = slot_of(mid, last.symbol);
                if i != at {
                    if i < at {
                        assert(mid[i].symbol != mid[at].symbol);
                    } else {
                        assert(mid[at].symbol != mid[i].symbol);
                    }
                }
            } else if last.symbol != zero_symbol() {
                assert(mid[i].symbol != last.symbol);
            }
        }
    }
}

/// After a batch, every non-empty symbol of the batch is in the ledger.
pub proof fn lemma_upsert_all_covers(a: Seq<Price>, records: Seq<Price>)
    requires
        keyed(a),
    ensures
        forall|j: int|
            0 <= j < records.len() && (#[trigger] records[j]).symbol != zero_symbol() ==> holds(
                upsert_all(a, records),
                records[j].symbol,
            ),
    decreases records.len(),
{
    if records.len() > 0 {
        let init = records.drop_last();
        let last = records.last();
        let mid = upsert_all(a, init);
        lemma_upsert_all_covers(a, init);
        lemma_upsert_all_keyed(a, init);
        lemma_upsert_one_keyed(mid, last);
        let end = upsert_one(mid, last);
        assert forall|j: int|
            0 <= j < records.len() && (#[trigger] records[j]).symbol != zero_symbol() implies holds(
            end,
            records[j].symbol,
        ) by {
            if j < records.len() - 1 {
                assert(init[j] == records[j]);
                assert(holds(mid, records[j].symbol));
                let w = slot_of(mid, records[j].symbol);
                assert(end[w].symbol == mid[w].symbol);
            } else if holds(mid, last.symbol) {
                let at = slot_of(mid, last.symbol);
                assert(end[at].symbol == last.symbol);
            } else {
                assert(end[mid.len() as int].symbol == last.symbol);
            }
        }
    }
}

/// A batch whose non-empty symbols are all in the ledger occupies no new slot.
pub proof fn lemma_upsert_all_no_growth(b: Seq<Price>, records: Seq<Price>)
    requires
        keyed(b),
        forall|j: int|
            0 <= j < records.len() && (#[trigger] records[j]).symbol != zero_symbol() ==> holds(
                b,
                records[j].symbol,
            ),
    ensures
        upsert_all(b, records).len() == b.len(),
    decreases records.len(),
{
    if records.len() > 0 {
        let init = records.drop_last();
        let last = records.last();
        let mid = upsert_all(b, init);
        assert forall|j: int|
            0 <= j < init.len() && (#[trigger] init[j]).symbol != zero_symbol() implies holds(
            b,
            init[j].symbol,
        ) by {
            assert(init[j] == records[j]);
        }
        lemma_upsert_all_no_growth(b, init);
        lemma_upsert_all_keyed(b, init);
        if last.symbol != zero_symbol() {
            assert(records[records.len() - 1] == last);
            assert(holds(b, last.symbol));
            let w = slot_of(b, last.symbol);
            assert(mid[w].symbol == last.symbol);
            assert(holds(mid, last.symbol));
        }
    }
}

/// After a batch, every occupied slot already holds what the same batch
/// would put there.
pub proof fn lemma_upsert_all_settled(a: Seq<Price>, records: Seq<Price>)
    requires
        keyed(a),
    ensures
        forall|i: int|
            0 <= i < upsert_all(a, records).len() ==> latest(
                #[trigger] upsert_all(a, records)[i],
                records,
            ) == upsert_all(a, records)[i],
    decreases records.len(),
{
    if records.len() > 0 {
        let init = records.drop_last();
        let last = records.last();
        let mid = upsert_all(a, init);
        lemma_upsert_all_settled(a, init);
        lemma_upsert_all_keyed(a, init);
        lemma_upsert_one_keyed(mid, last);
        let end = upsert_one(mid, last);
        assert forall|i: int| 0 <= i < end.len() implies latest(#[trigger] end[i], records)
            == end[i] by {
            if last.symbol == zero_symbol() {
                assert(mid[i].symbol != zero_symbol());
                assert(latest(mid[i], init) == mid[i]);
            } else if holds(mid, last.symbol) {
                let at = slot_of(mid, last.symbol);
                if i != at {
                    if i < at {
                        assert(mid[i].symbol != mid[at].symbol);
                    } else {
                        assert(mid[at].symbol != mid[i].symbol);
                    }
                    assert(latest(mid[i], init) == mid[i]);
                }
            } else if i < mid.len() {
                assert(mid[i].symbol != last.symbol);
                assert(latest(mid[i], init) == mid[i]);
            }
        }
    }
}

/// `at` is the first position in `records` of the symbol that stands there.
pub open spec fn is_first_mention(records: Seq<Price>, at: int) -> bool {
    &&& 0 <= at < records.len()
    &&& forall|j: int| 0 <= j < at ==> (#[trigger] records[j]).symbol != records[at].symbol
}

/// Where a batch puts its new symbols: the slots it appends, taken in
/// order, carry the symbols that were not in the ledger, in the order in
/// which the batch first mentions them. The result gives, for each appended
/// slot, the position of that first mention.
pub proof fn lemma_upsert_all_appends_in_order(a: Seq<Price>, records: Seq<Price>) -> (firsts: Seq<
    int,
>)
    requires
        keyed(a),
    ensures
        firsts.len() == upsert_all(a, records).len() - a.len(),
        forall|k: int|
            0 <= k < firsts.len() ==> is_first_mention(records, #[trigger] firsts[k])
                && records[firsts[k]].symbol == upsert_all(a, records)[a.len() + k].symbol
                && !holds(a, records[firsts[k]].symbol),
        forall|p: int, q: int|
            0 <= p < q < firsts.len() ==> #[trigger] firsts[p] < #[trigger] firsts[q],
    decreases records.len(),
{
    if records.len() == 0 {
        Seq::empty()
    } else {
        let init = records.drop_last();
        let last = records.last();
        let mid = upsert_all(a, init);
        let end = upsert_one(mid, last);
        let head = lemma_upsert_all_appends_in_order(a, init);
        lemma_upsert_all_keyed(a, init);
        lemma_upsert_all_covers(a, init);
        lemma_upsert_one_keyed(mid, last);
        assert forall|k: int| 0 <= k < head.len() implies is_first_mention(
            records,
            #[trigger] head[k],
        ) && records[head[k]].symbol == end[a.len() + k].symbol && !holds(
            a,
            records[head[k]].symbol,
        ) by {
            assert(is_first_mention(init, head[k]));
            assert(init[head[k]] == records[head[k]]);
            assert forall|j: int| 0 <= j < head[k] implies (#[trigger] records[j]).symbol
                != records[head[k]].symbol by {
                assert(init[j] == records[j]);
            }
            assert(end[a.len() + k].symbol == mid[a.len() + k].symbol);
        }
        if last.symbol != zero_symbol() && !holds(mid, last.symbol) {
            let at = records.len() - 1;
            let firsts = head.push(at);
            assert forall|j: int| 0 <= j < at implies (#[trigger] records[j]).symbol
                != last.symbol by {
                assert(init[j] == records[j]);
                if init[j].symbol == last.symbol {
                    assert(holds(mid, init[j].symbol));
                }
            }
            assert(is_first_mention(records, at));
            assert(!holds(a, last.symbol)) by {
                if holds(a, last.symbol) {
                    let w = slot_of(a, last.symbol);
                    assert(mid[w].symbol == a[w].symbol);
                }
            }
            assert(end[mid.len() as int] == last);
            firsts
        } else {
            head
        }
    }
}

/// A batch applied a second time to the occupied slots changes nothing.
pub proof fn lemma_upsert_all_twice(a: Seq<Price>, records: Seq<Price>)
    requires
        keyed(a),
    ensures
        upsert_all(upsert_all(a, records), records) == upsert_all(a, records),
{
    let b = upsert_all(a, records);
    lemma_upsert_all_keyed(a, records);
    lemma_upsert_all_covers(a, records);
    lemma_upsert_all_no_growth(b, records);
    lemma_upsert_all_slots(b, records);
    lemma_upsert_all_settled(a, records);
    assert(upsert_all(b, records) =~= b);
}

/// An occupied prefix that fits the ledger becomes exactly its occupied
/// slots, and the ledger stays well formed.
pub proof fn lemma_with_active(l: LedgerView, rows: Seq<Price>)
    requires
        l.wf(),
        keyed(rows),
        rows.len() <= l.prices.len(),
    ensures
        l.with_active(rows).wf(),
        l.with_active(rows).active() == rows,
        l.with_active(rows).prices.len() == l.prices.len(),
        l.with_active(rows).owner == l.owner,
{
    assert(l.with_active(rows).active() =~= rows);
}

/// Idempotence of upsert: a batch that was applied with success, applied
/// again by the same caller, succeeds and leaves the ledger as it is.
pub proof fn upsert_twice_is_upsert_once(l: LedgerView, records: Seq<Price>, caller: Caller)
    requires
        l.wf(),
        l.upsert(records, caller) is Ok,
    ensures
        l.upsert(records, caller).unwrap().upsert(records, caller) == l.upsert(records, caller),
{
    let rows = upsert_all(l.active(), records);
    let v = l.with_active(rows);
    lemma_upsert_all_keyed(l.active(), records);
    lemma_with_active(l, rows);
    lemma_upsert_all_twice(l.active(), records);
    assert(v.with_active(rows).prices =~= v.prices);
}

/// In `v`, the record `first` occupies a slot before one that `second`
/// occupies.
pub open spec fn stands_before(v: LedgerView, first: Price, second: Price) -> bool {
    exists|p: int, q: int|
        0 <= p < q < v.current_size && #[trigger] v.prices[p] == first && #[trigger] v.prices[q]
            == second
}

/// What a successful upsert does to the slots. Every slot that was occupied
/// keeps its symbol and holds the batch's last record for it, or what it
/// held where the batch has none. The slots from the old count to the new
/// one hold the symbols that were not in the ledger, in the order in which
/// the batch first mentions them, each with the batch's last record for it.
/// The result gives the position of that first mention for each new slot.
pub proof fn upsert_updates_in_place_and_appends_in_order(
    l: LedgerView,
    records: Seq<Price>,
    caller: Caller,
) -> (firsts: Seq<int>)
    requires
        l.wf(),
        l.upsert(records, caller) is Ok,
    ensures
        l.upsert(records, caller).unwrap().current_size == l.current_size + firsts.len(),
        forall|i: int|
            0 <= i < l.current_size ==> #[trigger] l.upsert(records, caller).unwrap().prices[i]
                == latest(l.prices[i], records),
        forall|k: int|
            0 <= k < firsts.len() ==> is_first_mention(records, #[trigger] firsts[k])
                && !holds(l.active(), records[firsts[k]].symbol) && l.upsert(
                records,
                caller,
            ).unwrap().prices[l.current_size + k] == latest(records[firsts[k]], records),
        forall|p: int, q: int|
            0 <= p < q < firsts.len() ==> #[trigger] firsts[p] < #[trigger] firsts[q],
{
    let a = l.active();
    let rows = upsert_all(a, records);
    let v = l.with_active(rows);
    let firsts = lemma_upsert_all_appends_in_order(a, records);
    lemma_upsert_all_keyed(a, records);
    lemma_upsert_all_slots(a, records);
    lemma_upsert_all_settled(a, records);
    lemma_with_active(l, rows);
    assert forall|i: int| 0 <= i < l.current_size implies #[trigger] v.prices[i] == latest(
        l.prices[i],
        records,
    ) by {
        assert(v.active()[i] == v.prices[i]);
        assert(a[i] == l.prices[i]);
        assert(rows[i] == latest(a[i], records));
    }
    assert forall|k: int| 0 <= k < firsts.len() implies v.prices[l.current_size + k] == latest(
        records[#[trigger] firsts[k]],
        records,
    ) by {
        let at = l.current_size + k;
        assert(v.active()[at] == v.prices[at]);
        assert(latest(rows[at], records) == rows[at]);
        lemma_latest_by_symbol(rows[at], records[firsts[k]], records);
    }
    firsts
}

/// Which record is the latest for a symbol depends on the symbol alone,
/// once the batch mentions it.
pub proof fn lemma_latest_by_symbol(x: Price, y: Price, records: Seq<Price>)
    requires
        x.symbol == y.symbol,
        exists|j: int| 0 <= j < records.len() && (#[trigger] records[j]).symbol == x.symbol,
    ensures
        latest(x, records) == latest(y, records),
    decreases records.len(),
{
    if records.len() > 0 && records.last().symbol != x.symbol {
        let j = choose|j: int| 0 <= j < records.len() && (#[trigger] records[j]).symbol == x.symbol;
        assert(records.drop_last()[j] == records[j]);
        lemma_latest_by_symbol(x, y, records.drop_last());
    }
}

/// Idempotence of upsert as a request: whether the batch is applied or
/// refused, asking a second time leaves the ledger as the first time left it.
pub proof fn upsert_step_is_idempotent(l: LedgerView, records: Seq<Price>, caller: Caller)
    requires
        l.wf(),
    ensures
        after(after(l, Step::Upsert { records, caller }), Step::Upsert { records, caller })
            == after(l, Step::Upsert { records, caller }),
{
    if l.upsert(records, caller) is Ok {
        upsert_twice_is_upsert_once(l, records, caller);
    }
}

/// Stability of removal: two records that both survive a removal stand
/// after it in the order in which they stood before it.
pub proof fn remove_keeps_order(
    l: LedgerView,
    symbols: Seq<[u8; 8]>,
    caller: Caller,
    i: int,
    j: int,
)
    requires
        l.wf(),
        l.remove(symbols, caller) is Ok,
        0 <= i < j < l.current_size,
        survives(l.prices[i], symbols),
        survives(l.prices[j], symbols),
    ensures
        stands_before(l.remove(symbols, caller).unwrap(), l.prices[i], l.prices[j]),
{
    let active = l.active();
    let rows = without(active, symbols);
    let origins = lemma_without_origins(active, symbols);
    lemma_without_keyed(active, symbols);
    lemma_with_active(l, rows);
    let v = l.with_active(rows);
    assert(active[i] == l.prices[i] && active[j] == l.prices[j]);
    assert(origins.contains(i));
    assert(origins.contains(j));
    let p = choose|p: int| 0 <= p < origins.len() && origins[p] == i;
    let q = choose|q: int| 0 <= q < origins.len() && origins[q] == j;
    if q < p {
        assert(origins[q] < origins[p]);
    }
    assert(p < q);
    assert(v.active()[p] == v.prices[p] && v.active()[q] == v.prices[q]);
    assert(0 <= p < q < v.current_size && v.prices[p] == l.prices[i] && v.prices[q] == l.prices[j]);
    assert(stands_before(v, l.prices[i], l.prices[j]));
}

/// Removal drops exactly the named records: what is left are the survivors
/// and nothing else.
pub proof fn remove_keeps_exactly_the_survivors(
    l: LedgerView,
    symbols: Seq<[u8; 8]>,
    caller: Caller,
)
    requires
        l.wf(),
        l.remove(symbols, caller) is Ok,
    ensures
        forall|i: int|
            0 <= i < l.current_size && survives(#[trigger] l.prices[i], symbols) ==> l.remove(
                symbols,
                caller,
            ).unwrap().active().contains(l.prices[i]),
        forall|p: int|
            0 <= p < l.remove(symbols, caller).unwrap().current_size ==> survives(
                #[trigger] l.remove(symbols, caller).unwrap().prices[p],
                symbols,
            ) && l.active().contains(l.remove(symbols, caller).unwrap().prices[p]),
{
    let active = l.active();
    let rows = without(active, symbols);
    let origins = lemma_without_origins(active, symbols);
    lemma_without_keyed(active, symbols);
    lemma_with_active(l, rows);
    let v = l.with_active(rows);
    assert forall|i: int|
        0 <= i < l.current_size && survives(#[trigger] l.prices[i], symbols) implies v.active()
        .contains(l.prices[i]) by {
        assert(active[i] == l.prices[i]);
        assert(origins.contains(i));
        let p = choose|p: int| 0 <= p < origins.len() && origins[p] == i;
        assert(rows[p] == l.prices[i]);
    }
    assert forall|p: int| 0 <= p < v.current_size implies survives(#[trigger] v.prices[p], symbols)
        && l.active().contains(v.prices[p]) by {
        assert(v.active()[p] == v.prices[p]);
        assert(rows[p] == active[origins[p]]);
    }
}

/// One request made of a ledger.
pub enum Step {
    Transfer { new_owner: [u8; 32], caller: Caller },
    Upsert { records: Seq<Price>, caller: Caller },
    Remove { symbols: Seq<[u8; 8]>, caller: Caller },
}

/// The ledger after one request: what the request yields where it succeeds,
/// the ledger as it was where it is refused.
pub open spec fn after(l: LedgerView, step: Step) -> LedgerView {
    let outcome = match step {
        Step::Transfer { new_owner, caller } => l.transfer(new_owner, caller),
        Step::Upsert { records, caller } => l.upsert(records, caller),
        Step::Remove { symbols, caller } => l.remove(symbols, caller),
    };
    match outcome {
        Ok(next) => next,
        Err(_) => l,
    }
}

/// The ledger after a run of requests, taken in order.
pub open spec fn after_all(l: LedgerView, steps: Seq<Step>) -> LedgerView
    decreases steps.len(),
{
    if steps.len() == 0 {
        l
    } else {
        after(after_all(l, steps.drop_last()), steps.last())
    }
}

/// One request keeps a well-formed ledger well formed and its number of
/// slots as it was.
pub proof fn step_keeps_invariant(l: LedgerView, step: Step)
    requires
        l.wf(),
    ensures
        after(l, step).wf(),
        after(l, step).prices.len() == l.prices.len(),
{
    match step {
        Step::Transfer { new_owner, caller } => {},
        Step::Upsert { records, caller } => {
            if l.upsert(records, caller) is Ok {
                lemma_upsert_all_keyed(l.active(), records);
                lemma_with_active(l, upsert_all(l.active(), records));
            }
        },
        Step::Remove { symbols, caller } => {
            if l.remove(symbols, caller) is Ok {
                lemma_without_keyed(l.active(), symbols);
                lemma_with_active(l, without(l.active(), symbols));
            }
        },
    }
}

/// The capacity invariant: after any run of requests on a new ledger, the
/// count of occupied slots is within the capacity the ledger was made with,
/// and every slot past that count is empty.
pub proof fn capacity_invariant(capacity: u8, owner: [u8; 32], steps: Seq<Step>)
    ensures
        after_all(fresh_ledger(capacity, owner), steps).wf(),
        after_all(fresh_ledger(capacity, owner), steps).prices.len() == capacity,
        after_all(fresh_ledger(capacity, owner), steps).current_size <= capacity,
        forall|i: int|
            after_all(fresh_ledger(capacity, owner), steps).current_size <= i < capacity
                ==> #[trigger] after_all(fresh_ledger(capacity, owner), steps).prices[i]
                == empty_price(),
    decreases steps.len(),
{
    let start = fresh_ledger(capacity, owner);
    if steps.len() == 0 {
        assert(start.active() =~= Seq::<Price>::empty());
    } else {
        capacity_invariant(capacity, owner, steps.drop_last());
        step_keeps_invariant(after_all(start, steps.drop_last()), steps.last());
    }
}

/// Atomicity: an operation that answers with an error has left its buffer
/// byte for byte as it found it.
pub proof fn failure_changes_nothing(
    outcome: Result<Seq<u8>, LedgerError>,
    before: Seq<u8>,
    after: Seq<u8>,
    r: Result<(), LedgerError>,
)
    requires
        settled(outcome, before, after, r),
        r is Err,
    ensures
        after == before,
        outcome is Err,
{
}

/// The authorization gate on the ledger: a caller that signed but is not
/// the owner is refused as such by every owner-gated request.
pub proof fn stranger_is_refused(
    l: LedgerView,
    caller: Caller,
    new_owner: [u8; 32],
    records: Seq<Price>,
    symbols: Seq<[u8; 8]>,
)
    requires
        caller.is_signer,
        caller.key != l.owner,
    ensures
        l.transfer(new_owner, caller) == Err::<LedgerView, LedgerError>(LedgerError::NotOwner),
        l.upsert(records, caller) == Err::<LedgerView, LedgerError>(LedgerError::NotOwner),
        l.remove(symbols, caller) == Err::<LedgerView, LedgerError>(LedgerError::NotOwner),
{
}

/// The authorization gate on the buffer: where the buffer holds a ledger
/// and the caller signed but is not its owner, every owner-gated operation
/// is owed the refusal `NotOwner`, and so changes no byte.
pub proof fn stranger_is_refused_at_the_buffer(
    bytes: Seq<u8>,
    caller: Caller,
    new_owner: [u8; 32],
    records: Seq<Price>,
    symbols: Seq<[u8; 8]>,
)
    requires
        !all_zero(bytes),
        sound_ledger_of(bytes) is Some,
        caller.is_signer,
        caller.key != sound_ledger_of(bytes).unwrap().owner,
    ensures
        transfer_outcome(bytes, new_owner, caller) == Err::<Seq<u8>, LedgerError>(
            LedgerError::NotOwner,
        ),
        upsert_outcome(bytes, records, caller) == Err::<Seq<u8>, LedgerError>(
            LedgerError::NotOwner,
        ),
        remove_outcome(bytes, symbols, caller) == Err::<Seq<u8>, LedgerError>(
            LedgerError::NotOwner,
        ),
{
}

/// Reading inverts writing: the image of a ledger reads back as that
/// ledger, and as a well-formed one if it was.
pub proof fn ledger_reads_back(l: LedgerView)
    requires
        l.prices.len() <= u32::MAX,
    ensures
        ledger_of(ledger_bytes(l)) == Some(l),
        l.wf() ==> sound_ledger_of(ledger_bytes(l)) == Some(l),
{
    lemma_ledger_of(l, ledger_bytes(l));
}

/// Reading inverts writing: the image of a single-slot ledger has 48 bytes
/// and reads back as that ledger.
pub proof fn db_reads_back(db: SimplePriceDB)
    ensures
        db_bytes(db).len() == 48,
        db_of(db_bytes(db)) == Some(db),
{
    lemma_db_of(db, db_bytes(db));
}

/// Reading inverts writing: the image of a registry reads back as the list
/// it was made from, duplicates and order included.
pub proof fn registry_reads_back(keys: Seq<[u8; 32]>)
    requires
        keys.len() <= u32::MAX,
    ensures
        registry_of(registry_bytes(keys)) == Some(keys),
{
    lemma_registry_of(keys, registry_bytes(keys));
}

/// A buffer that reads as a ledger has exactly the size of that ledger, so
/// a ledger of as many slots always fits: the buffer then holds the new
/// image and nothing else, and reads back as the new ledger.
pub proof fn commit_reads_back(bytes: Seq<u8>, next: LedgerView)
    requires
        sound_ledger_of(bytes) is Some,
        next.wf(),
        next.prices.len() == sound_ledger_of(bytes).unwrap().prices.len(),
    ensures
        committed(bytes, Ok(next)) == Ok::<Seq<u8>, LedgerError>(ledger_bytes(next)),
        ledger_bytes(next).len() == bytes.len(),
        sound_ledger_of(ledger_bytes(next)) == Some(next),
{
    let l = sound_ledger_of(bytes).unwrap();
    assert(ledger_encodes(l, bytes));
    lemma_ledger_bytes_len(l);
    lemma_ledger_bytes_len(next);
    lemma_ledger_of(next, ledger_bytes(next));
    assert(ledger_bytes(next) + bytes.skip(ledger_bytes(next).len() as int) =~= ledger_bytes(next));
}

/// On a buffer that holds a ledger, the operations on the buffer are the
/// operations on the ledger: each fails exactly as the ledger's operation
/// does, and on success leaves the image of the ledger that it yields,
/// which is well formed and has as many slots as before.
pub proof fn buffer_follows_ledger(
    bytes: Seq<u8>,
    caller: Caller,
    new_owner: [u8; 32],
    records: Seq<Price>,
    symbols: Seq<[u8; 8]>,
)
    requires
        opened(bytes, caller) is Ok,
    ensures
        transfer_outcome(bytes, new_owner, caller) == match opened(bytes, caller).unwrap().transfer(
            new_owner,
            caller,
        ) {
            Ok(next) => Ok::<Seq<u8>, LedgerError>(ledger_bytes(next)),
            Err(e) => Err(e),
        },
        upsert_outcome(bytes, records, caller) == match opened(bytes, caller).unwrap().upsert(
            records,
            caller,
        ) {
            Ok(next) => Ok::<Seq<u8>, LedgerError>(ledger_bytes(next)),
            Err(e) => Err(e),
        },
        remove_outcome(bytes, symbols, caller) == match opened(bytes, caller).unwrap().remove(
            symbols,
            caller,
        ) {
            Ok(next) => Ok::<Seq<u8>, LedgerError>(ledger_bytes(next)),
            Err(e) => Err(e),
        },
        forall|step: Step| #[trigger]
            sound_ledger_of(ledger_bytes(after(opened(bytes, caller).unwrap(), step))) == Some(
                after(opened(bytes, caller).unwrap(), step),
            ),
{
    let l = opened(bytes, caller).unwrap();
    step_keeps_invariant(l, Step::Transfer { new_owner, caller });
    step_keeps_invariant(l, Step::Upsert { records, caller });
    step_keeps_invariant(l, Step::Remove { symbols, caller });
    commit_reads_back(bytes, after(l, Step::Transfer { new_owner, caller }));
    commit_reads_back(bytes, after(l, Step::Upsert { records, caller }));
    commit_reads_back(bytes, after(l, Step::Remove { symbols, caller }));
    assert forall|step: Step| #[trigger]
        sound_ledger_of(ledger_bytes(after(l, step))) == Some(after(l, step)) by {
        step_keeps_invariant(l, step);
        commit_reads_back(bytes, after(l, step));
    }
}

/// A buffer of exactly the size of a ledger of `capacity` slots, once
/// initialised, reads back as the new ledger.
pub proof fn init_reads_back(bytes: Seq<u8>, capacity: u8, owner: [u8; 32])
    requires
        init_outcome(bytes, capacity, owner) is Ok,
        bytes.len() == 37 + 32 * capacity,
    ensures
        init_outcome(bytes, capacity, owner) == Ok::<Seq<u8>, LedgerError>(
            ledger_bytes(fresh_ledger(capacity, owner)),
        ),
        sound_ledger_of(ledger_bytes(fresh_ledger(capacity, owner))) == Some(
            fresh_ledger(capacity, owner),
        ),
{
    let l = fresh_ledger(capacity, owner);
    capacity_invariant(capacity, owner, Seq::empty());
    lemma_ledger_bytes_len(l);
    lemma_ledger_of(l, ledger_bytes(l));
    assert(ledger_bytes(l) + bytes.skip(ledger_bytes(l).len() as int) =~= ledger_bytes(l));
}

/// A validator-attested write that succeeds changes the latest price and
/// nothing else: the buffer reads back as the same single-slot ledger with
/// the proof's rate.
pub proof fn verified_write_reads_back(proof: Seq<u8>, ledger: Seq<u8>, registry: Seq<u8>)
    requires
        verified_write_outcome(proof, ledger, registry) is Ok,
    ensures
        db_of(ledger) is Some,
        db_of(verified_write_outcome(proof, ledger, registry).unwrap()) == Some(
            SimplePriceDB {
                latest_price: crate::program::proof_rate(proof),
                ..db_of(ledger).unwrap()
            },
        ),
{
    let db = db_of(ledger).unwrap();
    let next = SimplePriceDB { latest_price: crate::program::proof_rate(proof), ..db };
    lemma_db_of(db, ledger);
    lemma_db_of(next, db_bytes(next));
    assert(db_bytes(next) + ledger.skip(db_bytes(next).len() as int) =~= db_bytes(next));
}

/// The image of the empty record is 32 zero bytes.
pub proof fn lemma_empty_price_bytes()
    ensures
        price_bytes(empty_price()).len() == 32,
        all_zero(price_bytes(empty_price())),
{
    lemma_auto_spec_u64_to_from_le_bytes();
    spec_u64_to_le_bytes_to_open(0);
    let z = spec_u64_to_le_bytes_open(0);
    assert(0u64 & 0xff == 0) by (bit_vector);
    assert((0u64 >> 8) & 0xff == 0) by (bit_vector);
    assert((0u64 >> 16) & 0xff == 0) by (bit_vector);
    assert((0u64 >> 24) & 0xff == 0) by (bit_vector);
    assert((0u64 >> 32) & 0xff == 0) by (bit_vector);
    assert((0u64 >> 40) & 0xff == 0) by (bit_vector);
    assert((0u64 >> 48) & 0xff == 0) by (bit_vector);
    assert((0u64 >> 56) & 0xff == 0) by (bit_vector);
    assert(forall|i: int| 0 <= i < 8 ==> z[i] == 0);
    assert(zero_symbol()@.len() == 8);
    assert(forall|i: int| 0 <= i < 8 ==> zero_symbol()@[i] == 0);
}

/// The image of a row of empty records is all zero.
pub proof fn lemma_empty_rows_bytes(rows: Seq<Price>)
    requires
        forall|i: int| 0 <= i < rows.len() ==> #[trigger] rows[i] == empty_price(),
    ensures
        all_zero(rows_bytes(rows)),
    decreases rows.len(),
{
    if rows.len() > 0 {
        lemma_empty_rows_bytes(rows.drop_last());
        lemma_empty_price_bytes();
        assert(rows.last() == empty_price());
    }
}

/// A buffer that holds a ledger and a non-zero byte still holds a non-zero
/// byte once it holds a ledger of the same owner and number of slots with
/// at least as many occupied slots.
pub proof fn lemma_written_stays_written(l: LedgerView, next: LedgerView)
    requires
        l.wf(),
        !all_zero(ledger_bytes(l)),
        next.owner == l.owner,
        next.prices.len() == l.prices.len(),
        next.current_size >= l.current_size,
    ensures
        !all_zero(ledger_bytes(next)),
{
    lemma_auto_spec_u32_to_from_le_bytes();
    lemma_ledger_bytes_len(l);
    lemma_ledger_bytes_len(next);
    lemma_rows_bytes_len(l.prices);
    let a = ledger_bytes(l);
    let b = ledger_bytes(next);
    let cap = spec_u32_to_le_bytes(l.prices.len() as u32);
    assert(l.owner@.len() == 32);
    let i = choose|i: int| 0 <= i < a.len() && a[i] != 0;
    if i < 32 {
        assert(a[i] == l.owner@[i]);
        assert(b[i] == next.owner@[i]);
    } else if 33 <= i < 37 {
        assert(a[i] == cap[i - 33]);
        assert(b[i] == cap[i - 33]);
    } else if l.current_size > 0 {
        assert(b[32] == next.current_size);
    } else if i == 32 {
        assert(a[32] == l.current_size);
    } else {
        assert(l.active() =~= Seq::<Price>::empty());
        lemma_empty_rows_bytes(l.prices);
        assert(a[i] == rows_bytes(l.prices)[i - 37]);
    }
}

/// Idempotence of upsert on the buffer: where a batch was applied with
/// success, applying it again to what the buffer then holds succeeds and
/// leaves every byte as it is.
pub proof fn buffer_upsert_twice_is_once(bytes: Seq<u8>, records: Seq<Price>, caller: Caller)
    requires
        upsert_outcome(bytes, records, caller) is Ok,
    ensures
        upsert_outcome(upsert_outcome(bytes, records, caller).unwrap(), records, caller)
            == upsert_outcome(bytes, records, caller),
{
    let l = opened(bytes, caller).unwrap();
    let v = l.upsert(records, caller).unwrap();
    assert(ledger_encodes(l, bytes));
    buffer_follows_ledger(bytes, caller, l.owner, records, Seq::empty());
    step_keeps_invariant(l, Step::Upsert { records, caller });
    commit_reads_back(bytes, v);
    lemma_upsert_all_keyed(l.active(), records);
    lemma_with_active(l, upsert_all(l.active(), records));
    lemma_written_stays_written(l, v);
    upsert_twice_is_upsert_once(l, records, caller);
    let image = ledger_bytes(v);
    assert(opened(image, caller) == Ok::<LedgerView, LedgerError>(v));
    commit_reads_back(image, v);
}

} // verus!
