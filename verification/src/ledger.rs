//! The bounded price ledger as a value: its model, its invariant and the
//! owner-gated operations on it.

use vstd::prelude::*;
use crate::error::LedgerError;
use crate::record::{bytes_equal, empty_price, zero_symbol, Caller, Price};

verus! {

/// Some record of `s` carries `symbol`.
pub open spec fn holds(s: Seq<Price>, symbol: [u8; 8]) -> bool {
    exists|i: int| 0 <= i < s.len() && (#[trigger] s[i]).symbol == symbol
}

/// A position in `s` at which `symbol` stands, where there is one.
pub open spec fn slot_of(s: Seq<Price>, symbol: [u8; 8]) -> int {
    choose|i: int| 0 <= i < s.len() && (#[trigger] s[i]).symbol == symbol
}

/// No record of `s` is empty and no symbol occurs twice.
pub open spec fn keyed(s: Seq<Price>) -> bool {
    &&& forall|i: int| 0 <= i < s.len() ==> (#[trigger] s[i]).symbol != zero_symbol()
    &&& forall|i: int, j: int|
        0 <= i < j < s.len() ==> (#[trigger] s[i]).symbol != (#[trigger] s[j]).symbol
}

/// One record applied to the occupied slots: an empty record is ignored, a
/// known symbol is overwritten where it stands, a new one is appended.
pub open spec fn upsert_one(s: Seq<Price>, record: Price) -> Seq<Price> {
    if record.symbol == zero_symbol() {
        s
    } else if holds(s, record.symbol) {
        s.update(slot_of(s, record.symbol), record)
    } else {
        s.push(record)
    }
}

/// A batch applied record by record, in input order, so that of two records
/// with one symbol the later one stays.
pub open spec fn upsert_all(s: Seq<Price>, records: Seq<Price>) -> Seq<Price>
    decreases records.len(),
{
    if records.len() == 0 {
        s
    } else {
        upsert_one(upsert_all(s, records.drop_last()), records.last())
    }
}

/// A record stays through a removal of `symbols` when it is not empty and
/// its symbol is not among them.
pub open spec fn survives(record: Price, symbols: Seq<[u8; 8]>) -> bool {
    record.symbol != zero_symbol() && !symbols.contains(record.symbol)
}

/// The records of `s` that survive a removal of `symbols`, in their order.
pub open spec fn without(s: Seq<Price>, symbols: Seq<[u8; 8]>) -> Seq<Price>
    decreases s.len(),
{
    if s.len() == 0 {
        s
    } else if survives(s.last(), symbols) {
        without(s.drop_last(), symbols).push(s.last())
    } else {
        without(s.drop_last(), symbols)
    }
}

/// The mathematical value of a ledger.
pub struct LedgerView {
    pub owner: [u8; 32],
    pub current_size: u8,
    pub prices: Seq<Price>,
}

impl LedgerView {
    /// The occupied slots.
    pub open spec fn active(self) -> Seq<Price> {
        self.prices.take(self.current_size as int)
    }

    /// The ledger's invariant: at most 255 slots, the occupied ones first,
    /// keyed by distinct non-zero symbols, and every other slot empty.
    pub open spec fn wf(self) -> bool {
        &&& self.prices.len() <= u8::MAX
        &&& self.current_size <= self.prices.len()
        &&& keyed(self.active())
        &&& forall|i: int|
            self.current_size <= i < self.prices.len() ==> #[trigger] self.prices[i]
                == empty_price()
    }

    /// The refusal that `caller` meets, if any: a caller that did not sign
    /// is turned away before ownership is looked at.
    pub open spec fn gate(self, caller: Caller) -> Option<LedgerError> {
        if !caller.is_signer {
            Some(LedgerError::MissingSignature)
        } else if caller.key != self.owner {
            Some(LedgerError::NotOwner)
        } else {
            None
        }
    }

    /// The same ledger with `rows` as its occupied slots and the rest empty.
    pub open spec fn with_active(self, rows: Seq<Price>) -> LedgerView {
        LedgerView {
            owner: self.owner,
            current_size: rows.len() as u8,
            prices: rows + Seq::new(
                (self.prices.len() - rows.len()) as nat,
                |i: int| empty_price(),
            ),
        }
    }

    /// What a transfer of ownership yields.
    pub open spec fn transfer(self, new_owner: [u8; 32], caller: Caller) -> Result<
        LedgerView,
        LedgerError,
    > {
        match self.gate(caller) {
            Some(e) => Err(e),
            None => Ok(LedgerView { owner: new_owner, ..self }),
        }
    }

    /// What an upsert of `records` yields: all of the batch or none of it.
    pub open spec fn upsert(self, records: Seq<Price>, caller: Caller) -> Result<
        LedgerView,
        LedgerError,
    > {
        match self.gate(caller) {
            Some(e) => Err(e),
            None => {
                let rows = upsert_all(self.active(), records);
                if rows.len() > self.prices.len() {
                    Err(LedgerError::CapacityExceeded)
                } else {
                    Ok(self.with_active(rows))
                }
            },
        }
    }

    /// What a removal of `symbols` yields.
    pub open spec fn remove(self, symbols: Seq<[u8; 8]>, caller: Caller) -> Result<
        LedgerView,
        LedgerError,
    > {
        match self.gate(caller) {
            Some(e) => Err(e),
            None => Ok(self.with_active(without(self.active(), symbols))),
        }
    }
}

/// Applying one record keeps the occupied slots keyed.
pub proof fn lemma_upsert_one_keyed(s: Seq<Price>, record: Price)
    requires
        keyed(s),
    ensures
        keyed(upsert_one(s, record)),
        upsert_one(s, record).len() >= s.len(),
        upsert_one(s, record).len() <= s.len() + 1,
        forall|i: int|
            0 <= i < s.len() ==> (#[trigger] upsert_one(s, record)[i]).symbol == s[i].symbol,
{
    let t = upsert_one(s, record);
    if record.symbol != zero_symbol() && holds(s, record.symbol) {
        let at = slot_of(s, record.symbol);
        assert(s[at].symbol == record.symbol);
        assert forall|i: int| 0 <= i < t.len() implies (#[trigger] t[i]).symbol == s[i].symbol by {}
    } else if record.symbol != zero_symbol() {
        assert forall|i: int, j: int| 0 <= i < j < t.len() implies (#[trigger] t[i]).symbol != (
        #[trigger] t[j]).symbol by {
            if j == s.len() {
                assert(s[i].symbol != record.symbol);
            }
        }
    }
}

/// Applying a batch keeps the occupied slots keyed, never shortens them,
/// adds at most one slot for each record and never moves a symbol.
pub proof fn lemma_upsert_all_keyed(s: Seq<Price>, records: Seq<Price>)
    requires
        keyed(s),
    ensures
        keyed(upsert_all(s, records)),
        upsert_all(s, records).len() >= s.len(),
        upsert_all(s, records).len() <= s.len() + records.len(),
        forall|i: int|
            0 <= i < s.len() ==> (#[trigger] upsert_all(s, records)[i]).symbol == s[i].symbol,
    decreases records.len(),
{
    if records.len() > 0 {
        lemma_upsert_all_keyed(s, records.drop_last());
        lemma_upsert_one_keyed(upsert_all(s, records.drop_last()), records.last());
    }
}

/// The positions in `s` of the records that survive a removal of `symbols`:
/// they rise strictly, name exactly the survivors, and the record at each
/// is the one that `without` puts at that rank.
pub proof fn lemma_without_origins(s: Seq<Price>, symbols: Seq<[u8; 8]>) -> (origins: Seq<int>)
    ensures
        origins.len() == without(s, symbols).len(),
        origins.len() <= s.len(),
        forall|k: int|
            0 <= k < origins.len() ==> 0 <= #[trigger] origins[k] < s.len() && without(
                s,
                symbols,
            )[k] == s[origins[k]] && survives(s[origins[k]], symbols),
        forall|p: int, q: int|
            0 <= p < q < origins.len() ==> #[trigger] origins[p] < #[trigger] origins[q],
        forall|j: int|
            0 <= j < s.len() && survives(#[trigger] s[j], symbols) ==> origins.contains(j),
    decreases s.len(),
{
    if s.len() == 0 {
        Seq::empty()
    } else {
        let head = lemma_without_origins(s.drop_last(), symbols);
        let last = s.len() - 1;
        if survives(s.last(), symbols) {
            let origins = head.push(last);
            assert forall|j: int|
                0 <= j < s.len() && survives(#[trigger] s[j], symbols) implies origins.contains(
                j,
            ) by {
                if j < last {
                    assert(s.drop_last()[j] == s[j]);
                    assert(head.contains(j));
                    let k = choose|k: int| 0 <= k < head.len() && head[k] == j;
                    assert(origins[k] == j);
                } else {
                    assert(origins[head.len() as int] == j);
                }
            }
            origins
        } else {
            assert forall|j: int|
                0 <= j < s.len() && survives(#[trigger] s[j], symbols) implies head.contains(
                j,
            ) by {
                assert(s.drop_last()[j] == s[j]);
            }
            head
        }
    }
}

/// What is left after a removal is keyed if what was there was.
pub proof fn lemma_without_keyed(s: Seq<Price>, symbols: Seq<[u8; 8]>)
    requires
        keyed(s),
    ensures
        keyed(without(s, symbols)),
        without(s, symbols).len() <= s.len(),
{
    let origins = lemma_without_origins(s, symbols);
    let w = without(s, symbols);
    assert forall|i: int, j: int| 0 <= i < j < w.len() implies (#[trigger] w[i]).symbol != (
    #[trigger] w[j]).symbol by {
        assert(origins[i] < origins[j]);
        assert(s[origins[i]].symbol != s[origins[j]].symbol);
    }
    assert forall|i: int| 0 <= i < w.len() implies (#[trigger] w[i]).symbol != zero_symbol() by {
        assert(w[i] == s[origins[i]]);
    }
}

/// The ledger: an owner, a fixed row of slots and the count of occupied ones.
#[derive(Clone, Debug, PartialEq)]
pub struct StdReferenceBasic {
    pub owner: [u8; 32],
    pub current_size: u8,
    pub prices: Vec<Price>,
}

impl View for StdReferenceBasic {
    type V = LedgerView;

    open spec fn view(&self) -> LedgerView {
        LedgerView { owner: self.owner, current_size: self.current_size, prices: self.prices@ }
    }
}

/// The first position among the first `len` slots at which `symbol` stands.
pub fn find_symbol(slots: &Vec<Price>, len: usize, symbol: &[u8; 8]) -> (r: Option<usize>)
    requires
        len <= slots.len(),
    ensures
        match r {
            Some(at) => at < len && slots@[at as int].symbol == *symbol && forall|j: int|
                0 <= j < at ==> (#[trigger] slots@[j]).symbol != *symbol,
            None => !holds(slots@.take(len as int), *symbol),
        },
{
    let mut i: usize = 0;
    while i < len
        invariant
            0 <= i <= len <= slots.len(),
            forall|j: int| 0 <= j < i ==> (#[trigger] slots@[j]).symbol != *symbol,
        decreases len - i,
    {
        if bytes_equal(&slots[i].symbol, symbol) {
            return Some(i);
        }
        i += 1;
    }
    assert forall|j: int| 0 <= j < slots@.take(len as int).len() implies (#[trigger] slots@.take(
        len as int,
    )[j]).symbol != *symbol by {
        assert(slots@.take(len as int)[j] == slots@[j]);
    }
    None
}

/// Whether `symbol` is one of `symbols`.
pub fn names_symbol(symbols: &Vec<[u8; 8]>, symbol: &[u8; 8]) -> (r: bool)
    ensures
        r == symbols@.contains(*symbol),
{
    let mut i: usize = 0;
    while i < symbols.len()
        invariant
            0 <= i <= symbols.len(),
            forall|j: int| 0 <= j < i ==> symbols@[j] != *symbol,
        decreases symbols.len() - i,
    {
        if bytes_equal(&symbols[i], symbol) {
            assert(symbols@[i as int] == *symbol);
            return true;
        }
        i += 1;
    }
    false
}

/// Fills `rows` with empty records up to `capacity` slots.
fn pad(rows: &mut Vec<Price>, capacity: usize)
    requires
        old(rows).len() <= capacity,
    ensures
        final(rows)@ == old(rows)@ + Seq::new(
            (capacity - old(rows).len()) as nat,
            |i: int| empty_price(),
        ),
{
    while rows.len() < capacity
        invariant
            old(rows).len() <= rows.len() <= capacity,
            rows@ == old(rows)@ + Seq::new(
                (rows.len() - old(rows).len()) as nat,
                |i: int| empty_price(),
            ),
        decreases capacity - rows.len(),
    {
        rows.push(Price::empty());
        assert(rows@ =~= old(rows)@ + Seq::new(
            (rows.len() - old(rows).len()) as nat,
            |i: int| empty_price(),
        ));
    }
}

impl StdReferenceBasic {
    /// A fresh ledger of `capacity` empty slots.
    pub fn new(capacity: u8, owner: [u8; 32]) -> (r: StdReferenceBasic)
        ensures
            r@.wf(),
            r@.owner == owner,
            r@.current_size == 0,
            r@.prices == Seq::new(capacity as nat, |i: int| empty_price()),
    {
        let mut prices: Vec<Price> = Vec::new();
        pad(&mut prices, capacity as usize);
        assert(prices@ =~= Seq::new(capacity as nat, |i: int| empty_price()));
        StdReferenceBasic { owner, current_size: 0, prices }
    }

    /// The number of slots, fixed when the ledger was made.
    pub fn capacity(&self) -> (r: usize)
        ensures
            r == self@.prices.len(),
    {
        self.prices.len()
    }

    /// Decides whether the invariant holds of this value.
    pub fn is_well_formed(&self) -> (r: bool)
        ensures
            r == self@.wf(),
    {
        let n = self.prices.len();
        let size = self.current_size as usize;
        if n > 255 || size > n {
            return false;
        }
        let mut i: usize = 0;
        while i < size
            invariant
                0 <= i <= size <= n == self.prices.len(),
                size == self.current_size,
                keyed(self.prices@.take(i as int)),
            decreases size - i,
        {
            let here = &self.prices[i];
            let ghost head = self.prices@.take(i as int);
            let ghost next = self.prices@.take(i + 1);
            if here.is_empty() {
                assert(self@.active()[i as int].symbol == zero_symbol());
                return false;
            }
            match find_symbol(&self.prices, i, &here.symbol) {
                Some(at) => {
                    assert(self@.active()[at as int].symbol == self@.active()[i as int].symbol);
                    return false;
                },
                None => {},
            }
            assert forall|a: int, b: int| 0 <= a < b < next.len() implies (#[trigger] next[a])
                .symbol != (#[trigger] next[b]).symbol by {
                if b == i {
                    assert(head[a].symbol != here.symbol);
                } else {
                    assert(head[a].symbol != head[b].symbol);
                }
            }
            assert forall|a: int| 0 <= a < next.len() implies (#[trigger] next[a]).symbol
                != zero_symbol() by {
                if a < i {
                    assert(head[a].symbol != zero_symbol());
                }
            }
            i += 1;
        }
        let mut k: usize = size;
        while k < n
            invariant
                size <= k <= n == self.prices.len(),
                size == self.current_size,
                forall|j: int| size <= j < k ==> #[trigger] self.prices@[j] == empty_price(),
            decreases n - k,
        {
            let slot = &self.prices[k];
            if !(slot.is_empty() && slot.rate == 0 && slot.last_updated == 0 && slot.request_id
                == 0) {
                return false;
            }
            k += 1;
        }
        true
    }

    /// Hands the ledger to `new_owner`, where the caller signed and owns it.
    pub fn transfer_ownership(&mut self, new_owner: [u8; 32], caller: &Caller) -> (r: Result<
        (),
        LedgerError,
    >)
        ensures
            old(self)@.wf() ==> final(self)@.wf(),
            match old(self)@.transfer(new_owner, *caller) {
                Ok(next) => r is Ok && final(self)@ == next,
                Err(e) => r == Err::<(), LedgerError>(e) && final(self)@ == old(self)@,
            },
    {
        if !caller.is_signer {
            return Err(LedgerError::MissingSignature);
        }
        if !bytes_equal(&caller.key, &self.owner) {
            return Err(LedgerError::NotOwner);
        }
        self.owner = new_owner;
        Ok(())
    }

    /// Applies a batch of records: known symbols are overwritten in place,
    /// new ones are appended in input order, and a batch that does not fit
    /// changes nothing.
    pub fn upsert(&mut self, records: &Vec<Price>, caller: &Caller) -> (r: Result<
        (),
        LedgerError,
    >)
        requires
            old(self)@.wf(),
        ensures
            final(self)@.wf(),
            match old(self)@.upsert(records@, *caller) {
                Ok(next) => r is Ok && final(self)@ == next,
                Err(e) => r == Err::<(), LedgerError>(e) && final(self)@ == old(self)@,
            },
    {
        if !caller.is_signer {
            return Err(LedgerError::MissingSignature);
        }
        if !bytes_equal(&caller.key, &self.owner) {
            return Err(LedgerError::NotOwner);
        }
        let size = self.current_size as usize;
        let ghost active = self@.active();
        let mut staged: Vec<Price> = Vec::new();
        let mut i: usize = 0;
        while i < size
            invariant
                0 <= i <= size <= self.prices.len(),
                staged@ == self.prices@.take(i as int),
            decreases size - i,
        {
            staged.push(self.prices[i]);
            assert(staged@ =~= self.prices@.take(i + 1));
            i += 1;
        }
        let mut k: usize = 0;
        assert(records@.take(0) =~= Seq::<Price>::empty());
        while k < records.len()
            invariant
                0 <= k <= records.len(),
                keyed(active),
                keyed(staged@),
                staged@ == upsert_all(active, records@.take(k as int)),
            decreases records.len() - k,
        {
            let record = records[k];
            let ghost before = staged@;
            assert(records@.take(k + 1).drop_last() =~= records@.take(k as int));
            assert(records@.take(k + 1).last() == record);
            proof {
                lemma_upsert_one_keyed(before, record);
            }
            if !record.is_empty() {
                assert(before.take(before.len() as int) =~= before);
                match find_symbol(&staged, staged.len(), &record.symbol) {
                    Some(at) => {
                        assert(holds(before, record.symbol));
                        assert(slot_of(before, record.symbol) == at);
                        staged[at] = record;
                    },
                    None => {
                        staged.push(record);
                    },
                }
            }
            k += 1;
        }
        assert(records@.take(records.len() as int) =~= records@);
        let capacity = self.prices.len();
        if staged.len() > capacity {
            return Err(LedgerError::CapacityExceeded);
        }
        let count = staged.len();
        pad(&mut staged, capacity);
        self.prices = staged;
        self.current_size = count as u8;
        proof {
            let rows = upsert_all(active, records@);
            assert(self@.active() =~= rows);
            assert(self@ == old(self)@.with_active(rows));
        }
        Ok(())
    }

    /// Drops the records that carry one of `symbols` and closes the gaps,
    /// keeping the others in their order.
    pub fn remove(&mut self, symbols: &Vec<[u8; 8]>, caller: &Caller) -> (r: Result<
        (),
        LedgerError,
    >)
        requires
            old(self)@.wf(),
        ensures
            final(self)@.wf(),
            match old(self)@.remove(symbols@, *caller) {
                Ok(next) => r is Ok && final(self)@ == next,
                Err(e) => r == Err::<(), LedgerError>(e) && final(self)@ == old(self)@,
            },
    {
        if !caller.is_signer {
            return Err(LedgerError::MissingSignature);
        }
        if !bytes_equal(&caller.key, &self.owner) {
            return Err(LedgerError::NotOwner);
        }
        let size = self.current_size as usize;
        let ghost active = self@.active();
        let mut kept: Vec<Price> = Vec::new();
        let mut i: usize = 0;
        assert(active.take(0) =~= Seq::<Price>::empty());
        while i < size
            invariant
                0 <= i <= size <= self.prices.len(),
                size == self.current_size,
                active == self@.active(),
                kept@ == without(active.take(i as int), symbols@),
            decreases size - i,
        {
            let record = self.prices[i];
            assert(active.take(i + 1).drop_last() =~= active.take(i as int));
            assert(active.take(i + 1).last() == record);
            if !record.is_empty() && !names_symbol(symbols, &record.symbol) {
                kept.push(record);
            }
            i += 1;
        }
        assert(active.take(size as int) =~= active);
        proof {
            lemma_without_keyed(active, symbols@);
        }
        let capacity = self.prices.len();
        let count = kept.len();
        pad(&mut kept, capacity);
        self.prices = kept;
        self.current_size = count as u8;
        proof {
            let rows = without(active, symbols@);
            assert(self@.active() =~= rows);
            assert(self@ == old(self)@.with_active(rows));
        }
        Ok(())
    }
}

} // verus!
