//! The store: a table of keys and values that is written in transactions.

pub mod lsm;

use vstd::prelude::*;
use vstd::utf8::*;

verus! {

/// The greatest number of bytes that a key may have. The filter's hash
/// counts the bytes of a key in 32 bits, so a longer key cannot be hashed
/// and is not taken.
pub const MAX_KEY_LEN: usize = 4294967295;

/// Whether `key` is short enough for the store.
pub open spec fn key_fits(key: Seq<char>) -> bool {
    encode_utf8(key).len() <= MAX_KEY_LEN
}

/// Whether every key that `is` writes is short enough for the store.
pub open spec fn all_fit(is: Seq<Instruction>) -> bool {
    forall|i: int| 0 <= i < is.len() ==> key_fits((#[trigger] is[i]).key())
}

/// One write of a transaction.
pub enum TransactInstruction<'a> {
    /// Gives the key a value.
    Put(&'a str, &'a [u8]),
    /// Takes the key's value away and leaves a tombstone.
    Delete(&'a str),
}

/// A `TransactInstruction` with its text and bytes as sequences.
pub enum Instruction {
    Put(Seq<char>, Seq<u8>),
    Delete(Seq<char>),
}

impl Instruction {
    /// The key that the instruction writes.
    pub open spec fn key(self) -> Seq<char> {
        match self {
            Instruction::Put(key, _) => key,
            Instruction::Delete(key) => key,
        }
    }

    /// What a reader finds under the key once the instruction is applied.
    pub open spec fn outcome(self) -> Option<Seq<u8>> {
        match self {
            Instruction::Put(_, value) => Some(value),
            Instruction::Delete(_) => None,
        }
    }
}

impl<'a> View for TransactInstruction<'a> {
    type V = Instruction;

    open spec fn view(&self) -> Instruction {
        match self {
            TransactInstruction::Put(key, value) => Instruction::Put(key@, value@),
            TransactInstruction::Delete(key) => Instruction::Delete(key@),
        }
    }
}

/// Writes that are applied in order and as one.
pub struct Transaction<'a> {
    pub instructions: Vec<TransactInstruction<'a>>,
}

impl<'a> View for Transaction<'a> {
    type V = Seq<Instruction>;

    open spec fn view(&self) -> Seq<Instruction> {
        self.instructions@.map_values(|i: TransactInstruction<'a>| i@)
    }
}

/// What a store holds: the memtable, in which a key has a value, a
/// tombstone (`None`) or no entry, and the byte strings that were put into
/// the membership filter.
pub struct StoreView {
    pub memtable: Map<Seq<char>, Option<Seq<u8>>>,
    pub filter: Set<Seq<u8>>,
}

impl StoreView {
    /// A store that nothing was written to.
    pub open spec fn empty() -> StoreView {
        StoreView { memtable: Map::empty(), filter: Set::empty() }
    }

    /// What a reader finds under `key`: its value, or `None` where it has a
    /// tombstone or no entry.
    pub open spec fn get(self, key: Seq<char>) -> Option<Seq<u8>> {
        if self.memtable.dom().contains(key) {
            self.memtable[key]
        } else {
            None
        }
    }

    /// The store after one write. A `Put` enters the key's bytes into the
    /// filter; a `Delete` leaves the filter as it is.
    pub open spec fn apply(self, i: Instruction) -> StoreView {
        match i {
            Instruction::Put(key, value) => StoreView {
                memtable: self.memtable.insert(key, Some(value)),
                filter: self.filter.insert(encode_utf8(key)),
            },
            Instruction::Delete(key) => StoreView {
                memtable: self.memtable.insert(key, None),
                filter: self.filter,
            },
        }
    }

    /// The store after the writes of `is`, first to last.
    pub open spec fn apply_all(self, is: Seq<Instruction>) -> StoreView
        decreases is.len(),
    {
        if is.len() == 0 {
            self
        } else {
            self.apply_all(is.drop_last()).apply(is.last())
        }
    }

    /// The store after the transaction `is`: all of its writes, first to
    /// last, or none of them where one of its keys is too long.
    pub open spec fn transact(self, is: Seq<Instruction>) -> StoreView {
        if all_fit(is) {
            self.apply_all(is)
        } else {
            self
        }
    }

    /// Whether the filter holds every key that has a value: a key that the
    /// filter does not hold has none.
    pub open spec fn sound(self) -> bool {
        forall|key: Seq<char>|
            self.memtable.dom().contains(key) && self.memtable[key] is Some
                ==> self.filter.contains(#[trigger] encode_utf8(key))
    }

    /// Whether every key of the memtable is short enough for the store: a
    /// longer key has no entry.
    pub open spec fn bounded(self) -> bool {
        forall|key: Seq<char>| #[trigger] self.memtable.dom().contains(key) ==> key_fits(key)
    }
}

/// The store after the transactions `txns`, first to last, each applied as
/// one.
pub open spec fn transact_all(store: StoreView, txns: Seq<Seq<Instruction>>) -> StoreView
    decreases txns.len(),
{
    if txns.len() == 0 {
        store
    } else {
        transact_all(store, txns.drop_last()).transact(txns.last())
    }
}

/// A write leaves the filter holding every key that has a value.
pub proof fn lemma_apply_sound(store: StoreView, i: Instruction)
    requires
        store.sound(),
    ensures
        store.apply(i).sound(),
{
    let after = store.apply(i);
    assert forall|key: Seq<char>|
        after.memtable.dom().contains(key) && after.memtable[key] is Some implies after.filter.contains(
        #[trigger] encode_utf8(key),
    ) by {
        if key != i.key() {
            assert(store.memtable.dom().contains(key) && store.memtable[key] is Some);
        }
    }
}

/// A write to a key that is short enough leaves every key of the memtable
/// short enough.
pub proof fn lemma_apply_bounded(store: StoreView, i: Instruction)
    requires
        store.bounded(),
        key_fits(i.key()),
    ensures
        store.apply(i).bounded(),
{
    let after = store.apply(i);
    assert forall|key: Seq<char>| #[trigger] after.memtable.dom().contains(key) implies key_fits(
        key,
    ) by {
        if key != i.key() {
            assert(store.memtable.dom().contains(key));
        }
    }
}

/// Writes to other keys leave what a reader finds under `key` as it was.
pub proof fn lemma_untouched(store: StoreView, is: Seq<Instruction>, key: Seq<char>)
    requires
        forall|i: int| 0 <= i < is.len() ==> (#[trigger] is[i]).key() != key,
    ensures
        store.apply_all(is).get(key) == store.get(key),
    decreases is.len(),
{
    if is.len() > 0 {
        lemma_untouched(store, is.drop_last(), key);
        assert(is.last().key() != key);
    }
}

/// Within a transaction the last write to a key decides what a reader
/// finds under it.
pub proof fn lemma_last_write_wins(
    store: StoreView,
    is: Seq<Instruction>,
    j: int,
    key: Seq<char>,
)
    requires
        0 <= j < is.len(),
        is[j].key() == key,
        forall|i: int| j < i < is.len() ==> (#[trigger] is[i]).key() != key,
    ensures
        store.apply_all(is).get(key) == is[j].outcome(),
    decreases is.len(),
{
    if j < is.len() - 1 {
        lemma_last_write_wins(store, is.drop_last(), j, key);
        assert(is.last().key() != key);
    }
}

/// Transactions that do not write to `key` leave what a reader finds under
/// it as it was.
pub proof fn lemma_transactions_untouched(
    store: StoreView,
    txns: Seq<Seq<Instruction>>,
    key: Seq<char>,
)
    requires
        forall|t: int, i: int|
            0 <= t < txns.len() && 0 <= i < txns[t].len() ==> (#[trigger] txns[t][i]).key() != key,
    ensures
        transact_all(store, txns).get(key) == store.get(key),
    decreases txns.len(),
{
    if txns.len() > 0 {
        lemma_transactions_untouched(store, txns.drop_last(), key);
        lemma_untouched(transact_all(store, txns.drop_last()), txns.last(), key);
    }
}

/// A key that no transaction wrote to is absent: a reader of a store that
/// began empty finds nothing under it.
pub proof fn lemma_never_written_is_absent(txns: Seq<Seq<Instruction>>, key: Seq<char>)
    requires
        forall|t: int, i: int|
            0 <= t < txns.len() && 0 <= i < txns[t].len() ==> (#[trigger] txns[t][i]).key() != key,
    ensures
        transact_all(StoreView::empty(), txns).get(key) is None,
{
    lemma_transactions_untouched(StoreView::empty(), txns, key);
}

/// After any transactions, what a reader finds under a key is what the
/// last write to the key in the last transaction that wrote to it left:
/// the value of a `Put`, nothing after a `Delete`. A transaction that was
/// refused for a key that is too long wrote to none.
pub proof fn lemma_last_transaction_wins(
    store: StoreView,
    txns: Seq<Seq<Instruction>>,
    t: int,
    j: int,
    key: Seq<char>,
)
    requires
        0 <= t < txns.len(),
        all_fit(txns[t]),
        0 <= j < txns[t].len(),
        txns[t][j].key() == key,
        forall|i: int| j < i < txns[t].len() ==> (#[trigger] txns[t][i]).key() != key,
        forall|u: int, i: int|
            t < u < txns.len() && 0 <= i < txns[u].len() ==> (#[trigger] txns[u][i]).key() != key,
    ensures
        transact_all(store, txns).get(key) == txns[t][j].outcome(),
    decreases txns.len(),
{
    let before = transact_all(store, txns.drop_last());
    if t == txns.len() - 1 {
        lemma_last_write_wins(before, txns.last(), j, key);
    } else {
        assert forall|u: int, i: int|
            t < u < txns.drop_last().len() && 0 <= i < txns.drop_last()[u].len() implies (
        #[trigger] txns.drop_last()[u][i]).key() != key by {
            assert(txns.drop_last()[u] == txns[u]);
        }
        lemma_last_transaction_wins(store, txns.drop_last(), t, j, key);
        lemma_untouched(before, txns.last(), key);
    }
}

/// A transaction that gives a key a value, applied a second time, changes
/// nothing: neither what the memtable holds nor what the filter holds.
pub proof fn lemma_put_twice(store: StoreView, key: Seq<char>, value: Seq<u8>)
    ensures
        store.transact(seq![Instruction::Put(key, value)]).transact(
            seq![Instruction::Put(key, value)],
        ) == store.transact(seq![Instruction::Put(key, value)]),
{
    let put = Instruction::Put(key, value);
    lemma_apply_one(store, put);
    let once = store.apply(put);
    lemma_apply_one(once, put);
    let twice = once.apply(put);
    assert(twice.memtable =~= once.memtable);
    assert(twice.filter =~= once.filter);
}

/// A transaction of one write is that write.
pub proof fn lemma_apply_one(store: StoreView, i: Instruction)
    ensures
        store.apply_all(seq![i]) == store.apply(i),
{
    let is = seq![i];
    assert(is.drop_last() =~= Seq::<Instruction>::empty());
    assert(store.apply_all(is.drop_last()) == store);
}

} // verus!
