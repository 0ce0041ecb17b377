//! A store in the manner of a log-structured merge tree: a sorted table in
//! memory, with a membership filter in front of it that spares the table the
//! lookups of keys it never held.

use crate::error::Error;
use crate::store::{
    all_fit, key_fits, lemma_apply_bounded, StoreView, TransactInstruction, Transaction, MAX_KEY_LEN,
};
use bloom_filter_rs::{BloomFilter, Murmur3};
use rb_tree::RBMap;
use vstd::prelude::*;
use vstd::slice::slice_to_vec;

verus! {

/// The number of hash functions of the filter. With `FILTER_BITS` bits it
/// keeps the share of false positives at one in a hundred while the filter
/// holds up to 512 keys; these are the parameters that
/// `BloomFilter::optimal` works out for 512 keys and that share.
pub const FILTER_HASHES: u32 = 7;

/// The number of bits of the filter.
pub const FILTER_BITS: u64 = 4908;

/// `rb_tree::RBMap`, the sorted map that serves as memtable. What it holds
/// is known through `memtable_entries` alone.
#[verifier::external_type_specification]
#[verifier::external_body]
#[verifier::reject_recursive_types(K)]
#[verifier::reject_recursive_types(V)]
pub struct ExRBMap<K: PartialOrd, V>(RBMap<K, V>);

/// `bloom_filter_rs::BloomFilter`, the membership filter. What it holds is
/// known through `filter_keys` and `filter_bits` alone.
#[verifier::external_type_specification]
#[verifier::external_body]
#[verifier::reject_recursive_types(T)]
pub struct ExBloomFilter<T>(BloomFilter<T>);

/// `bloom_filter_rs::Murmur3`, the hasher of the filter.
#[verifier::external_type_specification]
#[verifier::external_body]
pub struct ExMurmur3(Murmur3);

/// The entries of a memtable: for each key that was inserted, what was
/// inserted with it last.
pub uninterp spec fn memtable_entries(memtable: RBMap<String, Option<Vec<u8>>>) -> Map<
    Seq<char>,
    Option<Seq<u8>>,
>;

/// The byte strings that were inserted into a filter since it was made.
pub uninterp spec fn filter_keys(filter: BloomFilter<Murmur3>) -> Set<Seq<u8>>;

/// The number of bits that a filter was made with.
pub uninterp spec fn filter_bits(filter: BloomFilter<Murmur3>) -> nat;

/// A value of the memtable with its bytes as a sequence.
pub open spec fn value_view(value: Option<Vec<u8>>) -> Option<Seq<u8>> {
    match value {
        Some(bytes) => Some(bytes@),
        None => None,
    }
}

/// `RBMap::new`: a map without entries.
#[verifier::external_body]
fn memtable_new() -> (memtable: RBMap<String, Option<Vec<u8>>>)
    ensures
        memtable_entries(memtable) == StoreView::empty().memtable,
{
    RBMap::new()
}

/// `RBMap::insert`: `value` becomes the entry of `key`, in place of the
/// one that `key` had, if it had one; the other entries stay.
#[verifier::external_body]
fn memtable_insert(
    memtable: &mut RBMap<String, Option<Vec<u8>>>,
    key: String,
    value: Option<Vec<u8>>,
)
    ensures
        memtable_entries(*final(memtable)) == memtable_entries(*old(memtable)).insert(
            key@,
            value_view(value),
        ),
{
    memtable.insert(key, value);
}

/// `RBMap::get`: the entry of `key`, or `None` where it has none.
#[verifier::external_body]
fn memtable_get<'a>(memtable: &'a RBMap<String, Option<Vec<u8>>>, key: &String) -> (r: Option<
    &'a Option<Vec<u8>>,
>)
    ensures
        r is Some <==> memtable_entries(*memtable).dom().contains(key@),
        r matches Some(value) ==> value_view(*value) == memtable_entries(*memtable)[key@],
{
    memtable.get(key)
}

/// `BloomFilter::new` with the `Murmur3` hasher: a filter of `bits` bits
/// into which nothing was inserted.
#[verifier::external_body]
fn filter_new(hashes: u32, bits: u64) -> (filter: BloomFilter<Murmur3>)
    requires
        bits <= usize::MAX,
    ensures
        filter_keys(filter) == StoreView::empty().filter,
        filter_bits(filter) == bits,
{
    BloomFilter::new(Murmur3, hashes, bits)
}

/// `BloomFilter::insert`: `bytes` is inserted. A filter without bits cannot
/// take an insertion, and the hash, which counts the bytes it has taken in
/// 32 bits, cannot take more bytes than `MAX_KEY_LEN`. The crate also counts
/// the insertions in a `u64`, which the contract leaves out: no process
/// lives to exhaust it.
#[verifier::external_body]
fn filter_insert(filter: &mut BloomFilter<Murmur3>, bytes: &[u8])
    requires
        filter_bits(*old(filter)) > 0,
        bytes@.len() <= MAX_KEY_LEN,
    ensures
        filter_keys(*final(filter)) == filter_keys(*old(filter)).insert(bytes@),
        filter_bits(*final(filter)) == filter_bits(*old(filter)),
{
    filter.insert(bytes);
}

/// `BloomFilter::contains`: `true` for every byte string that was inserted.
/// For one that was not, the answer may be either. The filter must have
/// bits, and `bytes` no more than the hash can count: `MAX_KEY_LEN`.
#[verifier::external_body]
fn filter_contains(filter: &BloomFilter<Murmur3>, bytes: &[u8]) -> (r: bool)
    requires
        filter_bits(*filter) > 0,
        bytes@.len() <= MAX_KEY_LEN,
    ensures
        filter_keys(*filter).contains(bytes@) ==> r,
{
    filter.contains(bytes)
}

/// The memtable and its filter. Callers that share a store put it behind
/// a lock of their own: every function here takes the store for the length
/// of the call, so a transaction is applied as one.
pub struct LSMStore {
    memtable: RBMap<String, Option<Vec<u8>>>,
    bloom_filter: BloomFilter<Murmur3>,
}

impl View for LSMStore {
    type V = StoreView;

    closed spec fn view(&self) -> StoreView {
        StoreView {
            memtable: memtable_entries(self.memtable),
            filter: filter_keys(self.bloom_filter),
        }
    }
}

impl LSMStore {
    /// What holds of a store between calls: the filter has bits, it holds
    /// every key that has a value, and no key of the memtable is longer
    /// than `MAX_KEY_LEN`.
    pub closed spec fn wf(&self) -> bool {
        &&& filter_bits(self.bloom_filter) > 0
        &&& self@.sound()
        &&& self@.bounded()
    }

    /// A store that nothing was written to.
    pub fn new() -> (store: LSMStore)
        ensures
            store.wf(),
            store@ == StoreView::empty(),
    {
        LSMStore {
            memtable: memtable_new(),
            bloom_filter: filter_new(FILTER_HASHES, FILTER_BITS),
        }
    }

    /// The value of `k`, or `None` where `k` has none: it was never
    /// written, or it was deleted since.
    ///
    /// A key longer than `MAX_KEY_LEN` was never written and is answered at
    /// once. Else the filter is asked first; the memtable is looked into
    /// only for a key that the filter may hold.
    pub fn get(&self, k: &str) -> (r: Option<Vec<u8>>)
        requires
            self.wf(),
        ensures
            value_view(r) == self@.get(k@),
    {
        let bytes = k.as_bytes();
        if bytes.len() > MAX_KEY_LEN {
            return None;
        }
        if !filter_contains(&self.bloom_filter, bytes) {
            return None;
        }
        let key = k.to_owned();
        match memtable_get(&self.memtable, &key) {
            Some(Some(value)) => Some(slice_to_vec(value.as_slice())),
            _ => None,
        }
    }

    /// Whether every key that `instructions` write is short enough for the
    /// store.
    fn keys_fit(instructions: &Vec<TransactInstruction<'_>>) -> (fit: bool)
        ensures
            fit == all_fit(instructions@.map_values(|i: TransactInstruction| i@)),
    {
        let ghost all = instructions@.map_values(|i: TransactInstruction| i@);
        let mut i: usize = 0;
        while i < instructions.len()
            invariant
                0 <= i <= instructions.len(),
                all == instructions@.map_values(|i: TransactInstruction| i@),
                forall|j: int| 0 <= j < i ==> key_fits((#[trigger] all[j]).key()),
            decreases instructions.len() - i,
        {
            let len = match instructions[i] {
                TransactInstruction::Put(key, _) => key.as_bytes().len(),
                TransactInstruction::Delete(key) => key.as_bytes().len(),
            };
            if len > MAX_KEY_LEN {
                assert(!key_fits(all[i as int].key()));
                return false;
            }
            i += 1;
        }
        true
    }

    /// Applies the instructions of `transaction` in their order, and all of
    /// them or none: where one of them writes a key longer than
    /// `MAX_KEY_LEN`, nothing is written and the error is `KeyTooLong`.
    pub fn transact(&mut self, transaction: Transaction<'_>) -> (r: Result<(), Error>)
        requires
            old(self).wf(),
        ensures
            final(self).wf(),
            r is Ok <==> all_fit(transaction@),
            r matches Err(e) ==> e == Error::KeyTooLong,
            final(self)@ == old(self)@.transact(transaction@),
    {
        let instructions = transaction.instructions;
        let ghost all = transaction@;
        if !Self::keys_fit(&instructions) {
            return Err(Error::KeyTooLong);
        }
        let mut i: usize = 0;
        while i < instructions.len()
            invariant
                0 <= i <= instructions.len(),
                all == instructions@.map_values(|i: TransactInstruction| i@),
                all_fit(all),
                self.wf(),
                self@ == old(self)@.apply_all(all.subrange(0, i as int)),
            decreases instructions.len() - i,
        {
            proof {
                let upto = all.subrange(0, i + 1);
                assert(upto.drop_last() =~= all.subrange(0, i as int));
                assert(upto.last() == instructions[i as int]@);
                assert(key_fits(all[i as int].key()));
                lemma_apply_bounded(self@, all[i as int]);
            }
            match instructions[i] {
                TransactInstruction::Put(key, value) => {
                    memtable_insert(&mut self.memtable, key.to_owned(), Some(slice_to_vec(value)));
                    filter_insert(&mut self.bloom_filter, key.as_bytes());
                },
                TransactInstruction::Delete(key) => {
                    memtable_insert(&mut self.memtable, key.to_owned(), None);
                },
            }
            i += 1;
        }
        assert(all.subrange(0, i as int) =~= all);
        Ok(())
    }
}

} // verus!
