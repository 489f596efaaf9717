//! Grouping transactions by a text key, and the totals of the groups.

use crate::totals::{added, sum_of};
use crate::transaction::{Entry, Transaction};
use vstd::prelude::*;

verus! {

/// What transactions are grouped by.
#[derive(Debug, Clone, Copy, PartialEq, Eq, Structural)]
pub enum Grouping {
    /// By the category, compared exactly.
    Category,
    /// By the month of the date.
    Month,
}

impl Grouping {
    /// The key under which a transaction is grouped.
    pub open spec fn key_of(self, entry: Entry) -> Seq<char> {
        match self {
            Grouping::Category => entry.category,
            Grouping::Month => entry.month(),
        }
    }

    /// The key under which `transaction` is grouped.
    pub fn key(&self, transaction: &Transaction) -> (key: String)
        ensures
            key@ == self.key_of(transaction@),
    {
        match self {
            Grouping::Category => transaction.category.clone(),
            Grouping::Month => transaction.month(),
        }
    }
}

/// The sum of the amounts of the transactions grouped under `key`.
pub open spec fn total_of(entries: Seq<Entry>, grouping: Grouping, key: Seq<char>) -> int
    decreases entries.len(),
{
    if entries.len() == 0 {
        0
    } else {
        total_of(entries.drop_last(), grouping, key) + if grouping.key_of(entries.last()) == key {
            entries.last().amount as int
        } else {
            0
        }
    }
}

/// The keys of the transactions, each once, in the order in which they first
/// occur.
pub open spec fn keys_of(entries: Seq<Entry>, grouping: Grouping) -> Seq<Seq<char>>
    decreases entries.len(),
{
    if entries.len() == 0 {
        Seq::empty()
    } else {
        let before = keys_of(entries.drop_last(), grouping);
        let key = grouping.key_of(entries.last());
        if before.contains(key) {
            before
        } else {
            before.push(key)
        }
    }
}

/// Each of `keys` with the total of the transactions grouped under it.
pub open spec fn tally(entries: Seq<Entry>, grouping: Grouping, keys: Seq<Seq<char>>) -> Seq<
    (Seq<char>, int),
> {
    Seq::new(keys.len(), |j: int| (keys[j], total_of(entries, grouping, keys[j])))
}

/// The totals of the transactions under each key that occurs among them.
pub open spec fn totals_by(entries: Seq<Entry>, grouping: Grouping) -> Seq<(Seq<char>, int)> {
    tally(entries, grouping, keys_of(entries, grouping))
}

/// As many amounts as `limit` sum to at most `limit` times the largest
/// amount.
pub proof fn lemma_count_bound(count: nat, limit: nat)
    requires
        count <= limit,
    ensures
        count * 0x8000_0000_0000_0000 <= limit * 0x8000_0000_0000_0000,
{
    assert(count * 0x8000_0000_0000_0000 <= limit * 0x8000_0000_0000_0000) by (nonlinear_arith)
        requires
            count <= limit,
    ;
}

/// The total under a key is at most as large as if every transaction had the
/// largest amount.
pub proof fn lemma_total_bound(entries: Seq<Entry>, grouping: Grouping, key: Seq<char>)
    ensures
        -entries.len() * 0x8000_0000_0000_0000 <= total_of(entries, grouping, key) <= entries.len()
            * 0x8000_0000_0000_0000,
    decreases entries.len(),
{
    if entries.len() > 0 {
        lemma_total_bound(entries.drop_last(), grouping, key);
    }
}

/// The key of every transaction is among the keys.
pub proof fn lemma_keys_cover(entries: Seq<Entry>, grouping: Grouping, i: int)
    requires
        0 <= i < entries.len(),
    ensures
        keys_of(entries, grouping).contains(grouping.key_of(entries[i])),
    decreases entries.len(),
{
    let before = keys_of(entries.drop_last(), grouping);
    let key = grouping.key_of(entries.last());
    if i == entries.len() - 1 {
        if !before.contains(key) {
            assert(before.push(key)[before.len() as int] == key);
        }
    } else {
        lemma_keys_cover(entries.drop_last(), grouping, i);
        let found = grouping.key_of(entries[i]);
        let j = choose|j: int| 0 <= j < before.len() && before[j] == found;
        if !before.contains(key) {
            assert(before.push(key)[j] == found);
        }
    }
}

/// Every key is the key of some transaction.
pub proof fn lemma_keys_occur(entries: Seq<Entry>, grouping: Grouping, key: Seq<char>)
    requires
        keys_of(entries, grouping).contains(key),
    ensures
        exists|i: int| 0 <= i < entries.len() && grouping.key_of(#[trigger] entries[i]) == key,
    decreases entries.len(),
{
    if entries.len() > 0 {
        let before = keys_of(entries.drop_last(), grouping);
        if before.contains(key) {
            lemma_keys_occur(entries.drop_last(), grouping, key);
            let i = choose|i: int|
                0 <= i < entries.drop_last().len() && grouping.key_of(
                    #[trigger] entries.drop_last()[i],
                ) == key;
            assert(entries[i] == entries.drop_last()[i]);
        } else {
            assert(grouping.key_of(entries[entries.len() - 1]) == key);
        }
    }
}

/// No key occurs twice among the keys.
pub proof fn lemma_keys_distinct(entries: Seq<Entry>, grouping: Grouping)
    ensures
        keys_of(entries, grouping).no_duplicates(),
    decreases entries.len(),
{
    if entries.len() > 0 {
        lemma_keys_distinct(entries.drop_last(), grouping);
    }
}

/// A key that is not among the keys has the total zero.
pub proof fn lemma_absent_total(entries: Seq<Entry>, grouping: Grouping, key: Seq<char>)
    requires
        !keys_of(entries, grouping).contains(key),
    ensures
        total_of(entries, grouping, key) == 0,
    decreases entries.len(),
{
    if entries.len() > 0 {
        let before = keys_of(entries.drop_last(), grouping);
        lemma_keys_cover(entries, grouping, entries.len() - 1);
        if before.contains(key) {
            let j = choose|j: int| 0 <= j < before.len() && before[j] == key;
            assert(keys_of(entries, grouping)[j] == key);
        }
        lemma_absent_total(entries.drop_last(), grouping, key);
    }
}

/// One more transaction adds its amount under its key.
pub proof fn lemma_totals_step(entries: Seq<Entry>, grouping: Grouping, entry: Entry)
    ensures
        totals_by(entries.push(entry), grouping) == added(
            totals_by(entries, grouping),
            grouping.key_of(entry),
            entry.amount as int,
        ),
{
    let longer = entries.push(entry);
    assert(longer.drop_last() =~= entries);
    let keys = keys_of(entries, grouping);
    let key = grouping.key_of(entry);
    let before = totals_by(entries, grouping);
    if keys.contains(key) {
        let j = choose|j: int| 0 <= j < keys.len() && keys[j] == key;
        assert(before[j].0 == key);
    } else {
        lemma_absent_total(entries, grouping, key);
        assert forall|j: int| 0 <= j < before.len() implies (#[trigger] before[j]).0 != key by {
            assert(keys[j] == before[j].0);
        }
    }
    assert(totals_by(longer, grouping) =~= added(before, key, entry.amount as int));
}

/// The sum of the amounts of all the transactions.
pub open spec fn total_amount(entries: Seq<Entry>) -> int
    decreases entries.len(),
{
    if entries.len() == 0 {
        0
    } else {
        total_amount(entries.drop_last()) + entries.last().amount
    }
}

/// The sum of the amounts of the transactions whose key is one of `keys`.
pub open spec fn amount_within(entries: Seq<Entry>, grouping: Grouping, keys: Seq<Seq<char>>) -> int
    decreases entries.len(),
{
    if entries.len() == 0 {
        0
    } else {
        amount_within(entries.drop_last(), grouping, keys) + if keys.contains(
            grouping.key_of(entries.last()),
        ) {
            entries.last().amount as int
        } else {
            0
        }
    }
}

/// The amount within some keys is at most as large as if every transaction
/// had the largest amount.
pub proof fn lemma_within_bound(entries: Seq<Entry>, grouping: Grouping, keys: Seq<Seq<char>>)
    ensures
        -entries.len() * 0x8000_0000_0000_0000 <= amount_within(entries, grouping, keys)
            <= entries.len() * 0x8000_0000_0000_0000,
    decreases entries.len(),
{
    if entries.len() > 0 {
        lemma_within_bound(entries.drop_last(), grouping, keys);
    }
}

/// One more key adds the total under it.
pub proof fn lemma_within_push(
    entries: Seq<Entry>,
    grouping: Grouping,
    keys: Seq<Seq<char>>,
    key: Seq<char>,
)
    requires
        !keys.contains(key),
    ensures
        amount_within(entries, grouping, keys.push(key)) == amount_within(entries, grouping, keys)
            + total_of(entries, grouping, key),
    decreases entries.len(),
{
    if entries.len() > 0 {
        lemma_within_push(entries.drop_last(), grouping, keys, key);
        let last = grouping.key_of(entries.last());
        let more = keys.push(key);
        if keys.contains(last) {
            let j = choose|j: int| 0 <= j < keys.len() && keys[j] == last;
            assert(more[j] == last);
        } else if last == key {
            assert(more[keys.len() as int] == last);
        } else if more.contains(last) {
            let j = choose|j: int| 0 <= j < more.len() && more[j] == last;
            assert(keys[j] == last);
        }
    }
}

/// The totals under distinct keys sum to the amount within those keys.
pub proof fn lemma_tally_sum(entries: Seq<Entry>, grouping: Grouping, keys: Seq<Seq<char>>)
    requires
        keys.no_duplicates(),
    ensures
        sum_of(tally(entries, grouping, keys)) == amount_within(entries, grouping, keys),
    decreases keys.len(),
{
    if keys.len() == 0 {
        lemma_within_no_keys(entries, grouping);
        assert(keys =~= Seq::empty());
    } else {
        let fewer = keys.drop_last();
        lemma_tally_sum(entries, grouping, fewer);
        assert(tally(entries, grouping, keys).drop_last() =~= tally(entries, grouping, fewer));
        if fewer.contains(keys.last()) {
            let j = choose|j: int| 0 <= j < fewer.len() && fewer[j] == keys.last();
            assert(keys[j] == keys[keys.len() - 1]);
        }
        lemma_within_push(entries, grouping, fewer, keys.last());
        assert(fewer.push(keys.last()) =~= keys);
    }
}

/// No amount lies within no keys.
pub proof fn lemma_within_no_keys(entries: Seq<Entry>, grouping: Grouping)
    ensures
        amount_within(entries, grouping, Seq::empty()) == 0,
    decreases entries.len(),
{
    if entries.len() > 0 {
        lemma_within_no_keys(entries.drop_last(), grouping);
    }
}

/// Keys that hold the key of every transaction have every amount within them.
pub proof fn lemma_within_all(entries: Seq<Entry>, grouping: Grouping, keys: Seq<Seq<char>>)
    requires
        forall|i: int|
            0 <= i < entries.len() ==> keys.contains(grouping.key_of(#[trigger] entries[i])),
    ensures
        amount_within(entries, grouping, keys) == total_amount(entries),
    decreases entries.len(),
{
    if entries.len() > 0 {
        let fewer = entries.drop_last();
        assert forall|i: int| 0 <= i < fewer.len() implies keys.contains(
            grouping.key_of(#[trigger] fewer[i]),
        ) by {
            assert(fewer[i] == entries[i]);
        }
        lemma_within_all(fewer, grouping, keys);
        assert(keys.contains(grouping.key_of(entries[entries.len() - 1])));
    }
}

/// The transactions grouped under `key`, in their order.
pub open spec fn members_of(entries: Seq<Entry>, grouping: Grouping, key: Seq<char>) -> Seq<Entry>
    decreases entries.len(),
{
    if entries.len() == 0 {
        Seq::empty()
    } else if grouping.key_of(entries.last()) == key {
        members_of(entries.drop_last(), grouping, key).push(entries.last())
    } else {
        members_of(entries.drop_last(), grouping, key)
    }
}

/// No transaction is grouped under a key that is not among the keys.
pub proof fn lemma_absent_members(entries: Seq<Entry>, grouping: Grouping, key: Seq<char>)
    requires
        !keys_of(entries, grouping).contains(key),
    ensures
        members_of(entries, grouping, key) == Seq::<Entry>::empty(),
    decreases entries.len(),
{
    if entries.len() > 0 {
        let before = keys_of(entries.drop_last(), grouping);
        lemma_keys_cover(entries, grouping, entries.len() - 1);
        if before.contains(key) {
            let j = choose|j: int| 0 <= j < before.len() && before[j] == key;
            assert(keys_of(entries, grouping)[j] == key);
        }
        lemma_absent_members(entries.drop_last(), grouping, key);
    }
}

} // verus!
