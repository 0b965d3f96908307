//! The table of named destinations.
//!
//! A document may give a destination a name and let bookmarks refer to it by
//! that name. The table holds the destinations by their names. It is made
//! once, of pairs in the order in which they were gathered, and read after
//! that; where a name comes more than once, the destination that was
//! gathered last stands.

use vstd::prelude::*;
use std::collections::HashMap;
use lopdf::Object;
use crate::accessor::value_of;
use crate::bytes::same_bytes;
use crate::model::{entry, Value};
use crate::pdf::object_value;

verus! {

broadcast use vstd::std_specs::hash::group_hash_axioms;

/// A key with the destination that it names.
pub type Pair = (Seq<u8>, Value);

/// The table that a run of pairs gives: the pair that comes last under a
/// key is the one that stands.
pub open spec fn table_of(pairs: Seq<Pair>) -> Map<Seq<u8>, Value>
    decreases pairs.len(),
{
    if pairs.len() == 0 {
        Map::empty()
    } else {
        table_of(pairs.drop_last()).insert(pairs.last().0, pairs.last().1)
    }
}

/// A pair gathered later stands in place of an earlier one under its key,
/// and leaves every other key as it was.
pub proof fn lemma_later_pair_stands(pairs: Seq<Pair>, key: Seq<u8>, value: Value)
    ensures
        table_of(pairs.push((key, value))) == table_of(pairs).insert(key, value),
{
    assert(pairs.push((key, value)).drop_last() =~= pairs);
}

/// A key is in the table exactly when a pair has it.
pub proof fn lemma_table_has(pairs: Seq<Pair>, key: Seq<u8>)
    ensures
        table_of(pairs).contains_key(key) <==> exists|i: int|
            0 <= i < pairs.len() && (#[trigger] pairs[i]).0 == key,
    decreases pairs.len(),
{
    if pairs.len() > 0 {
        let front = pairs.drop_last();
        lemma_table_has(front, key);
        if pairs.last().0 == key {
            assert(pairs[pairs.len() - 1].0 == key);
        } else {
            if table_of(front).contains_key(key) {
                let i = choose|i: int| 0 <= i < front.len() && (#[trigger] front[i]).0 == key;
                assert(pairs[i].0 == key);
            }
            if exists|i: int| 0 <= i < pairs.len() && (#[trigger] pairs[i]).0 == key {
                let i = choose|i: int| 0 <= i < pairs.len() && (#[trigger] pairs[i]).0 == key;
                assert(front[i].0 == key);
            }
        }
    }
}

/// The table holds under a key the value of the last pair with that key.
pub proof fn lemma_table_holds_last(pairs: Seq<Pair>, key: Seq<u8>, last: int)
    requires
        0 <= last < pairs.len(),
        pairs[last].0 == key,
        forall|j: int| last < j < pairs.len() ==> (#[trigger] pairs[j]).0 != key,
    ensures
        table_of(pairs).contains_key(key),
        table_of(pairs)[key] == pairs[last].1,
    decreases pairs.len(),
{
    if last < pairs.len() - 1 {
        let front = pairs.drop_last();
        assert(pairs[pairs.len() - 1].0 != key);
        assert(front[last] == pairs[last]);
        assert forall|j: int| last < j < front.len() implies (#[trigger] front[j]).0 != key by {
            assert(front[j] == pairs[j]);
        }
        lemma_table_holds_last(front, key, last);
    }
}

/// Gathering two runs of pairs one after the other gives the table of the
/// first with the table of the second laid over it.
pub proof fn lemma_table_of_both(first: Seq<Pair>, second: Seq<Pair>)
    ensures
        table_of(first + second) == table_of(first).union_prefer_right(table_of(second)),
    decreases second.len(),
{
    if second.len() > 0 {
        assert((first + second).drop_last() =~= first + second.drop_last());
        lemma_table_of_both(first, second.drop_last());
    }
}

/// Pairs that list every entry of a map once give that map as their table.
pub proof fn lemma_table_of_entries(pairs: Seq<Pair>, entries: Map<Seq<u8>, Value>)
    requires
        forall|i: int|
            0 <= i < pairs.len() ==> entries.contains_key((#[trigger] pairs[i]).0)
                && entries[pairs[i].0] == pairs[i].1,
        forall|key: Seq<u8>| #[trigger]
            entries.contains_key(key) ==> exists|i: int|
                0 <= i < pairs.len() && (#[trigger] pairs[i]).0 == key,
    ensures
        table_of(pairs) == entries,
{
    assert forall|key: Seq<u8>| table_of(pairs).contains_key(key) == entries.contains_key(
        key,
    ) by {
        lemma_table_has(pairs, key);
    }
    assert forall|key: Seq<u8>| table_of(pairs).contains_key(key) implies table_of(pairs)[key]
        == entries[key] by {
        lemma_table_value_is_listed(pairs, key);
        let i = choose|i: int|
            0 <= i < pairs.len() && #[trigger] pairs[i] == (key, table_of(pairs)[key]);
        assert(entries[pairs[i].0] == pairs[i].1);
    }
    assert(table_of(pairs) =~= entries);
}

/// What the table holds under a key is the value of a pair with that key.
pub proof fn lemma_table_value_is_listed(pairs: Seq<Pair>, key: Seq<u8>)
    requires
        table_of(pairs).contains_key(key),
    ensures
        exists|i: int| 0 <= i < pairs.len() && #[trigger] pairs[i] == (key, table_of(pairs)[key]),
    decreases pairs.len(),
{
    if pairs.len() > 0 {
        let front = pairs.drop_last();
        if pairs.last().0 != key {
            lemma_table_value_is_listed(front, key);
            let i = choose|i: int|
                0 <= i < front.len() && #[trigger] front[i] == (key, table_of(front)[key]);
            assert(pairs[i] == front[i]);
        }
    }
}

/// The keys of a table of pairs are finitely many, and no more than the pairs.
pub proof fn lemma_table_is_finite(pairs: Seq<Pair>)
    ensures
        table_of(pairs).dom().finite(),
        table_of(pairs).dom().len() <= pairs.len(),
    decreases pairs.len(),
{
    if pairs.len() > 0 {
        lemma_table_is_finite(pairs.drop_last());
    }
}

/// The pair that a stored entry stands for.
pub open spec fn pair_of(stored: (&[u8], &Object)) -> Pair {
    (stored.0@, object_value(*stored.1))
}

/// The pairs that stored entries stand for, in order.
pub open spec fn pairs_of(stored: Seq<(&[u8], &Object)>) -> Seq<Pair> {
    Seq::new(stored.len(), |i: int| pair_of(stored[i]))
}

/// The hash of no bytes.
pub const HASH_BASIS: u64 = 0xcbf29ce484222325;

/// The factor by which the hash is stirred after each byte.
pub const HASH_PRIME: u64 = 0x100000001b3;

/// The hash of a run of bytes with one more byte.
pub open spec fn hash_step(hash: u64, byte: u8) -> u64 {
    (hash ^ (byte as u64)).wrapping_mul(HASH_PRIME)
}

/// The hash under which a key is filed.
pub open spec fn hash_of(bytes: Seq<u8>) -> u64
    decreases bytes.len(),
{
    if bytes.len() == 0 {
        HASH_BASIS
    } else {
        hash_step(hash_of(bytes.drop_last()), bytes.last())
    }
}

/// Computes the hash under which a key is filed.
fn hash(bytes: &[u8]) -> (r: u64)
    ensures
        r == hash_of(bytes@),
{
    let mut hash: u64 = HASH_BASIS;
    let mut i: usize = 0;
    while i < bytes.len()
        invariant
            i <= bytes@.len(),
            hash == hash_of(bytes@.take(i as int)),
        decreases bytes.len() - i,
    {
        proof {
            let upto = bytes@.take(i + 1);
            assert(upto.drop_last() =~= bytes@.take(i as int));
        }
        hash = (hash ^ (bytes[i] as u64)).wrapping_mul(HASH_PRIME);
        i = i + 1;
    }
    assert(bytes@.take(bytes@.len() as int) =~= bytes@);
    hash
}

/// `found` is the last of the first `upto` pairs whose key has the hash, or
/// says that none has.
spec fn last_with_hash(pairs: Seq<Pair>, upto: int, hash: u64, found: Option<usize>) -> bool {
    match found {
        Some(j) => j < upto && hash_of(pairs[j as int].0) == hash && forall|k: int|
            j < k < upto ==> hash_of(#[trigger] pairs[k].0) != hash,
        None => forall|k: int| 0 <= k < upto ==> hash_of(#[trigger] pairs[k].0) != hash,
    }
}

/// `found` is the last of the first `upto` pairs with the key, or says that
/// none has it.
spec fn last_with_key(pairs: Seq<Pair>, upto: int, key: Seq<u8>, found: Option<usize>) -> bool {
    match found {
        Some(j) => j < upto && pairs[j as int].0 == key && forall|k: int|
            j < k < upto ==> (#[trigger] pairs[k]).0 != key,
        None => forall|k: int| 0 <= k < upto ==> (#[trigger] pairs[k]).0 != key,
    }
}

/// Each of the first `upto` pairs is linked to the pair before it whose key
/// has the same hash.
spec fn linked(pairs: Seq<Pair>, earlier: Seq<Option<usize>>, upto: int) -> bool {
    forall|i: int|
        0 <= i < upto ==> last_with_hash(pairs, i, hash_of(pairs[i].0), #[trigger] earlier[i])
}

/// The pair that a hash leads to, if it leads to one.
spec fn head(latest: Map<u64, usize>, hash: u64) -> Option<usize> {
    if latest.contains_key(hash) {
        Some(latest[hash])
    } else {
        None
    }
}

/// Each hash leads to the last of the first `upto` pairs whose key has it.
spec fn headed(pairs: Seq<Pair>, latest: Map<u64, usize>, upto: int) -> bool {
    forall|hash: u64| #[trigger] last_with_hash(pairs, upto, hash, head(latest, hash))
}

/// One more pair, linked to the last pair before it with the same hash,
/// leaves every pair linked.
proof fn lemma_one_more_link(
    pairs: Seq<Pair>,
    earlier: Seq<Option<usize>>,
    at: int,
    from: Option<usize>,
)
    requires
        0 <= at < pairs.len(),
        earlier.len() == at,
        linked(pairs, earlier, at),
        last_with_hash(pairs, at, hash_of(pairs[at].0), from),
    ensures
        linked(pairs, earlier.push(from), at + 1),
{
}

/// One more pair, with its hash made to lead to it, leaves every hash
/// leading to the last pair that has it.
proof fn lemma_one_more_head(pairs: Seq<Pair>, latest: Map<u64, usize>, at: usize)
    requires
        at < pairs.len(),
        headed(pairs, latest, at as int),
    ensures
        headed(pairs, latest.insert(hash_of(pairs[at as int].0), at), at + 1),
{
    let filed = hash_of(pairs[at as int].0);
    let longer = latest.insert(filed, at);
    assert forall|hash: u64| #[trigger]
        last_with_hash(pairs, at + 1, hash, head(longer, hash)) by {
        if hash != filed {
            assert(last_with_hash(pairs, at as int, hash, head(latest, hash)));
        }
    }
}

/// One more pair makes one more key, unless a pair before it has its key.
proof fn lemma_one_more_key(pairs: Seq<Pair>, at: int, known: Option<usize>)
    requires
        0 <= at < pairs.len(),
        last_with_key(pairs, at, pairs[at].0, known),
    ensures
        table_of(pairs.take(at + 1)).dom().len() == table_of(pairs.take(at)).dom().len() + if known
            is None {
            1int
        } else {
            0int
        },
{
    let before = pairs.take(at);
    let upto = pairs.take(at + 1);
    let key = pairs[at].0;
    assert(upto.drop_last() =~= before);
    lemma_table_has(before, key);
    lemma_table_is_finite(before);
    match known {
        Some(j) => {
            // The key is known already, and the table has no more keys.
            assert(before[j as int].0 == key);
            assert(table_of(upto).dom() =~= table_of(before).dom());
        },
        None => {
            // No pair before has the key, and the table has one more.
            if table_of(before).contains_key(key) {
                let k = choose|k: int| 0 <= k < before.len() && (#[trigger] before[k]).0 == key;
                assert(pairs[k].0 == key);
            }
            assert(table_of(upto).dom() =~= table_of(before).dom().insert(key));
        },
    }
}

/// Looks for the last of the first `upto` entries with the key, from the last
/// one whose key has the same hash and along the links.
fn find_last<'a>(
    stored: &Vec<(&'a [u8], &'a Object)>,
    earlier: &Vec<Option<usize>>,
    upto: usize,
    from: Option<usize>,
    key: &[u8],
) -> (found: Option<usize>)
    requires
        upto <= stored@.len(),
        upto <= earlier@.len(),
        linked(pairs_of(stored@), earlier@, upto as int),
        last_with_hash(pairs_of(stored@), upto as int, hash_of(key@), from),
    ensures
        last_with_key(pairs_of(stored@), upto as int, key@, found),
{
    let ghost pairs = pairs_of(stored@);
    let ghost wanted = hash_of(key@);
    let mut at = from;
    // From `bound` on, every pair has another key.
    let ghost mut bound: int = upto as int;
    loop
        invariant
            upto <= stored@.len(),
            upto <= earlier@.len(),
            pairs == pairs_of(stored@),
            wanted == hash_of(key@),
            linked(pairs, earlier@, upto as int),
            0 <= bound <= upto,
            last_with_hash(pairs, bound, wanted, at),
            forall|k: int| bound <= k < upto ==> (#[trigger] pairs[k]).0 != key@,
        decreases bound,
    {
        match at {
            Some(j) => {
                if same_bytes(stored[j].0, key) {
                    return Some(j);
                }
                proof {
                    bound = j as int;
                }
                at = earlier[j];
            },
            None => {
                return None;
            },
        }
    }
}

/// The named destinations of a document. The keys and the destinations are
/// those of the document itself, which the table borrows.
///
/// The table keeps the pairs in the order in which they were gathered, and
/// finds a key by its hash: each hash leads to the last pair whose key has
/// it, and each pair to the one before it with the same hash.
pub struct NamedDestinations<'a> {
    stored: Vec<(&'a [u8], &'a Object)>,
    earlier: Vec<Option<usize>>,
    latest: HashMap<u64, usize>,
    keys: usize,
}

impl<'a> View for NamedDestinations<'a> {
    type V = Map<Seq<u8>, Value>;

    closed spec fn view(&self) -> Map<Seq<u8>, Value> {
        table_of(pairs_of(self.stored@))
    }
}

impl<'a> NamedDestinations<'a> {
    #[verifier::type_invariant]
    spec fn well_formed(self) -> bool {
        let pairs = pairs_of(self.stored@);
        &&& self.earlier@.len() == self.stored@.len()
        &&& linked(pairs, self.earlier@, pairs.len() as int)
        &&& headed(pairs, self.latest@, pairs.len() as int)
        &&& self.keys == table_of(pairs).dom().len()
    }

    /// The pairs that were gathered, in the order in which they came.
    pub closed spec fn pairs(&self) -> Seq<Pair> {
        pairs_of(self.stored@)
    }

    /// What the view is: the table of the gathered pairs.
    pub proof fn lemma_view(&self)
        ensures
            self@ == table_of(self.pairs()),
            self@.dom().finite(),
    {
        lemma_table_is_finite(self.pairs());
    }

    /// The table of pairs of keys and destinations. Where a key comes more
    /// than once, the destination that comes last stands.
    pub fn from_pairs(stored: Vec<(&'a [u8], &'a Object)>) -> (table: NamedDestinations<'a>)
        ensures
            table.pairs() == pairs_of(stored@),
            table@ == table_of(pairs_of(stored@)),
    {
        let ghost pairs = pairs_of(stored@);
        let mut earlier: Vec<Option<usize>> = Vec::new();
        let mut latest: HashMap<u64, usize> = HashMap::new();
        let mut keys: usize = 0;
        let mut i: usize = 0;
        while i < stored.len()
            invariant
                i <= stored@.len(),
                pairs == pairs_of(stored@),
                earlier@.len() == i,
                linked(pairs, earlier@, i as int),
                headed(pairs, latest@, i as int),
                keys == table_of(pairs.take(i as int)).dom().len(),
                keys <= i,
            decreases stored.len() - i,
        {
            let key = stored[i].0;
            let filed = hash(key);
            assert(last_with_hash(pairs, i as int, filed, head(latest@, filed)));
            let from: Option<usize> = match latest.get(&filed) {
                Some(j) => Some(*j),
                None => None,
            };
            let known = find_last(&stored, &earlier, i, from, key);
            proof {
                lemma_one_more_key(pairs, i as int, known);
                lemma_table_is_finite(pairs.take(i as int));
                lemma_one_more_link(pairs, earlier@, i as int, from);
                lemma_one_more_head(pairs, latest@, i);
            }
            if known.is_none() {
                keys = keys + 1;
            }
            earlier.push(from);
            latest.insert(filed, i);
            i = i + 1;
        }
        assert(pairs.take(stored@.len() as int) =~= pairs);
        NamedDestinations { stored, earlier, latest, keys }
    }

    /// The number of keys in the table.
    pub fn len(&self) -> (count: usize)
        ensures
            self@.dom().finite(),
            count == self@.dom().len(),
    {
        proof {
            use_type_invariant(self);
            lemma_table_is_finite(pairs_of(self.stored@));
        }
        self.keys
    }

    /// The destination under a key.
    pub fn get(&self, key: &[u8]) -> (r: Option<&'a Object>)
        ensures
            value_of(r) == entry(self@, key@),
    {
        proof {
            use_type_invariant(self);
        }
        let ghost pairs = pairs_of(self.stored@);
        let filed = hash(key);
        assert(last_with_hash(pairs, pairs.len() as int, filed, head(self.latest@, filed)));
        let from: Option<usize> = match self.latest.get(&filed) {
            Some(j) => Some(*j),
            None => None,
        };
        let found = find_last(&self.stored, &self.earlier, self.stored.len(), from, key);
        match found {
            Some(j) => {
                proof {
                    lemma_table_holds_last(pairs, key@, j as int);
                    assert(pairs[j as int] == pair_of(self.stored@[j as int]));
                }
                Some(self.stored[j].1)
            },
            None => {
                proof {
                    lemma_table_has(pairs, key@);
                }
                None
            },
        }
    }
}

} // verus!
