//! An index from texts to the positions at which a sequence holds them, so
//! that a text is found without going through the whole sequence.

use vstd::prelude::*;
use vstd::std_specs::hash::*;
use vstd::utf8::encode_utf8;
use std::collections::HashMap;
use crate::entry_data::holds_index;

verus! {

/// The hash after one more byte.
pub open spec fn hash_step(hash: u64, byte: u8) -> u64 {
    ((hash * 31 + byte) % 0x1_0000_0000_0000_0000) as u64
}

/// The hash of a run of bytes.
pub open spec fn hash_bytes(bytes: Seq<u8>) -> u64
    decreases bytes.len(),
{
    if bytes.len() == 0 {
        7
    } else {
        hash_step(hash_bytes(bytes.drop_last()), bytes.last())
    }
}

/// The hash of a text: that of its bytes.
pub open spec fn text_hash(text: Seq<char>) -> u64 {
    hash_bytes(encode_utf8(text))
}

/// The hash of `text`.
pub fn hash_text(text: &str) -> (hash: u64)
    ensures
        hash == text_hash(text@),
{
    let bytes = text.as_bytes();
    let mut hash: u64 = 7;
    let mut i: usize = 0;
    assert(bytes@.take(0) =~= Seq::<u8>::empty());
    while i < bytes.len()
        invariant
            i <= bytes@.len(),
            hash == hash_bytes(bytes@.take(i as int)),
        decreases bytes@.len() - i,
    {
        proof {
            assert(bytes@.take(i + 1).drop_last() =~= bytes@.take(i as int));
        }
        let wide: u128 = (hash as u128) * 31 + (bytes[i] as u128);
        hash = (wide % 0x1_0000_0000_0000_0000) as u64;
        i += 1;
    }
    proof {
        assert(bytes@.take(i as int) =~= bytes@);
    }
    hash
}

/// For every hash the positions of the texts with that hash.
#[derive(Debug)]
pub struct TextIndex {
    buckets: HashMap<u64, Vec<usize>>,
}

impl TextIndex {
    /// The index knows the position of every one of `keys`, and holds no
    /// position beyond them.
    pub closed spec fn covers(&self, keys: Seq<Seq<char>>) -> bool {
        &&& forall|i: int|
            0 <= i < keys.len() ==> self.buckets@.contains_key(text_hash(#[trigger] keys[i]))
                && holds_index(self.buckets@[text_hash(keys[i])]@, i)
        &&& forall|hash: u64, j: int|
            self.buckets@.contains_key(hash) && 0 <= j < self.buckets@[hash]@.len()
                ==> #[trigger] self.buckets@[hash]@[j] < keys.len()
    }

    /// The index of no texts.
    pub fn new() -> (index: Self)
        ensures
            index.covers(Seq::empty()),
    {
        broadcast use group_hash_axioms;

        TextIndex { buckets: HashMap::new() }
    }

    /// The positions at which `text` may stand among `keys`: all of them
    /// valid, and every position that holds `text` among them.
    pub(crate) fn candidates(&self, text: &str, Ghost(keys): Ghost<Seq<Seq<char>>>) -> (found: Option<
        &Vec<usize>,
    >)
        requires
            self.covers(keys),
        ensures
            match found {
                Some(at) => {
                    &&& forall|j: int| 0 <= j < at@.len() ==> #[trigger] at@[j] < keys.len()
                    &&& forall|i: int|
                        0 <= i < keys.len() && #[trigger] keys[i] == text@ ==> holds_index(at@, i)
                },
                None => forall|i: int| 0 <= i < keys.len() ==> #[trigger] keys[i] != text@,
            },
    {
        broadcast use group_hash_axioms;

        let hash = hash_text(text);
        let found = self.buckets.get(&hash);
        proof {
            match found {
                Some(at) => {
                    assert(self.buckets@.contains_key(hash) && self.buckets@[hash] == *at);
                    assert forall|j: int| 0 <= j < at@.len() implies #[trigger] at@[j]
                        < keys.len() by {
                        assert(self.buckets@[hash]@[j] < keys.len());
                    }
                },
                None => {
                    assert(!self.buckets@.contains_key(hash));
                },
            }
        }
        found
    }

    /// Takes note that `text` stands at the position `at`, the next after
    /// `keys`.
    pub(crate) fn add(&mut self, text: &str, at: usize, Ghost(keys): Ghost<Seq<Seq<char>>>)
        requires
            old(self).covers(keys),
            at == keys.len(),
        ensures
            final(self).covers(keys.push(text@)),
    {
        broadcast use group_hash_axioms;

        let hash = hash_text(text);
        let ghost before = self.buckets@;
        let mut bucket = match self.buckets.remove(&hash) {
            Some(bucket) => bucket,
            None => Vec::new(),
        };
        let ghost earlier = bucket@;
        bucket.push(at);
        self.buckets.insert(hash, bucket);
        proof {
            let after = self.buckets@;
            let grown = keys.push(text@);
            assert(before.contains_key(hash) ==> earlier == before[hash]@);
            assert(after =~= before.insert(hash, bucket));
            assert(bucket@ == earlier.push(at));
            assert forall|i: int| 0 <= i < grown.len() implies after.contains_key(
                text_hash(#[trigger] grown[i]),
            ) && holds_index(after[text_hash(grown[i])]@, i) by {
                if i < keys.len() {
                    assert(grown[i] == keys[i]);
                    let h = text_hash(keys[i]);
                    assert(before.contains_key(h) && holds_index(before[h]@, i));
                    if h == hash {
                        let j = choose|j: int| 0 <= j < earlier.len() && #[trigger] earlier[j] == i;
                        assert(bucket@[j] == i);
                    }
                } else {
                    assert(bucket@[earlier.len() as int] == at);
                }
            }
            assert forall|h: u64, j: int|
                after.contains_key(h) && 0 <= j < after[h]@.len() implies #[trigger] after[h]@[j]
                < grown.len() by {
                if h == hash {
                    if j < earlier.len() {
                        assert(before[h]@[j] < keys.len());
                    }
                } else {
                    assert(before[h]@[j] < keys.len());
                }
            }
        }
    }
}

} // verus!
