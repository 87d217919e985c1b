//! Finding the entries of a list by name without reading the whole list: the
//! names, and their positions kept by the hash of each name.

use std::collections::hash_map::DefaultHasher;
use std::collections::HashMap;
use std::hash::Hasher;
use vstd::prelude::*;
use vstd::std_specs::hash::DefaultHasherAdditionalSpecFns;
use vstd::string::StringSliceAdditionalSpecFns;
use vstd::utf8::encode_utf8;
use crate::domain::text::same_text;

verus! {

/// The hash of a name: that of its bytes, written to a fresh hasher in one piece.
pub open spec fn name_hash(name: Seq<char>) -> u64 {
    DefaultHasher::spec_finish(seq![encode_utf8(name)])
}

/// The names in a list, as characters.
pub open spec fn texts(names: Seq<String>) -> Seq<Seq<char>> {
    names.map_values(|name: String| name@)
}

/// The position `i` is one of those in the bucket.
spec fn holds(bucket: Seq<usize>, i: int) -> bool {
    exists|p: int| 0 <= p < bucket.len() && (#[trigger] bucket[p]) == i
}

/// The index covers the list of names: under each hash it holds positions
/// of the list, in rising order, and each position of the list stands under
/// the hash of the name at that position.
spec fn covers(index: Map<u64, Vec<usize>>, names: Seq<Seq<char>>) -> bool {
    &&& forall|h: u64, p: int|
        index.contains_key(h) && 0 <= p < index[h]@.len() ==> (#[trigger] index[h]@[p]) < names.len()
    &&& forall|h: u64, p: int, q: int|
        index.contains_key(h) && 0 <= p < q < index[h]@.len() ==> (#[trigger] index[h]@[p])
            < (#[trigger] index[h]@[q])
    &&& forall|i: int|
        0 <= i < names.len() ==> index.contains_key(#[trigger] name_hash(names[i]))
            && holds(index[name_hash(names[i])]@, i)
}

/// With nothing under the hash of a name, no entry has that name.
proof fn lemma_no_bucket_no_entry(index: Map<u64, Vec<usize>>, names: Seq<Seq<char>>, name: Seq<char>)
    requires
        covers(index, names),
        !index.contains_key(name_hash(name)),
    ensures
        forall|i: int| 0 <= i < names.len() ==> #[trigger] names[i] != name,
{
    assert forall|i: int| 0 <= i < names.len() implies #[trigger] names[i] != name by {
        assert(index.contains_key(name_hash(names[i])));
    }
}

/// Once the positions under the hash of a name have been tried from the
/// last one down to the one at `p`, no entry behind `bound` has that name,
/// where `bound` is the position that stands at `p - 1`, or -1 with `p` at 0.
proof fn lemma_bucket_searched(
    index: Map<u64, Vec<usize>>,
    names: Seq<Seq<char>>,
    name: Seq<char>,
    p: int,
    bound: int,
)
    requires
        covers(index, names),
        index.contains_key(name_hash(name)),
        0 <= p <= index[name_hash(name)]@.len(),
        forall|q: int|
            p <= q < index[name_hash(name)]@.len() ==> names[(
            #[trigger] index[name_hash(name)]@[q]) as int] != name,
        p == 0 ==> bound == -1,
        p > 0 ==> bound == index[name_hash(name)]@[p - 1],
    ensures
        forall|i: int| bound < i < names.len() ==> #[trigger] names[i] != name,
{
    let bucket = index[name_hash(name)]@;
    assert forall|i: int| bound < i < names.len() implies #[trigger] names[i] != name by {
        if names[i] == name {
            assert(index.contains_key(name_hash(names[i])));
            assert(holds(bucket, i));
            let q = choose|q: int| 0 <= q < bucket.len() && (#[trigger] bucket[q]) == i;
            if q < p {
                if q < p - 1 {
                    assert(bucket[q] < bucket[p - 1]);
                }
            } else {
                assert(names[bucket[q] as int] != name);
            }
        }
    }
}

/// Computes the hash of a name.
pub fn hash_name(name: &str) -> (hash: u64)
    ensures
        hash == name_hash(name@),
{
    let mut hasher = DefaultHasher::new();
    hasher.write(name.as_bytes());
    proof {
        assert(hasher@ =~= seq![encode_utf8(name@)]);
    }
    hasher.finish()
}

/// Builds the buckets that cover a list of names.
fn bucket_names(names: &Vec<String>) -> (index: HashMap<u64, Vec<usize>>)
    ensures
        covers(index@, texts(names@)),
{
    broadcast use vstd::std_specs::hash::group_hash_axioms;

    let mut index: HashMap<u64, Vec<usize>> = HashMap::new();
    let mut i: usize = 0;
    while i < names.len()
        invariant
            i <= names@.len(),
            covers(index@, texts(names@).take(i as int)),
        decreases names@.len() - i,
    {
        let hash = hash_name(names[i].as_str());
        let ghost before = index@;
        let ghost listed = texts(names@).take(i as int);
        let ghost longer = texts(names@).take(i + 1);
        let mut bucket = match index.remove(&hash) {
            Some(bucket) => bucket,
            None => Vec::new(),
        };
        let ghost earlier = bucket@;
        bucket.push(i);
        index.insert(hash, bucket);
        proof {
            assert(before.contains_key(hash) ==> earlier == before[hash]@);
            assert(!before.contains_key(hash) ==> earlier.len() == 0);
            assert(forall|p: int| 0 <= p < earlier.len() ==> earlier[p] < i) by {
                if before.contains_key(hash) {
                    assert forall|p: int| 0 <= p < earlier.len() implies earlier[p] < i by {
                        assert(before[hash]@[p] < listed.len());
                    }
                }
            }
            assert forall|h: u64, p: int|
                index@.contains_key(h) && 0 <= p < index@[h]@.len() implies (#[trigger] index@[h]@[p])
                < longer.len() by {
                if h != hash {
                    assert(before[h]@[p] < listed.len());
                }
            }
            assert forall|h: u64, p: int, q: int|
                index@.contains_key(h) && 0 <= p < q < index@[h]@.len() implies (
            #[trigger] index@[h]@[p]) < (#[trigger] index@[h]@[q]) by {
                if h != hash {
                    assert(before[h]@[p] < before[h]@[q]);
                } else if q < earlier.len() {
                    assert(before[h]@[p] < before[h]@[q]);
                }
            }
            assert forall|j: int| 0 <= j < longer.len() implies index@.contains_key(
                #[trigger] name_hash(longer[j]),
            ) && holds(index@[name_hash(longer[j])]@, j) by {
                if j < i {
                    assert(longer[j] == listed[j]);
                    let h = name_hash(listed[j]);
                    assert(before.contains_key(h) && holds(before[h]@, j));
                    let p = choose|p: int| 0 <= p < before[h]@.len() && (#[trigger] before[h]@[p]) == j;
                    assert(index@[h]@[p] == j);
                } else {
                    assert(longer[j] == names@[i as int]@);
                    assert(index@[hash]@[earlier.len() as int] == i);
                }
            }
        }
        i += 1;
    }
    proof {
        assert(texts(names@).take(i as int) =~= texts(names@));
    }
    index
}

/// Where the name stands last in the list, if it stands in it at all.
pub open spec fn last_position(names: Seq<Seq<char>>, name: Seq<char>, position: Option<usize>) -> bool {
    match position {
        Some(i) => {
            &&& i < names.len()
            &&& names[i as int] == name
            &&& forall|m: int| i < m < names.len() ==> #[trigger] names[m] != name
        },
        None => forall|m: int| 0 <= m < names.len() ==> #[trigger] names[m] != name,
    }
}

/// A list of names that finds the last position of a name at the cost of
/// hashing it, however long the list is.
#[derive(Debug, PartialEq)]
pub struct NameIndex {
    names: Vec<String>,
    buckets: HashMap<u64, Vec<usize>>,
}

impl View for NameIndex {
    type V = Seq<Seq<char>>;

    closed spec fn view(&self) -> Seq<Seq<char>> {
        texts(self.names@)
    }
}

impl Clone for NameIndex {
    /// A second index of the same names.
    fn clone(&self) -> (index: NameIndex)
        ensures
            index@ == self@,
    {
        proof {
            use_type_invariant(self);
        }
        let mut names: Vec<String> = Vec::new();
        let mut i: usize = 0;
        while i < self.names.len()
            invariant
                i <= self.names@.len(),
                texts(names@) == texts(self.names@).take(i as int),
            decreases self.names@.len() - i,
        {
            let ghost before = texts(names@);
            let name = self.names[i].clone();
            names.push(name);
            proof {
                assert(texts(names@) =~= before.push(name@));
                assert(before.push(name@) =~= texts(self.names@).take(i + 1));
            }
            i += 1;
        }
        proof {
            assert(texts(self.names@).take(i as int) =~= texts(self.names@));
        }
        NameIndex { names, buckets: self.buckets.clone() }
    }
}

impl NameIndex {
    #[verifier::type_invariant]
    spec fn bucketed(&self) -> bool {
        covers(self.buckets@, texts(self.names@))
    }

    /// The index of a list of names.
    pub fn new(names: Vec<String>) -> (index: NameIndex)
        ensures
            index@ == texts(names@),
    {
        let buckets = bucket_names(&names);
        NameIndex { names, buckets }
    }

    /// The last position at which the name stands, or nothing if it stands
    /// nowhere in the list.
    pub fn position(&self, name: &str) -> (position: Option<usize>)
        ensures
            last_position(self@, name@, position),
    {
        broadcast use vstd::std_specs::hash::group_hash_axioms;

        proof {
            use_type_invariant(self);
        }
        let ghost names = texts(self.names@);
        let hash = hash_name(name);
        match self.buckets.get(&hash) {
            None => {
                proof {
                    lemma_no_bucket_no_entry(self.buckets@, names, name@);
                }
                None
            },
            Some(bucket) => {
                let mut p: usize = bucket.len();
                while p > 0
                    invariant
                        p <= bucket@.len(),
                        names == texts(self.names@),
                        covers(self.buckets@, names),
                        self.buckets@.contains_key(hash),
                        self.buckets@[hash] == *bucket,
                        hash == name_hash(name@),
                        forall|q: int|
                            p <= q < bucket@.len() ==> names[(#[trigger] bucket@[q]) as int] != name@,
                    decreases p,
                {
                    p -= 1;
                    let i = bucket[p];
                    assert(i < names.len());
                    if same_text(self.names[i].as_str(), name) {
                        proof {
                            lemma_bucket_searched(self.buckets@, names, name@, p + 1, i as int);
                        }
                        return Some(i);
                    }
                }
                proof {
                    lemma_bucket_searched(self.buckets@, names, name@, 0, -1);
                }
                None
            },
        }
    }
}

} // verus!
