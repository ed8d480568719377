//! "Remember + artifacts": immutable artifacts kept content-addressed, so the
//! same bytes always map to the same id and nothing is mutated in place.

use vstd::prelude::*;
use std::collections::hash_map::DefaultHasher;
use std::hash::{BuildHasher, BuildHasherDefault};
use crate::text::{append_hex_fixed, append_str, hex_fixed};

verus! {

#[derive(Debug, PartialEq, Eq)]
pub enum StoreError {
    NotFound(String),
}

impl StoreError {
    /// The error as a line of text.
    pub fn message(&self) -> (r: String)
        ensures
            match self {
                StoreError::NotFound(id) => r@ == "artifact not found: "@ + id@,
            },
    {
        match self {
            StoreError::NotFound(id) => {
                let mut r = "artifact not found: ".to_string();
                append_str(&mut r, id.as_str());
                r
            },
        }
    }
}

/// The 64-bit hash `std`'s `DefaultHasher`, as built by `new`, gives a byte
/// slice. Every hasher `new` builds starts from the same fixed keys (no
/// per-process seed), so within one build the same bytes always hash alike.
/// The algorithm is left unspecified by `std` and is not described here:
/// values may differ between Rust releases, and between 32- and 64-bit
/// targets (a slice's length is hashed as a `usize`).
pub uninterp spec fn default_hash(bytes: Seq<u8>) -> u64;

/// Calls `BuildHasher::hash_one` on the builder of default `DefaultHasher`s:
/// the slice hashed into a fresh `DefaultHasher`, then `finish`. The result
/// is named `default_hash` of the bytes.
#[verifier::external_body]
fn hash_bytes(bytes: &[u8]) -> (r: u64)
    ensures
        r == default_hash(bytes@),
{
    BuildHasherDefault::<DefaultHasher>::default().hash_one(bytes)
}

/// The content id of some bytes: their hash as 16 lowercase hex digits.
pub open spec fn content_id(bytes: Seq<u8>) -> Seq<char> {
    hex_fixed(default_hash(bytes) as nat, 16)
}

/// The content id of `bytes`.
pub fn digest(bytes: &[u8]) -> (r: String)
    ensures
        r@ == content_id(bytes@),
{
    let h = hash_bytes(bytes);
    let mut r = String::new();
    append_hex_fixed(&mut r, h, 16);
    r
}

/// The bytes stored under `id`: the latest entry with that id.
pub open spec fn lookup(s: Seq<(Seq<char>, Seq<u8>)>, id: Seq<char>) -> Option<Seq<u8>>
    decreases s.len(),
{
    if s.len() == 0 {
        None
    } else if s.last().0 == id {
        Some(s.last().1)
    } else {
        lookup(s.drop_last(), id)
    }
}

proof fn lemma_lookup_update(s: Seq<(Seq<char>, Seq<u8>)>, k: int, id: Seq<char>, bytes: Seq<u8>, x: Seq<char>)
    requires
        0 <= k < s.len(),
        s[k].0 == id,
        forall|j: int| k < j < s.len() ==> s[j].0 != id,
    ensures
        lookup(s.update(k, (id, bytes)), x) == (if x == id {
            Some(bytes)
        } else {
            lookup(s, x)
        }),
    decreases s.len(),
{
    let t = s.update(k, (id, bytes));
    if k == s.len() - 1 {
        assert(t.drop_last() =~= s.drop_last());
    } else {
        assert(t.drop_last() =~= s.drop_last().update(k, (id, bytes)));
        lemma_lookup_update(s.drop_last(), k, id, bytes, x);
    }
}

/// No id is stored twice.
pub open spec fn one_entry_per_id(s: Seq<(Seq<char>, Seq<u8>)>) -> bool {
    forall|i: int, j: int| 0 <= i < j < s.len() ==> s[i].0 != s[j].0
}

/// Something is stored under `id` exactly when some entry carries it.
proof fn lemma_lookup_found(s: Seq<(Seq<char>, Seq<u8>)>, id: Seq<char>)
    ensures
        lookup(s, id) is Some <==> exists|j: int| 0 <= j < s.len() && s[j].0 == id,
    decreases s.len(),
{
    if s.len() > 0 {
        lemma_lookup_found(s.drop_last(), id);
        if exists|j: int| 0 <= j < s.drop_last().len() && s.drop_last()[j].0 == id {
            let j = choose|j: int| 0 <= j < s.drop_last().len() && s.drop_last()[j].0 == id;
            assert(s[j].0 == id);
        }
        if exists|j: int| 0 <= j < s.len() && s[j].0 == id {
            let j = choose|j: int| 0 <= j < s.len() && s[j].0 == id;
            if j < s.len() - 1 {
                assert(s.drop_last()[j].0 == id);
            }
        }
    }
}

/// In-memory content-addressed store for tests: identical content collapses
/// to one entry.
pub struct FakeStore {
    artifacts: Vec<(String, Vec<u8>)>,
}

impl View for FakeStore {
    type V = Seq<(Seq<char>, Seq<u8>)>;

    closed spec fn view(&self) -> Seq<(Seq<char>, Seq<u8>)> {
        self.artifacts@.map_values(|e: (String, Vec<u8>)| (e.0@, e.1@))
    }
}

impl Default for FakeStore {
    fn default() -> (r: Self)
        ensures
            r@.len() == 0,
            forall|id: Seq<char>| #[trigger] lookup(r@, id) is None,
    {
        let r = FakeStore { artifacts: Vec::new() };
        assert(r@ =~= Seq::<(Seq<char>, Seq<u8>)>::empty());
        r
    }
}

impl FakeStore {
    #[verifier::type_invariant]
    spec fn ids_distinct(&self) -> bool {
        one_entry_per_id(self@)
    }

    /// Stores `bytes` and returns their content id. Storing the same bytes
    /// twice yields the same id and keeps one copy.
    pub fn put(&mut self, bytes: Vec<u8>) -> (r: Result<String, StoreError>)
        ensures
            r matches Ok(id) && id@ == content_id(bytes@),
            forall|x: Seq<char>| #[trigger] lookup(final(self)@, x) == (if x == content_id(bytes@) {
                Some(bytes@)
            } else {
                lookup(old(self)@, x)
            }),
            one_entry_per_id(final(self)@),
            final(self)@.len() == old(self)@.len() + (if lookup(old(self)@, content_id(bytes@)) is Some {
                0int
            } else {
                1int
            }),
    {
        proof {
            use_type_invariant(&*self);
        }
        let id = digest(bytes.as_slice());
        let ghost pre = self@;
        let ghost bv = bytes@;
        proof {
            lemma_lookup_found(pre, id@);
        }
        let mut artifacts: Vec<(String, Vec<u8>)> = Vec::new();
        std::mem::swap(&mut artifacts, &mut self.artifacts);
        assert(artifacts@.map_values(|e: (String, Vec<u8>)| (e.0@, e.1@)) == pre);
        let mut k: usize = artifacts.len();
        while k > 0 && artifacts[k - 1].0 != id
            invariant
                pre == artifacts@.map_values(|e: (String, Vec<u8>)| (e.0@, e.1@)),
                k <= artifacts.len(),
                forall|j: int| k <= j < pre.len() ==> pre[j].0 != id@,
            decreases k,
        {
            k = k - 1;
        }
        if k > 0 {
            assert(pre[k - 1].0 == id@);
            artifacts.set(k - 1, (id.clone(), bytes));
            let ghost post = artifacts@.map_values(|e: (String, Vec<u8>)| (e.0@, e.1@));
            proof {
                assert(post =~= pre.update(k - 1, (id@, bv)));
                assert forall|x: Seq<char>| #[trigger] lookup(post, x) == (if x == id@ {
                    Some(bv)
                } else {
                    lookup(pre, x)
                }) by {
                    lemma_lookup_update(pre, k - 1, id@, bv, x);
                }
            }
        } else {
            artifacts.push((id.clone(), bytes));
            let ghost post = artifacts@.map_values(|e: (String, Vec<u8>)| (e.0@, e.1@));
            proof {
                assert(post =~= pre.push((id@, bv)));
                assert forall|x: Seq<char>| #[trigger] lookup(post, x) == (if x == id@ {
                    Some(bv)
                } else {
                    lookup(pre, x)
                }) by {
                    assert(post.drop_last() =~= pre);
                }
            }
        }
        self.artifacts = artifacts;
        Ok(id)
    }

    /// The bytes stored under `id`, or `NotFound` carrying the id.
    pub fn get(&self, id: &str) -> (r: Result<Vec<u8>, StoreError>)
        ensures
            match lookup(self@, id@) {
                Some(b) => r matches Ok(v) && v@ == b,
                None => r matches Err(StoreError::NotFound(x)) && x@ == id@,
            },
    {
        let ghost s = self@;
        let mut k: usize = self.artifacts.len();
        assert(s.subrange(0, k as int) =~= s);
        while k > 0
            invariant
                s == self@,
                k <= self.artifacts.len(),
                lookup(s, id@) == lookup(s.subrange(0, k as int), id@),
            decreases k,
        {
            if crate::text::str_eq(self.artifacts[k - 1].0.as_str(), id) {
                proof {
                    let t = s.subrange(0, k as int);
                    assert(t.last() == s[k - 1]);
                }
                return Ok(self.artifacts[k - 1].1.clone());
            }
            proof {
                let t = s.subrange(0, k as int);
                assert(t.drop_last() =~= s.subrange(0, k - 1));
            }
            k = k - 1;
        }
        proof {
            assert(s.subrange(0, 0) =~= Seq::<(Seq<char>, Seq<u8>)>::empty());
        }
        Err(StoreError::NotFound(id.to_string()))
    }
}

/// Storing bytes and reading back their id gives the bytes; identical bytes
/// always share one id.
pub proof fn lemma_store_round_trip(before: Seq<(Seq<char>, Seq<u8>)>, after: Seq<(Seq<char>, Seq<u8>)>, b: Seq<u8>, c: Seq<u8>)
    requires
        forall|x: Seq<char>| #[trigger] lookup(after, x) == (if x == content_id(b) {
            Some(b)
        } else {
            lookup(before, x)
        }),
    ensures
        lookup(after, content_id(b)) == Some(b),
        b == c ==> content_id(b) == content_id(c),
{
}

/// Storing the same bytes a second time adds no second copy: the store
/// keeps its size and still answers the id with those bytes.
pub proof fn lemma_store_dedupes(
    s0: Seq<(Seq<char>, Seq<u8>)>,
    s1: Seq<(Seq<char>, Seq<u8>)>,
    s2: Seq<(Seq<char>, Seq<u8>)>,
    b: Seq<u8>,
)
    requires
        forall|x: Seq<char>| #[trigger] lookup(s1, x) == (if x == content_id(b) {
            Some(b)
        } else {
            lookup(s0, x)
        }),
        forall|x: Seq<char>| #[trigger] lookup(s2, x) == (if x == content_id(b) {
            Some(b)
        } else {
            lookup(s1, x)
        }),
        s2.len() == s1.len() + (if lookup(s1, content_id(b)) is Some {
            0int
        } else {
            1int
        }),
    ensures
        s2.len() == s1.len(),
        forall|x: Seq<char>| #[trigger] lookup(s2, x) == lookup(s1, x),
{
    assert(lookup(s1, content_id(b)) == Some(b));
}

} // verus!
