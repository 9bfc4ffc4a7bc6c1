use vstd::prelude::*;

use crate::digest::{blake3_of, digest, same_id, verify_content};
use crate::error::ShareError;

verus! {

/// A stored record: the content identifier and the bytes.
pub struct BlobRecord {
    pub id: [u8; 32],
    pub bytes: Vec<u8>,
}

/// Content-addressed storage of blobs, held in memory. Each record is
/// filed under the digest of its bytes, and each identifier occurs once.
pub struct BlobStore {
    records: Vec<BlobRecord>,
}

pub open spec fn record_view(r: BlobRecord) -> (Seq<u8>, Seq<u8>) {
    (r.id@, r.bytes@)
}

/// The bytes filed under `id`, if any.
pub open spec fn find(s: Seq<(Seq<u8>, Seq<u8>)>, id: Seq<u8>) -> Option<Seq<u8>>
    decreases s.len(),
{
    if s.len() == 0 {
        None
    } else if s.last().0 == id {
        Some(s.last().1)
    } else {
        find(s.drop_last(), id)
    }
}

pub open spec fn store_wf(s: Seq<(Seq<u8>, Seq<u8>)>) -> bool {
    &&& forall|i: int| 0 <= i < s.len() ==> (#[trigger] s[i]).0 == blake3_of(s[i].1)
    &&& forall|i: int, j: int| 0 <= i < j < s.len() ==> (#[trigger] s[i]).0 != (#[trigger] s[j]).0
}

/// The records after storing `b`: unchanged where its identifier is known,
/// one record more otherwise.
pub open spec fn put_spec(s: Seq<(Seq<u8>, Seq<u8>)>, b: Seq<u8>) -> Seq<(Seq<u8>, Seq<u8>)> {
    if find(s, blake3_of(b)) is Some {
        s
    } else {
        s.push((blake3_of(b), b))
    }
}

proof fn lemma_find_at(s: Seq<(Seq<u8>, Seq<u8>)>, i: int)
    requires
        store_wf(s),
        0 <= i < s.len(),
    ensures
        find(s, s[i].0) == Some(s[i].1),
    decreases s.len(),
{
    if i < s.len() - 1 {
        assert(s[i].0 != s[s.len() - 1].0);
        let d = s.drop_last();
        assert(store_wf(d)) by {
            assert forall|k: int| 0 <= k < d.len() implies (#[trigger] d[k]).0 == blake3_of(d[k].1) by {
                assert(d[k] == s[k]);
            }
            assert forall|k: int, l: int| 0 <= k < l < d.len() implies (#[trigger] d[k]).0 != (#[trigger] d[l]).0 by {
                assert(d[k] == s[k] && d[l] == s[l]);
            }
        }
        assert(d[i] == s[i]);
        lemma_find_at(d, i);
    }
}

proof fn lemma_find_none(s: Seq<(Seq<u8>, Seq<u8>)>, id: Seq<u8>)
    requires
        forall|i: int| 0 <= i < s.len() ==> (#[trigger] s[i]).0 != id,
    ensures
        find(s, id) is None,
    decreases s.len(),
{
    if s.len() > 0 {
        let d = s.drop_last();
        assert forall|i: int| 0 <= i < d.len() implies (#[trigger] d[i]).0 != id by {
            assert(d[i] == s[i]);
        }
        lemma_find_none(d, id);
    }
}

proof fn lemma_find_sound(s: Seq<(Seq<u8>, Seq<u8>)>, id: Seq<u8>)
    requires
        store_wf(s),
        find(s, id) is Some,
    ensures
        blake3_of(find(s, id)->0) == id,
    decreases s.len(),
{
    if s.last().0 != id {
        let d = s.drop_last();
        assert(store_wf(d)) by {
            assert forall|k: int| 0 <= k < d.len() implies (#[trigger] d[k]).0 == blake3_of(d[k].1) by {
                assert(d[k] == s[k]);
            }
            assert forall|k: int, l: int| 0 <= k < l < d.len() implies (#[trigger] d[k]).0 != (#[trigger] d[l]).0 by {
                assert(d[k] == s[k] && d[l] == s[l]);
            }
        }
        lemma_find_sound(d, id);
    } else {
        assert(s[s.len() - 1] == s.last());
    }
}

impl View for BlobStore {
    type V = Seq<(Seq<u8>, Seq<u8>)>;

    closed spec fn view(&self) -> Seq<(Seq<u8>, Seq<u8>)> {
        self.records@.map_values(|r: BlobRecord| record_view(r))
    }
}

impl BlobStore {
    pub open spec fn wf(&self) -> bool {
        store_wf(self@)
    }

    pub fn new() -> (r: BlobStore)
        ensures
            r.wf(),
            r@ == Seq::<(Seq<u8>, Seq<u8>)>::empty(),
    {
        let r = BlobStore { records: Vec::new() };
        assert(r@ =~= Seq::<(Seq<u8>, Seq<u8>)>::empty());
        r
    }

    fn position(&self, id: &[u8; 32]) -> (r: Option<usize>)
        requires
            self.wf(),
        ensures
            r is None ==> find(self@, id@) is None,
            r matches Some(i) ==> i < self@.len() && self@[i as int].0 == id@,
    {
        let ghost s = self@;
        let mut i: usize = 0;
        while i < self.records.len()
            invariant
                s == self@,
                s.len() == self.records@.len(),
                i <= s.len(),
                forall|k: int| 0 <= k < i ==> (#[trigger] s[k]).0 != id@,
            decreases s.len() - i,
        {
            assert(s[i as int] == record_view(self.records@[i as int]));
            if same_id(&self.records[i].id, id) {
                return Some(i);
            }
            i += 1;
        }
        proof {
            lemma_find_none(s, id@);
        }
        None
    }

    /// Whether bytes are stored under `id`.
    pub fn contains(&self, id: &[u8; 32]) -> (r: bool)
        requires
            self.wf(),
        ensures
            r == find(self@, id@) is Some,
    {
        match self.position(id) {
            Some(i) => {
                proof {
                    lemma_find_at(self@, i as int);
                }
                true
            },
            None => false,
        }
    }

    /// The bytes stored under `id`; fails with `NotFound` where there are
    /// none. Whatever comes back hashes to `id`.
    pub fn get(&self, id: &[u8; 32]) -> (r: Result<&Vec<u8>, ShareError>)
        requires
            self.wf(),
        ensures
            match find(self@, id@) {
                Some(b) => r matches Ok(v) && v@ == b && blake3_of(v@) == id@,
                None => r matches Err(e) && e == ShareError::NotFound,
            },
    {
        match self.position(id) {
            Some(i) => {
                proof {
                    lemma_find_at(self@, i as int);
                    lemma_find_sound(self@, id@);
                }
                assert(self@[i as int] == record_view(self.records@[i as int]));
                Ok(&self.records[i].bytes)
            },
            None => Err(ShareError::NotFound),
        }
    }

    /// Accepts bytes fetched for `expected`: they are stored only where they
    /// hash to it. Otherwise the store is left as it was and the fetch fails
    /// with `IntegrityMismatch`.
    pub fn put_fetched(&mut self, expected: &[u8; 32], bytes: Vec<u8>) -> (r: Result<(), ShareError>)
        requires
            old(self).wf(),
        ensures
            final(self).wf(),
            r is Ok <==> blake3_of(bytes@) == expected@,
            r is Ok ==> final(self)@ == put_spec(old(self)@, bytes@),
            r matches Err(e) ==> e == ShareError::IntegrityMismatch && final(self)@ == old(self)@,
    {
        match verify_content(expected, bytes.as_slice()) {
            Ok(()) => {
                self.put(bytes);
                Ok(())
            },
            Err(e) => Err(e),
        }
    }

    /// Stores `bytes` and returns their identifier. Where content with that
    /// identifier is already stored, nothing changes.
    pub fn put(&mut self, bytes: Vec<u8>) -> (r: [u8; 32])
        requires
            old(self).wf(),
        ensures
            final(self).wf(),
            r@ == blake3_of(bytes@),
            final(self)@ == put_spec(old(self)@, bytes@),
    {
        let id = digest(bytes.as_slice());
        match self.position(&id) {
            Some(i) => {
                proof {
                    lemma_find_at(self@, i as int);
                }
                id
            },
            None => {
                let ghost s = self@;
                self.records.push(BlobRecord { id, bytes });
                assert(self@ =~= s.push((id@, bytes@)));
                proof {
                    assert forall|k: int| 0 <= k < s.len() implies (#[trigger] s[k]).0 != id@ by {
                        if s[k].0 == id@ {
                            lemma_find_at(s, k);
                        }
                    }
                }
                id
            },
        }
    }
}

/// Storing content never disturbs what is stored under another identifier,
/// and afterwards the content's identifier finds bytes with that digest:
/// deduplication leaves every stored blob readable and intact.
pub proof fn lemma_put_keeps_contents(s: Seq<(Seq<u8>, Seq<u8>)>, b: Seq<u8>, other: Seq<u8>)
    requires
        store_wf(s),
        other != blake3_of(b),
    ensures
        store_wf(put_spec(s, b)),
        find(put_spec(s, b), other) == find(s, other),
        find(put_spec(s, b), blake3_of(b)) is Some,
        blake3_of(find(put_spec(s, b), blake3_of(b))->0) == blake3_of(b),
{
    let t = put_spec(s, b);
    if find(s, blake3_of(b)) is None {
        assert(t.drop_last() =~= s);
        assert forall|k: int| 0 <= k < s.len() implies (#[trigger] s[k]).0 != blake3_of(b) by {
            if s[k].0 == blake3_of(b) {
                lemma_find_at(s, k);
            }
        }
        assert(store_wf(t)) by {
            assert forall|k: int| 0 <= k < t.len() implies (#[trigger] t[k]).0 == blake3_of(t[k].1) by {
                if k < s.len() {
                    assert(t[k] == s[k]);
                }
            }
            assert forall|k: int, l: int| 0 <= k < l < t.len() implies (#[trigger] t[k]).0 != (#[trigger] t[l]).0 by {
                assert(t[k] == s[k]);
                if l < s.len() {
                    assert(t[l] == s[l]);
                }
            }
        }
    }
    lemma_find_sound(t, blake3_of(b));
}

} // verus!
