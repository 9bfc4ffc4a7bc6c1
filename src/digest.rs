use vstd::prelude::*;

use crate::error::ShareError;

verus! {

/// The BLAKE3 digest of a byte sequence: 32 bytes that depend on the input
/// bytes alone.
pub uninterp spec fn blake3_of(b: Seq<u8>) -> Seq<u8>;

/// Relies on `blake3::hash`: the 32-byte BLAKE3 digest of the input.
#[verifier::external_body]
fn blake3_hash(b: &[u8]) -> (r: [u8; 32])
    ensures
        r@ == blake3_of(b@),
{
    *blake3::hash(b).as_bytes()
}

/// The content identifier of a byte sequence.
pub fn digest(bytes: &[u8]) -> (r: [u8; 32])
    ensures
        r@ == blake3_of(bytes@),
{
    blake3_hash(bytes)
}

/// The chunks joined into one sequence, in order.
pub open spec fn concat_chunks(chunks: Seq<Vec<u8>>) -> Seq<u8>
    decreases chunks.len(),
{
    if chunks.len() == 0 {
        Seq::empty()
    } else {
        concat_chunks(chunks.drop_last()) + chunks.last()@
    }
}

/// The content identifier of the bytes that arrive in `chunks`, in order:
/// the same as that of the chunks joined into one sequence.
pub fn digest_stream(chunks: &Vec<Vec<u8>>) -> (r: [u8; 32])
    ensures
        r@ == blake3_of(concat_chunks(chunks@)),
{
    let mut all: Vec<u8> = Vec::new();
    let mut i: usize = 0;
    while i < chunks.len()
        invariant
            i <= chunks.len(),
            all@ == concat_chunks(chunks@.take(i as int)),
        decreases chunks.len() - i,
    {
        assert(chunks@.take(i + 1).drop_last() =~= chunks@.take(i as int));
        let chunk = &chunks[i];
        let mut j: usize = 0;
        let ghost start = all@;
        while j < chunk.len()
            invariant
                j <= chunk.len(),
                all@ == start + chunk@.take(j as int),
            decreases chunk.len() - j,
        {
            all.push(chunk[j]);
            assert(chunk@.take(j + 1) =~= chunk@.take(j as int).push(chunk[j as int]));
            assert(all@ =~= start + chunk@.take(j + 1));
            j += 1;
        }
        assert(chunk@.take(chunk.len() as int) =~= chunk@);
        i += 1;
    }
    assert(chunks@.take(chunks.len() as int) =~= chunks@);
    blake3_hash(all.as_slice())
}

/// Whether two identifiers are the same.
pub fn same_id(a: &[u8; 32], b: &[u8; 32]) -> (r: bool)
    ensures
        r == (a@ == b@),
{
    let mut i: usize = 0;
    while i < 32
        invariant
            i <= 32,
            a@.len() == 32,
            b@.len() == 32,
            forall|j: int| 0 <= j < i ==> a@[j] == b@[j],
        decreases 32 - i,
    {
        if a[i] != b[i] {
            return false;
        }
        i += 1;
    }
    assert(a@ =~= b@);
    true
}

/// Compares the digest recomputed over received bytes with the identifier
/// that was requested.
pub fn check_digest(expected: &[u8; 32], actual: &[u8; 32]) -> (r: Result<(), ShareError>)
    ensures
        r is Ok <==> expected@ == actual@,
        r matches Err(e) ==> e == ShareError::IntegrityMismatch,
{
    if same_id(expected, actual) {
        Ok(())
    } else {
        Err(ShareError::IntegrityMismatch)
    }
}

/// Accepts received bytes only where they hash to the requested identifier.
pub fn verify_content(expected: &[u8; 32], received: &[u8]) -> (r: Result<(), ShareError>)
    ensures
        r is Ok <==> blake3_of(received@) == expected@,
        r matches Err(e) ==> e == ShareError::IntegrityMismatch,
{
    let actual = blake3_hash(received);
    check_digest(expected, &actual)
}

/// Digesting is deterministic: equal bytes have equal identifiers.
pub proof fn lemma_digest_deterministic(a: Seq<u8>, b: Seq<u8>)
    requires
        a == b,
    ensures
        blake3_of(a) == blake3_of(b),
{
}

} // verus!
