use vstd::prelude::*;
use vstd::string::*;
use vstd::utf8::*;
use vstd::arithmetic::div_mod::lemma_fundamental_div_mod;

use crate::digest::{blake3_of, digest};
use crate::error::ShareError;

verus! {

/// Lexicographic order of names, character by character.
pub open spec fn name_lt(a: Seq<char>, b: Seq<char>) -> bool
    decreases a.len(),
{
    if a.len() == 0 {
        b.len() > 0
    } else if b.len() == 0 {
        false
    } else if a[0] != b[0] {
        a[0] < b[0]
    } else {
        name_lt(a.drop_first(), b.drop_first())
    }
}

proof fn lemma_lt_trans(a: Seq<char>, b: Seq<char>, c: Seq<char>)
    requires
        name_lt(a, b),
        name_lt(b, c),
    ensures
        name_lt(a, c),
    decreases a.len(),
{
    if a.len() > 0 && a[0] == b[0] && b[0] == c[0] {
        lemma_lt_trans(a.drop_first(), b.drop_first(), c.drop_first());
    }
}

proof fn lemma_lt_total(a: Seq<char>, b: Seq<char>)
    ensures
        a == b || name_lt(a, b) || name_lt(b, a),
        !(name_lt(a, b) && name_lt(b, a)),
        !name_lt(a, a),
    decreases a.len(),
{
    if a.len() > 0 && b.len() > 0 {
        lemma_lt_total(a.drop_first(), b.drop_first());
        if a[0] == b[0] && a.drop_first() == b.drop_first() {
            assert(a =~= seq![a[0]] + a.drop_first());
            assert(b =~= seq![b[0]] + b.drop_first());
        }
    } else if a.len() > 0 {
        lemma_lt_total(a.drop_first(), a.drop_first());
    } else if b.len() == 0 {
        assert(a =~= b);
    }
}

proof fn lemma_lt_skip(a: Seq<char>, b: Seq<char>, j: int)
    requires
        0 <= j <= a.len(),
        j <= b.len(),
        a.take(j) == b.take(j),
    ensures
        name_lt(a, b) == name_lt(a.skip(j), b.skip(j)),
    decreases j,
{
    if j > 0 {
        assert(a[0] == a.take(j)[0] && b[0] == b.take(j)[0]);
        assert(a.drop_first().take(j - 1) =~= a.take(j).drop_first());
        assert(b.drop_first().take(j - 1) =~= b.take(j).drop_first());
        lemma_lt_skip(a.drop_first(), b.drop_first(), j - 1);
        assert(a.drop_first().skip(j - 1) =~= a.skip(j));
        assert(b.drop_first().skip(j - 1) =~= b.skip(j));
    } else {
        assert(a.skip(0) =~= a);
        assert(b.skip(0) =~= b);
    }
}

/// Whether `a` comes strictly before `b` in name order.
pub fn name_less(a: &str, b: &str) -> (r: bool)
    ensures
        r == name_lt(a@, b@),
{
    let n = a.unicode_len();
    let m = b.unicode_len();
    let mut j: usize = 0;
    while j < n && j < m && a.get_char(j) == b.get_char(j)
        invariant
            n == a@.len(),
            m == b@.len(),
            j <= n,
            j <= m,
            a@.take(j as int) == b@.take(j as int),
        decreases n - j,
    {
        assert(a@.take(j + 1) =~= a@.take(j as int).push(a@[j as int]));
        assert(b@.take(j + 1) =~= b@.take(j as int).push(b@[j as int]));
        j += 1;
    }
    proof {
        lemma_lt_skip(a@, b@, j as int);
    }
    if j == n {
        j < m
    } else if j == m {
        false
    } else {
        let x = a.get_char(j);
        let y = b.get_char(j);
        assert(a@.skip(j as int)[0] == x && b@.skip(j as int)[0] == y);
        x < y
    }
}

/// One file of a manifest: its portable name and its content identifier.
pub struct ManifestEntry {
    pub name: String,
    pub hash: [u8; 32],
}

/// The index of an imported tree: one entry per regular file, in strict
/// name order, so that each name occurs once.
pub struct Manifest {
    entries: Vec<ManifestEntry>,
}

pub open spec fn entry_view(e: ManifestEntry) -> (Seq<char>, Seq<u8>) {
    (e.name@, e.hash@)
}

pub open spec fn strictly_ordered(es: Seq<(Seq<char>, Seq<u8>)>) -> bool {
    forall|i: int, j: int| 0 <= i < j < es.len() ==> name_lt(#[trigger] es[i].0, #[trigger] es[j].0)
}

impl View for Manifest {
    type V = Seq<(Seq<char>, Seq<u8>)>;

    closed spec fn view(&self) -> Seq<(Seq<char>, Seq<u8>)> {
        self.entries@.map_values(|e: ManifestEntry| entry_view(e))
    }
}

/// A length as four bytes, least significant first.
pub open spec fn le32(n: nat) -> Seq<u8> {
    seq![
        (n % 256) as u8,
        (n / 256 % 256) as u8,
        (n / 256 / 256 % 256) as u8,
        (n / 256 / 256 / 256 % 256) as u8,
    ]
}

/// One entry as bytes: the length of the UTF-8 name, the name, the identifier.
pub open spec fn entry_bytes(e: (Seq<char>, Seq<u8>)) -> Seq<u8> {
    le32(encode_utf8(e.0).len()) + encode_utf8(e.0) + e.1
}

/// The entries as bytes, one after another in name order.
pub open spec fn manifest_bytes(es: Seq<(Seq<char>, Seq<u8>)>) -> Seq<u8>
    decreases es.len(),
{
    if es.len() == 0 {
        Seq::empty()
    } else {
        manifest_bytes(es.drop_last()) + entry_bytes(es.last())
    }
}

fn append_bytes(out: &mut Vec<u8>, b: &[u8])
    ensures
        final(out)@ == old(out)@ + b@,
{
    let mut i: usize = 0;
    let ghost start = out@;
    while i < b.len()
        invariant
            i <= b.len(),
            out@ == start + b@.take(i as int),
        decreases b.len() - i,
    {
        out.push(b[i]);
        assert(b@.take(i + 1) =~= b@.take(i as int).push(b@[i as int]));
        assert(out@ =~= start + b@.take(i + 1));
        i += 1;
    }
    assert(b@.take(b.len() as int) =~= b@);
}

pub open spec fn le32_value(b: Seq<u8>) -> nat {
    (b[0] + 256 * b[1] + 65536 * b[2] + 16777216 * b[3]) as nat
}

/// The entries that a byte sequence holds, read from the front; `None`
/// where it ends inside an entry or a name is not UTF-8.
pub open spec fn parse_entries(b: Seq<u8>) -> Option<Seq<(Seq<char>, Seq<u8>)>>
    decreases b.len(),
{
    if b.len() == 0 {
        Some(Seq::empty())
    } else if b.len() < 4 {
        None
    } else {
        let n = le32_value(b) as int;
        if b.len() < 4 + n + 32 {
            None
        } else if !valid_utf8(b.subrange(4, 4 + n)) {
            None
        } else {
            match parse_entries(b.skip(4 + n + 32)) {
                None => None,
                Some(rest) => Some(
                    seq![(decode_utf8(b.subrange(4, 4 + n)), b.subrange(4 + n, 4 + n + 32))]
                        + rest,
                ),
            }
        }
    }
}

/// The manifest that a byte sequence encodes: entries in strict name order.
pub open spec fn parse_manifest(b: Seq<u8>) -> Option<Seq<(Seq<char>, Seq<u8>)>> {
    match parse_entries(b) {
        Some(es) => if strictly_ordered(es) {
            Some(es)
        } else {
            None
        },
        None => None,
    }
}

/// Relies on `String::from_utf8`, which accepts exactly the valid UTF-8
/// sequences and keeps their characters.
#[verifier::external_body]
fn utf8_string(b: Vec<u8>) -> (r: Option<String>)
    ensures
        r is Some <==> valid_utf8(b@),
        r matches Some(s) ==> s@ == decode_utf8(b@),
{
    String::from_utf8(b).ok()
}

fn copy_range(b: &[u8], from: usize, to: usize) -> (r: Vec<u8>)
    requires
        from <= to <= b@.len(),
    ensures
        r@ == b@.subrange(from as int, to as int),
{
    let mut out: Vec<u8> = Vec::new();
    let mut i: usize = from;
    while i < to
        invariant
            from <= i <= to <= b@.len(),
            out@ == b@.subrange(from as int, i as int),
        decreases to - i,
    {
        out.push(b[i]);
        assert(out@ =~= b@.subrange(from as int, i + 1));
        i += 1;
    }
    out
}

fn read_hash(b: &[u8], at: usize) -> (r: [u8; 32])
    requires
        at + 32 <= b@.len(),
    ensures
        r@ == b@.subrange(at as int, at + 32),
{
    let mut hash = [0u8; 32];
    let mut k: usize = 0;
    while k < 32
        invariant
            k <= 32,
            hash@.len() == 32,
            at + 32 <= b.len(),
            forall|j: int| 0 <= j < k ==> hash@[j] == b@[at + j],
        decreases 32 - k,
    {
        hash[k] = b[at + k];
        k += 1;
    }
    assert(hash@ =~= b@.subrange(at as int, at + 32));
    hash
}

fn entries_ordered(es: &Vec<ManifestEntry>) -> (r: bool)
    ensures
        r == strictly_ordered(es@.map_values(|e: ManifestEntry| entry_view(e))),
{
    let ghost v = es@.map_values(|e: ManifestEntry| entry_view(e));
    let mut i: usize = 1;
    while i < es.len()
        invariant
            v == es@.map_values(|e: ManifestEntry| entry_view(e)),
            1 <= i,
            i <= es@.len() || es@.len() == 0,
            forall|x: int, y: int| 0 <= x < y < i && y < v.len() ==> name_lt(#[trigger] v[x].0, #[trigger] v[y].0),
        decreases es@.len() - i,
    {
        let ok = name_less(es[i - 1].name.as_str(), es[i].name.as_str());
        assert(v[i - 1] == entry_view(es@[i - 1]));
        assert(v[i as int] == entry_view(es@[i as int]));
        if !ok {
            proof {
                if strictly_ordered(v) {
                    assert(name_lt(v[i - 1].0, v[i as int].0));
                }
            }
            return false;
        }
        assert forall|x: int| 0 <= x < i implies name_lt(#[trigger] v[x].0, v[i as int].0) by {
            if x < i - 1 {
                lemma_lt_trans(v[x].0, v[i - 1].0, v[i as int].0);
            }
        }
        i += 1;
    }
    true
}

impl Manifest {
    pub open spec fn wf(&self) -> bool {
        strictly_ordered(self@)
    }

    pub fn new() -> (r: Manifest)
        ensures
            r.wf(),
            r@ == Seq::<(Seq<char>, Seq<u8>)>::empty(),
    {
        let r = Manifest { entries: Vec::new() };
        assert(r@ =~= Seq::<(Seq<char>, Seq<u8>)>::empty());
        r
    }

    pub fn len(&self) -> (r: usize)
        ensures
            r == self@.len(),
    {
        self.entries.len()
    }

    /// The name and identifier of the entry at `i`.
    pub fn entry(&self, i: usize) -> (r: (&str, [u8; 32]))
        requires
            i < self@.len(),
        ensures
            r.0@ == self@[i as int].0,
            r.1@ == self@[i as int].1,
    {
        (self.entries[i].name.as_str(), self.entries[i].hash)
    }

    /// The serialized manifest, from which its identifier is computed.
    pub fn to_bytes(&self) -> (r: Vec<u8>)
        ensures
            r@ == manifest_bytes(self@),
    {
        let mut out: Vec<u8> = Vec::new();
        let mut i: usize = 0;
        while i < self.entries.len()
            invariant
                i <= self@.len(),
                out@ == manifest_bytes(self@.take(i as int)),
            decreases self@.len() - i,
        {
            assert(self@.take(i + 1).drop_last() =~= self@.take(i as int));
            let e = &self.entries[i];
            assert(self@[i as int] == (e.name@, e.hash@));
            let name = e.name.as_str().as_bytes_vec();
            let n = name.len();
            let len = vec![
                (n % 256) as u8,
                (n / 256 % 256) as u8,
                (n / 256 / 256 % 256) as u8,
                (n / 256 / 256 / 256 % 256) as u8,
            ];
            assert(len@ =~= le32(n as nat));
            append_bytes(&mut out, len.as_slice());
            append_bytes(&mut out, name.as_slice());
            append_bytes(&mut out, e.hash.as_slice());
            assert(out@ =~= manifest_bytes(self@.take(i as int)) + entry_bytes(self@[i as int]));
            i += 1;
        }
        assert(self@.take(self@.len() as int) =~= self@);
        out
    }

    /// The content identifier of the manifest: the digest of its bytes.
    pub fn id(&self) -> (r: [u8; 32])
        ensures
            r@ == blake3_of(manifest_bytes(self@)),
    {
        let bytes = self.to_bytes();
        digest(bytes.as_slice())
    }

    /// Reads a manifest back from its bytes. Fails with
    /// `IntegrityMismatch` where they end inside an entry, hold a name that
    /// is not UTF-8, or list names out of strict order.
    pub fn from_bytes(b: &[u8]) -> (r: Result<Manifest, ShareError>)
        ensures
            match parse_manifest(b@) {
                Some(es) => r matches Ok(m) && m.wf() && m@ == es,
                None => r matches Err(e) && e == ShareError::IntegrityMismatch,
            },
    {
        let mut entries: Vec<ManifestEntry> = Vec::new();
        let mut pos: usize = 0;
        assert(b@.skip(0) =~= b@);
        proof {
            match parse_entries(b@) {
                Some(rest) => {
                    assert(entries@.map_values(|e: ManifestEntry| entry_view(e)) + rest =~= rest);
                },
                None => {},
            }
        }
        while pos < b.len()
            invariant
                pos <= b@.len(),
                parse_entries(b@) == match parse_entries(b@.skip(pos as int)) {
                    None => None,
                    Some(rest) => Some(entries@.map_values(|e: ManifestEntry| entry_view(e)) + rest),
                },
            decreases b@.len() - pos,
        {
            let ghost acc = entries@.map_values(|e: ManifestEntry| entry_view(e));
            let ghost t = b@.skip(pos as int);
            if b.len() - pos < 4 {
                return Err(ShareError::IntegrityMismatch);
            }
            let n: u64 = b[pos] as u64 + 256 * (b[pos + 1] as u64) + 65536 * (b[pos + 2] as u64)
                + 16777216 * (b[pos + 3] as u64);
            assert(n == le32_value(t));
            if ((b.len() - pos) as u64) < 36 || n > ((b.len() - pos) as u64) - 36 {
                return Err(ShareError::IntegrityMismatch);
            }
            let n = n as usize;
            let raw = copy_range(b, pos + 4, pos + 4 + n);
            assert(raw@ =~= t.subrange(4, 4 + n));
            let name = match utf8_string(raw) {
                Some(name) => name,
                None => {
                    return Err(ShareError::IntegrityMismatch);
                },
            };
            let hash = read_hash(b, pos + 4 + n);
            assert(hash@ =~= t.subrange(4 + n, 4 + n + 32));
            assert(t.skip(4 + n + 32) =~= b@.skip(pos + 4 + n + 32));
            entries.push(ManifestEntry { name, hash });
            assert(entries@.map_values(|e: ManifestEntry| entry_view(e)) =~= acc + seq![
                (decode_utf8(t.subrange(4, 4 + n)), t.subrange(4 + n, 4 + n + 32)),
            ]);
            pos = pos + 4 + n + 32;
        }
        assert(b@.skip(pos as int) =~= Seq::<u8>::empty());
        let m = Manifest { entries };
        assert(m@ =~= entries@.map_values(|e: ManifestEntry| entry_view(e)));
        if !entries_ordered(&m.entries) {
            return Err(ShareError::IntegrityMismatch);
        }
        Ok(m)
    }

    /// Adds a file under `name`, keeping name order. Where the name is
    /// already present the manifest stays as it was and `false` comes back.
    pub fn insert(&mut self, name: String, hash: [u8; 32]) -> (r: bool)
        requires
            old(self).wf(),
        ensures
            final(self).wf(),
            r == !(exists|i: int| 0 <= i < old(self)@.len() && #[trigger] old(self)@[i].0 == name@),
            !r ==> final(self)@ == old(self)@,
            r ==> exists|p: int|
                0 <= p <= old(self)@.len() && final(self)@ == old(self)@.insert(p, (name@, hash@)),
    {
        let ghost es = self@;
        let mut p: usize = 0;
        while p < self.entries.len() && name_less(self.entries[p].name.as_str(), name.as_str())
            invariant
                es == self@,
                strictly_ordered(es),
                p <= es.len(),
                forall|k: int| 0 <= k < p ==> name_lt(#[trigger] es[k].0, name@),
            decreases es.len() - p,
        {
            p += 1;
        }
        if p < self.entries.len() {
            let same = !name_less(name.as_str(), self.entries[p].name.as_str());
            proof {
                lemma_lt_total(es[p as int].0, name@);
            }
            if same {
                assert(es[p as int].0 == name@);
                return false;
            }
        }
        proof {
            assert forall|k: int| 0 <= k < es.len() implies #[trigger] es[k].0 != name@ by {
                lemma_lt_total(es[k].0, name@);
                if k > p {
                    lemma_lt_trans(name@, es[p as int].0, es[k].0);
                }
            }
        }
        self.entries.insert(p, ManifestEntry { name, hash });
        assert(self@ =~= es.insert(p as int, (name@, hash@)));
        assert(strictly_ordered(self@)) by {
            let s = self@;
            assert forall|i: int, j: int| 0 <= i < j < s.len() implies name_lt(#[trigger] s[i].0, #[trigger] s[j].0) by {
                if j == p {
                    assert(name_lt(es[i].0, name@));
                } else if i == p {
                    if p < es.len() {
                        lemma_lt_total(es[p as int].0, name@);
                        if j - 1 > p {
                            lemma_lt_trans(name@, es[p as int].0, es[j - 1].0);
                        }
                    }
                } else if i > p {
                    assert(name_lt(es[i - 1].0, es[j - 1].0));
                } else if j > p {
                    assert(name_lt(es[i].0, es[j - 1].0));
                } else {
                    assert(name_lt(es[i].0, es[j].0));
                }
            }
        }
        true
    }
}

proof fn lemma_le32(n: nat)
    requires
        n < 0x1_0000_0000,
    ensures
        le32(n).len() == 4,
        le32_value(le32(n)) == n,
{
    let q1 = n / 256;
    let q2 = q1 / 256;
    let q3 = q2 / 256;
    lemma_fundamental_div_mod(n as int, 256);
    lemma_fundamental_div_mod(q1 as int, 256);
    lemma_fundamental_div_mod(q2 as int, 256);
    assert(q3 < 256);
}

proof fn lemma_bytes_front(e: (Seq<char>, Seq<u8>), rest: Seq<(Seq<char>, Seq<u8>)>)
    ensures
        manifest_bytes(seq![e] + rest) == entry_bytes(e) + manifest_bytes(rest),
    decreases rest.len(),
{
    if rest.len() == 0 {
        assert(seq![e] + rest =~= seq![e]);
        assert(seq![e].drop_last() =~= Seq::<(Seq<char>, Seq<u8>)>::empty());
        assert(entry_bytes(e) + Seq::<u8>::empty() =~= entry_bytes(e));
        assert(Seq::<u8>::empty() + entry_bytes(e) =~= entry_bytes(e));
        assert(manifest_bytes(rest) == Seq::<u8>::empty());
        assert(manifest_bytes(seq![e]) == manifest_bytes(seq![e].drop_last()) + entry_bytes(e));
        assert(manifest_bytes(seq![e].drop_last()) == Seq::<u8>::empty());
    } else {
        lemma_bytes_front(e, rest.drop_last());
        assert((seq![e] + rest).drop_last() =~= seq![e] + rest.drop_last());
        assert((seq![e] + rest).last() == rest.last());
        assert(manifest_bytes(seq![e] + rest) == manifest_bytes((seq![e] + rest).drop_last())
            + entry_bytes((seq![e] + rest).last()));
        assert(entry_bytes(e) + manifest_bytes(rest.drop_last()) + entry_bytes(rest.last())
            =~= entry_bytes(e) + (manifest_bytes(rest.drop_last()) + entry_bytes(rest.last())));
    }
}

pub open spec fn entries_encodable(es: Seq<(Seq<char>, Seq<u8>)>) -> bool {
    forall|i: int|
        0 <= i < es.len() ==> (#[trigger] es[i]).1.len() == 32 && encode_utf8(es[i].0).len()
            < 0x1_0000_0000
}

proof fn lemma_parse_entries(es: Seq<(Seq<char>, Seq<u8>)>)
    requires
        entries_encodable(es),
    ensures
        parse_entries(manifest_bytes(es)) == Some(es),
    decreases es.len(),
{
    if es.len() == 0 {
    } else {
        let e = es[0];
        let rest = es.drop_first();
        assert(seq![e] + rest =~= es);
        lemma_bytes_front(e, rest);
        assert(entries_encodable(rest)) by {
            assert forall|i: int| 0 <= i < rest.len() implies (#[trigger] rest[i]).1.len() == 32
                && encode_utf8(rest[i].0).len() < 0x1_0000_0000 by {
                assert(rest[i] == es[i + 1]);
            }
        }
        lemma_parse_entries(rest);
        let u = encode_utf8(e.0);
        let n = u.len();
        assert(es[0] == e);
        lemma_le32(n);
        let b = manifest_bytes(es);
        assert(b == le32(n) + u + e.1 + manifest_bytes(rest));
        assert(b.take(4) =~= le32(n));
        assert(le32_value(b) == le32_value(le32(n))) by {
            assert(b[0] == le32(n)[0] && b[1] == le32(n)[1] && b[2] == le32(n)[2] && b[3] == le32(n)[3]);
        }
        assert(b.subrange(4, 4 + n as int) =~= u);
        assert(b.subrange(4 + n as int, 4 + n as int + 32) =~= e.1);
        assert(b.skip(4 + n as int + 32) =~= manifest_bytes(rest));
        encode_utf8_valid_utf8(e.0);
        encode_utf8_decode_utf8(e.0);
        assert(seq![(decode_utf8(u), e.1)] + rest =~= es);
    }
}

/// A manifest read back from its bytes is the manifest that was written,
/// where each identifier has 32 bytes and each name's UTF-8 length fits in
/// four bytes.
pub proof fn lemma_manifest_round_trip(es: Seq<(Seq<char>, Seq<u8>)>)
    requires
        strictly_ordered(es),
        entries_encodable(es),
    ensures
        parse_manifest(manifest_bytes(es)) == Some(es),
{
    lemma_parse_entries(es);
}

} // verus!
