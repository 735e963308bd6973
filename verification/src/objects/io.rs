use vstd::prelude::*;

use crate::errors::GitError;
use crate::text::{hex_chars, hex_decode, is_hex_char, hex_char_val, lemma_hex_chars_invert};

verus! {

// The digest type and the object store: objects are hashed with SHA-1,
// compressed with zlib, and filed under their digest.

/// The SHA-1 digest of a byte sequence (20 bytes). Left uninterpreted: the
/// library relies on the sha1 crate to compute it and never restates the
/// algorithm.
pub uninterp spec fn sha1_of(bytes: Seq<u8>) -> Seq<u8>;

/// The zlib compression of a byte sequence at the default level. Left
/// uninterpreted: for fixed library code it is a pure function of the input,
/// and the only fact used about it is the round trip through decompression.
pub uninterp spec fn zlib_of(bytes: Seq<u8>) -> Seq<u8>;

/// Relies on sha1::Sha1 through the Digest trait (new/update/finalize):
/// the SHA-1 digest is a function of the input bytes alone and is always
/// 20 bytes long.
#[verifier::external_body]
fn sha1_digest(data: &[u8]) -> (r: Vec<u8>)
    ensures
        r@ == sha1_of(data@),
        r@.len() == 20,
{
    let mut hasher = <sha1::Sha1 as sha1::Digest>::new();
    sha1::Digest::update(&mut hasher, data);
    let out = sha1::Digest::finalize(hasher);
    out.to_vec()
}

/// Relies on flate2::write::ZlibEncoder at the default compression level:
/// the output is a function of the input bytes alone. Writing into a
/// Vec-backed encoder cannot fail, so the unwraps never fire.
#[verifier::external_body]
fn zlib_compress(data: &[u8]) -> (r: Vec<u8>)
    ensures
        r@ == zlib_of(data@),
{
    let mut encoder =
        flate2::write::ZlibEncoder::new(Vec::new(), flate2::Compression::default());
    std::io::Write::write_all(&mut encoder, data).unwrap();
    encoder.finish().unwrap()
}

/// Relies on flate2::write::ZlibDecoder: decompressing exactly what the
/// zlib compressor produced yields the original bytes back.
#[verifier::external_body]
fn zlib_decompress(data: &[u8]) -> (r: Option<Vec<u8>>)
    ensures
        r is Some <== exists|b: Seq<u8>| data@ == zlib_of(b),
        r matches Some(out) ==> forall|b: Seq<u8>| data@ == zlib_of(b) ==> out@ == b,
{
    let mut decoder = flate2::write::ZlibDecoder::new(Vec::new());
    if std::io::Write::write_all(&mut decoder, data).is_err() {
        return None;
    }
    match decoder.finish() {
        Ok(v) => Some(v),
        Err(_) => None,
    }
}

/// Relies on hex::encode: two lowercase hex digits per input byte, in order.
#[verifier::external_body]
fn hex_encode(data: &[u8]) -> (r: String)
    ensures
        r@ == hex_chars(data@),
{
    hex::encode(data)
}

/// A digest identifying one stored object: 20 raw bytes, rendered as 40
/// lowercase hex characters.
#[derive(Debug)]
pub struct Hash {
    bytes: Vec<u8>,
}

impl View for Hash {
    type V = Seq<u8>;

    closed spec fn view(&self) -> Seq<u8> {
        self.bytes@
    }
}

impl Hash {
    /// A digest always holds exactly 20 bytes.
    pub open spec fn wf(&self) -> bool {
        self@.len() == 20
    }

    pub(crate) fn from_bytes(bytes: Vec<u8>) -> (h: Hash)
        requires
            bytes@.len() == 20,
        ensures
            h@ == bytes@,
            h.wf(),
    {
        Hash { bytes }
    }

    /// The raw digest bytes.
    pub fn as_bytes(&self) -> (r: &Vec<u8>)
        ensures
            r@ == self@,
    {
        &self.bytes
    }

    /// The canonical 40-character lowercase hex form.
    pub fn to_hex(&self) -> (r: String)
        ensures
            r@ == hex_chars(self@),
    {
        hex_encode(self.bytes.as_slice())
    }

    /// Parses a 40-character hex string; anything else is `MalformedDigest`.
    pub fn from_hex(s: &str) -> (r: Result<Hash, GitError>)
        ensures
            match r {
                Ok(h) => {
                    &&& valid_digest_text(s@)
                    &&& h.wf()
                    &&& h@ == hex_decode(s@)
                },
                Err(e) => {
                    &&& e == GitError::MalformedDigest
                    &&& !valid_digest_text(s@)
                },
            },
    {
        let n = s.unicode_len();
        if n != 40 {
            return Err(GitError::MalformedDigest);
        }
        let mut bytes: Vec<u8> = Vec::new();
        let mut i: usize = 0;
        while i < 40
            invariant
                i % 2 == 0,
                i <= 40,
                s@.len() == 40,
                bytes@.len() == i / 2,
                forall|j: int| 0 <= j < i ==> is_hex_char(#[trigger] s@[j]),
                forall|j: int| 0 <= j < i / 2 ==> bytes@[j] == hex_decode(s@)[j],
            decreases 40 - i,
        {
            let c1 = s.get_char(i);
            let c2 = s.get_char(i + 1);
            let v1 = match hex_char_value(c1) {
                Some(v) => v,
                None => {
                    return Err(GitError::MalformedDigest);
                },
            };
            let v2 = match hex_char_value(c2) {
                Some(v) => v,
                None => {
                    return Err(GitError::MalformedDigest);
                },
            };
            bytes.push(16 * v1 + v2);
            proof {
                assert(hex_decode(s@)[i as int / 2]
                    == (16 * hex_char_val(s@[i as int]) + hex_char_val(s@[i as int + 1])) as u8);
            }
            i = i + 2;
        }
        Ok(Hash::from_bytes(bytes))
    }
}

impl Clone for Hash {
    /// Cloning a digest keeps its bytes.
    fn clone(&self) -> (r: Self)
        ensures
            r@ == self@,
    {
        let mut bytes: Vec<u8> = Vec::new();
        let mut i: usize = 0;
        while i < self.bytes.len()
            invariant
                i <= self.bytes@.len(),
                bytes@ == self.bytes@.take(i as int),
            decreases self.bytes@.len() - i,
        {
            bytes.push(self.bytes[i]);
            assert(bytes@ =~= self.bytes@.take(i + 1));
            i = i + 1;
        }
        assert(bytes@ =~= self.bytes@);
        Hash { bytes }
    }
}

/// Whether a string is a well-formed digest text: exactly 40 hex characters.
pub open spec fn valid_digest_text(s: Seq<char>) -> bool {
    s.len() == 40 && forall|i: int| 0 <= i < 40 ==> is_hex_char(#[trigger] s[i])
}

/// Byte-sequence equality, used to look digests up in the store.
fn bytes_eq(a: &Vec<u8>, b: &Vec<u8>) -> (r: bool)
    ensures
        r == (a@ == b@),
{
    if a.len() != b.len() {
        return false;
    }
    let mut i: usize = 0;
    while i < a.len()
        invariant
            i <= a@.len(),
            a@.len() == b@.len(),
            forall|k: int| 0 <= k < i ==> a@[k] == b@[k],
        decreases a@.len() - i,
    {
        if a[i] != b[i] {
            return false;
        }
        i = i + 1;
    }
    proof {
        assert(a@ =~= b@);
    }
    true
}

/// One persisted object: its digest and its compressed bytes.
pub struct StoredObject {
    hash: Hash,
    data: Vec<u8>,
}

/// The object store. It is addressed purely by content: an object's key is
/// the SHA-1 digest of its full serialized bytes, and what is kept on the
/// storage medium is the zlib compression of those bytes.
///
/// The view of a store is the map from digest bytes to the (uncompressed)
/// serialized bytes stored under them.
pub struct ObjectStore {
    objects: Vec<StoredObject>,
    contents: Ghost<Map<Seq<u8>, Seq<u8>>>,
}

impl View for ObjectStore {
    type V = Map<Seq<u8>, Seq<u8>>;

    closed spec fn view(&self) -> Map<Seq<u8>, Seq<u8>> {
        self.contents@
    }
}

impl ObjectStore {
    /// The store invariant: every entry's key is the digest of its content,
    /// its data is the compression of that content, and entries and the
    /// content map list exactly the same digests, each once.
    pub closed spec fn wf(&self) -> bool {
        &&& forall|i: int| 0 <= i < self.objects@.len() ==> {
            let o = #[trigger] self.objects@[i];
            &&& o.hash.wf()
            &&& self.contents@.contains_key(o.hash@)
            &&& o.data@ == zlib_of(self.contents@[o.hash@])
        }
        &&& forall|k: Seq<u8>| #[trigger] self.contents@.contains_key(k) ==> {
            &&& sha1_of(self.contents@[k]) == k
            &&& exists|i: int|
                0 <= i < self.objects@.len() && (#[trigger] self.objects@[i]).hash@ == k
        }
        &&& forall|i: int, j: int|
            0 <= i < j < self.objects@.len()
                ==> (#[trigger] self.objects@[i]).hash@ != (#[trigger] self.objects@[j]).hash@
    }

    /// An empty store.
    pub fn new() -> (s: ObjectStore)
        ensures
            s.wf(),
            s@ == Map::<Seq<u8>, Seq<u8>>::empty(),
    {
        ObjectStore { objects: Vec::new(), contents: Ghost(Map::empty()) }
    }

    fn find(&self, h: &Hash) -> (r: Option<usize>)
        ensures
            match r {
                Some(i) => i < self.objects@.len() && self.objects@[i as int].hash@ == h@,
                None => forall|j: int|
                    0 <= j < self.objects@.len()
                        ==> (#[trigger] self.objects@[j]).hash@ != h@,
            },
    {
        let mut i: usize = 0;
        while i < self.objects.len()
            invariant
                i <= self.objects@.len(),
                forall|j: int| 0 <= j < i ==> (#[trigger] self.objects@[j]).hash@ != h@,
            decreases self.objects@.len() - i,
        {
            if bytes_eq(self.objects[i].hash.as_bytes(), h.as_bytes()) {
                return Some(i);
            }
            i = i + 1;
        }
        None
    }

    /// Whether an object is stored under `h`.
    pub fn contains(&self, h: &Hash) -> (r: bool)
        requires
            self.wf(),
        ensures
            r == self@.contains_key(h@),
    {
        match self.find(h) {
            Some(_) => true,
            None => false,
        }
    }

    /// Files content `b` (carried in ghost form) under its digest `h`,
    /// keeping `compressed` as the persisted bytes. An object already stored
    /// under the same digest is overwritten; the store's map gains (or keeps)
    /// the binding of the digest to `b` either way.
    pub(crate) fn put(&mut self, h: Hash, compressed: Vec<u8>, content: Ghost<Seq<u8>>)
        requires
            old(self).wf(),
            h.wf(),
            h@ == sha1_of(content@),
            compressed@ == zlib_of(content@),
        ensures
            final(self).wf(),
            final(self)@ == old(self)@.insert(h@, content@),
    {
        let ghost key = h@;
        match self.find(&h) {
            Some(i) => {
                self.objects[i] = StoredObject { hash: h, data: compressed };
                proof {
                    self.contents@ = self.contents@.insert(key, content@);
                }
                proof {
                    assert forall|k: Seq<u8>| #[trigger] self.contents@.contains_key(k) implies {
                        &&& sha1_of(self.contents@[k]) == k
                        &&& exists|j: int|
                            0 <= j < self.objects@.len()
                                && (#[trigger] self.objects@[j]).hash@ == k
                    } by {
                        if k == key {
                            assert(self.objects@[i as int].hash@ == k);
                        } else {
                            assert(old(self).contents@.contains_key(k));
                            let j = choose|j: int|
                                0 <= j < old(self).objects@.len()
                                    && (#[trigger] old(self).objects@[j]).hash@ == k;
                            assert(self.objects@[j].hash@ == k);
                        }
                    }
                }
            },
            None => {
                self.objects.push(StoredObject { hash: h, data: compressed });
                proof {
                    self.contents@ = self.contents@.insert(key, content@);
                }
                proof {
                    let n = self.objects@.len();
                    assert(self.objects@[n - 1].hash@ == key);
                    assert(!old(self)@.contains_key(key));
                    assert forall|k: Seq<u8>| #[trigger] self.contents@.contains_key(k) implies {
                        &&& sha1_of(self.contents@[k]) == k
                        &&& exists|j: int|
                            0 <= j < self.objects@.len()
                                && (#[trigger] self.objects@[j]).hash@ == k
                    } by {
                        if k == key {
                            assert(self.objects@[n - 1].hash@ == k);
                        } else {
                            assert(old(self).contents@.contains_key(k));
                            let j = choose|j: int|
                                0 <= j < old(self).objects@.len()
                                    && (#[trigger] old(self).objects@[j]).hash@ == k;
                            assert(self.objects@[j].hash@ == k);
                        }
                    }
                }
            },
        }
    }

    /// Reads the serialized bytes stored under `h`, decompressing them.
    /// Fails with `ObjectNotFound` exactly when no object has that digest;
    /// a stored object always decompresses back to its original bytes.
    pub fn read(&self, h: &Hash) -> (r: Result<Vec<u8>, GitError>)
        requires
            self.wf(),
        ensures
            r is Ok <==> self@.contains_key(h@),
            match r {
                Ok(bytes) => bytes@ == self@[h@],
                Err(e) => e == GitError::ObjectNotFound,
            },
    {
        match self.find(h) {
            Some(i) => {
                proof {
                    assert(self.objects@[i as int].data@ == zlib_of(self@[h@]));
                }
                match zlib_decompress(self.objects[i].data.as_slice()) {
                    Some(bytes) => Ok(bytes),
                    None => {
                        // Unreachable: the invariant says the data is the
                        // compression of the stored content.
                        proof {
                            assert(false);
                        }
                        Err(GitError::ObjectNotFound)
                    },
                }
            },
            None => {
                proof {
                    if self@.contains_key(h@) {
                        let j = choose|j: int|
                            0 <= j < self.objects@.len()
                                && (#[trigger] self.objects@[j]).hash@ == h@;
                        assert(self.objects@[j].hash@ == h@);
                    }
                }
                Err(GitError::ObjectNotFound)
            },
        }
    }

    /// How many objects the store holds.
    pub closed spec fn spec_object_count(&self) -> nat {
        self.objects@.len()
    }

    pub fn object_count(&self) -> (n: usize)
        ensures
            n == self.spec_object_count(),
    {
        self.objects.len()
    }

    /// The digest and compressed bytes of the stored object at index `i`,
    /// for persisting the store onto a medium.
    pub fn object_at(&self, i: usize) -> (r: (&Hash, &Vec<u8>))
        requires
            self.wf(),
            i < self.spec_object_count(),
        ensures
            r.0.wf(),
            self@.contains_key(r.0@),
            r.1@ == zlib_of(self@[r.0@]),
    {
        (&self.objects[i].hash, &self.objects[i].data)
    }
}

/// The scoped writer of one object: it accumulates the serialized bytes and,
/// on `finalize`, hashes them, compresses them, and files them in the store.
pub struct ObjectWriter {
    buf: Vec<u8>,
}

impl View for ObjectWriter {
    type V = Seq<u8>;

    closed spec fn view(&self) -> Seq<u8> {
        self.buf@
    }
}

impl ObjectWriter {
    /// Opens a writer with no bytes fed yet.
    pub fn new() -> (w: ObjectWriter)
        ensures
            w@ == Seq::<u8>::empty(),
    {
        ObjectWriter { buf: Vec::new() }
    }

    /// Appends a chunk; chunking has no effect on the final object.
    pub fn write(&mut self, chunk: &[u8])
        ensures
            final(self)@ == old(self)@ + chunk@,
    {
        let mut i: usize = 0;
        while i < chunk.len()
            invariant
                i <= chunk@.len(),
                self.buf@ == old(self).buf@ + chunk@.take(i as int),
            decreases chunk@.len() - i,
        {
            let b = chunk[i];
            self.buf.push(b);
            assert(self.buf@ =~= old(self).buf@ + chunk@.take(i + 1));
            i = i + 1;
        }
        assert(self@ =~= old(self)@ + chunk@);
    }

    /// Closes the writer: computes the digest of everything written, files
    /// the compressed bytes under it in `store`, and returns the digest.
    pub fn finalize(self, store: &mut ObjectStore) -> (h: Hash)
        requires
            old(store).wf(),
        ensures
            h.wf(),
            h@ == sha1_of(self@),
            final(store).wf(),
            final(store)@ == old(store)@.insert(sha1_of(self@), self@),
    {
        let digest = sha1_digest(self.buf.as_slice());
        let compressed = zlib_compress(self.buf.as_slice());
        let h = Hash::from_bytes(digest);
        let h2 = h.clone();
        store.put(h2, compressed, Ghost(self.buf@));
        h
    }
}

/// Decompresses the raw bytes of one stored object file. Anything the zlib
/// compressor produced decompresses back to the original; other inputs may
/// fail with `CorruptObject`.
pub fn decode_object(data: &[u8]) -> (r: Result<Vec<u8>, GitError>)
    ensures
        r is Ok <== exists|b: Seq<u8>| data@ == zlib_of(b),
        r matches Ok(out) ==> forall|b: Seq<u8>| data@ == zlib_of(b) ==> out@ == b,
        r matches Err(e) ==> e == GitError::CorruptObject,
{
    match zlib_decompress(data) {
        Some(bytes) => Ok(bytes),
        None => Err(GitError::CorruptObject),
    }
}

/// Looks an object up by the text form of its digest, as a caller-facing
/// read path: malformed text is rejected before the store is consulted.
pub fn read_object(store: &ObjectStore, str_hash: &str) -> (r: Result<Vec<u8>, GitError>)
    requires
        store.wf(),
    ensures
        r is Ok <==> valid_digest_text(str_hash@)
            && store@.contains_key(hex_decode(str_hash@)),
        match r {
            Ok(bytes) => bytes@ == store@[hex_decode(str_hash@)],
            Err(e) => {
                &&& (e == GitError::MalformedDigest <==> !valid_digest_text(str_hash@))
                &&& (e == GitError::ObjectNotFound
                    ==> !store@.contains_key(hex_decode(str_hash@)))
            },
        },
{
    let h = match Hash::from_hex(str_hash) {
        Ok(h) => h,
        Err(e) => {
            return Err(e);
        },
    };
    store.read(&h)
}

/// Splits a digest's hex text into the shard directory name (first two
/// characters) and the object file name (remaining 38).
pub fn object_path_parts(h: &Hash) -> (r: (String, String))
    requires
        h.wf(),
    ensures
        r.0@ == hex_chars(h@).take(2),
        r.1@ == hex_chars(h@).skip(2),
{
    let s = h.to_hex();
    proof {
        lemma_hex_chars_invert(h@);
        assert(vstd::string::string_is_ascii(&s));
    }
    let shard = s.as_str().substring_ascii(0, 2);
    let name = s.as_str().substring_ascii(2, 40);
    let r = (String::from_str(shard), String::from_str(name));
    proof {
        assert(r.0@ =~= hex_chars(h@).take(2));
        assert(r.1@ =~= hex_chars(h@).skip(2));
    }
    r
}

/// Content addressing: after bytes `b` are filed, the digest of `b` is bound
/// to exactly `b`, so reading that digest back yields `b` (the round trip of
/// `ObjectWriter::finalize` followed by `ObjectStore::read`).
pub proof fn lemma_content_addressing(store: Map<Seq<u8>, Seq<u8>>, b: Seq<u8>)
    ensures
        store.insert(sha1_of(b), b).contains_key(sha1_of(b)),
        store.insert(sha1_of(b), b)[sha1_of(b)] == b,
{
}

/// Determinism: the digest is a function of the bytes alone, so writing the
/// same bytes twice yields the same digest both times and leaves the store
/// exactly as after the first write.
pub proof fn lemma_write_idempotent(store: Map<Seq<u8>, Seq<u8>>, b: Seq<u8>)
    ensures
        store.insert(sha1_of(b), b).insert(sha1_of(b), b) == store.insert(sha1_of(b), b),
{
    assert(store.insert(sha1_of(b), b).insert(sha1_of(b), b)
        =~= store.insert(sha1_of(b), b));
}

/// The numeric value of one hex digit character, or `None`.
fn hex_char_value(c: char) -> (r: Option<u8>)
    ensures
        match r {
            Some(v) => is_hex_char(c) && v as nat == hex_char_val(c) && v < 16,
            None => !is_hex_char(c),
        },
{
    let u = c as u32;
    if 48 <= u && u <= 57 {
        Some((u - 48) as u8)
    } else if 97 <= u && u <= 102 {
        Some((u - 87) as u8)
    } else if 65 <= u && u <= 70 {
        Some((u - 55) as u8)
    } else {
        None
    }
}

} // verus!
