//! Chunked file contents: how a file is cut, where each chunk is stored, and how what is
//! read back is checked against its manifest.
use vstd::prelude::*;

use crate::text::{chars_of, join_strs, decimal, decimal_string, parse_u64_chars, parse_u64_spec};

verus! {

/// Where one chunk of a file's contents is stored, and what it must hash to.
#[derive(Debug, Clone, PartialEq, Eq)]
pub struct ChunkRef {
    pub bin: String,
    pub key: String,
    pub hash: String,
    pub len: usize,
}

/// The mathematical value of a [`ChunkRef`].
pub struct ChunkRefView {
    pub bin: Seq<char>,
    pub key: Seq<char>,
    pub hash: Seq<char>,
    pub len: nat,
}

impl View for ChunkRef {
    type V = ChunkRefView;

    open spec fn view(&self) -> ChunkRefView {
        ChunkRefView { bin: self.bin@, key: self.key@, hash: self.hash@, len: self.len as nat }
    }
}

impl ChunkRef {
    /// A field-by-field copy.
    pub fn copy(&self) -> (r: ChunkRef)
        ensures
            r@ == self@,
    {
        ChunkRef {
            bin: self.bin.clone(),
            key: self.key.clone(),
            hash: self.hash.clone(),
            len: self.len,
        }
    }
}

/// The description of a file's committed contents: its chunks, in order, and the hash of
/// the whole.
#[derive(Debug, Clone, PartialEq, Eq)]
pub struct FileManifest {
    pub size: u64,
    pub chunk_size: usize,
    pub chunks: Vec<ChunkRef>,
    pub content_hash: String,
    pub modified_ms: u64,
}

/// The mathematical value of a [`FileManifest`].
pub struct ManifestView {
    pub size: u64,
    pub chunk_size: nat,
    pub chunks: Seq<ChunkRefView>,
    pub content_hash: Seq<char>,
    pub modified_ms: u64,
}

pub open spec fn chunk_views(chunks: Seq<ChunkRef>) -> Seq<ChunkRefView> {
    chunks.map_values(|c: ChunkRef| c@)
}

impl View for FileManifest {
    type V = ManifestView;

    open spec fn view(&self) -> ManifestView {
        ManifestView {
            size: self.size,
            chunk_size: self.chunk_size as nat,
            chunks: chunk_views(self.chunks@),
            content_hash: self.content_hash@,
            modified_ms: self.modified_ms,
        }
    }
}

/// A copy of a list of chunk references.
pub fn copy_chunks(chunks: &Vec<ChunkRef>) -> (r: Vec<ChunkRef>)
    ensures
        chunk_views(r@) == chunk_views(chunks@),
{
    let mut r: Vec<ChunkRef> = Vec::new();
    for i in 0..chunks.len()
        invariant
            r@.len() == i,
            forall|j: int| 0 <= j < i ==> #[trigger] r@[j]@ == chunks@[j]@,
    {
        r.push(chunks[i].copy());
    }
    assert(chunk_views(r@) =~= chunk_views(chunks@));
    r
}

impl FileManifest {
    /// A field-by-field copy.
    pub fn copy(&self) -> (r: FileManifest)
        ensures
            r@ == self@,
    {
        FileManifest {
            size: self.size,
            chunk_size: self.chunk_size,
            chunks: copy_chunks(&self.chunks),
            content_hash: self.content_hash.clone(),
            modified_ms: self.modified_ms,
        }
    }
}

} // verus!

verus! {

// ---------------------------------------------------------------------------
// The hash and encoding that chunks go through, from `blake3` and `base64`.
// ---------------------------------------------------------------------------

/// The lowercase hex text of the BLAKE3 hash of `data`.
pub uninterp spec fn blake3_hex(data: Seq<u8>) -> Seq<char>;

pub open spec fn is_lower_hex(c: char) -> bool {
    ('0' <= c && c <= '9') || ('a' <= c && c <= 'f')
}

/// `blake3::hash(data)`, written out with `Hash::to_hex`. The result is named by
/// `blake3_hex`; per `to_hex`, it is the 32-byte hash as 64 lowercase hex digits.
#[verifier::external_body]
fn blake3_hex_of(data: &[u8]) -> (r: String)
    ensures
        r@ == blake3_hex(data@),
        r@.len() == 64,
        forall|i: int| 0 <= i < 64 ==> is_lower_hex(#[trigger] r@[i]),
{
    blake3::hash(data).to_hex().to_string()
}

/// The standard base64 text (with padding) of `data`.
pub uninterp spec fn base64_encoded(data: Seq<u8>) -> Seq<char>;

/// The bytes that the standard base64 engine decodes `text` to, or `None` where it
/// refuses the text.
pub uninterp spec fn base64_decoded(text: Seq<char>) -> Option<Seq<u8>>;

/// `base64::engine::general_purpose::STANDARD.encode(data)`. The result is named by
/// `base64_encoded`; the claim beyond the name is that the same engine decodes it back to
/// `data`, which is what the engine is for.
#[verifier::external_body]
fn base64_encode(data: &[u8]) -> (r: String)
    ensures
        r@ == base64_encoded(data@),
        base64_decoded(r@) == Some(data@),
{
    base64::Engine::encode(&base64::engine::general_purpose::STANDARD, data)
}

#[verifier::external_type_specification]
#[verifier::external_body]
pub struct ExDecodeError(base64::DecodeError);

/// `base64::engine::general_purpose::STANDARD.decode(text)`: `Ok` exactly where
/// `base64_decoded` names bytes, and then those bytes.
#[verifier::external_body]
fn base64_decode(text: &str) -> (r: Result<Vec<u8>, base64::DecodeError>)
    ensures
        match r {
            Ok(v) => base64_decoded(text@) == Some(v@),
            Err(_) => base64_decoded(text@) is None,
        },
{
    base64::Engine::decode(&base64::engine::general_purpose::STANDARD, text)
}

impl FileManifest {
    /// The manifest of an empty file.
    pub fn empty(chunk_size: usize, modified_ms: u64) -> (r: FileManifest)
        ensures
            r@ == (ManifestView {
                size: 0,
                chunk_size: chunk_size as nat,
                chunks: Seq::empty(),
                content_hash: blake3_hex(Seq::empty()),
                modified_ms,
            }),
    {
        let empty: [u8; 0] = [];
        let hash = blake3_hex_of(&empty);
        assert(empty@ =~= Seq::<u8>::empty());
        let r = FileManifest { size: 0, chunk_size, chunks: Vec::new(), content_hash: hash, modified_ms };
        assert(chunk_views(r.chunks@) =~= Seq::empty());
        r
    }
}

} // verus!

verus! {

/// The pieces that `data.chunks(chunk_size)` yields: consecutive runs of `chunk_size`
/// bytes, the last one possibly shorter.
pub open spec fn chunks_of(data: Seq<u8>, chunk_size: nat) -> Seq<Seq<u8>>
    decreases data.len(),
{
    if data.len() == 0 || chunk_size == 0 {
        Seq::empty()
    } else if data.len() <= chunk_size {
        seq![data]
    } else {
        seq![data.take(chunk_size as int)] + chunks_of(data.skip(chunk_size as int), chunk_size)
    }
}

/// The data bin that a chunk with hash text `hash` goes to: the value of the hash's first
/// 16 characters (the whole text where it is shorter) read as hex, 0 where that is not a
/// hex number, modulo the number of data bins (at least 1).
pub open spec fn data_bin_index(hash: Seq<char>, data_bins: nat) -> nat {
    let prefix = if hash.len() >= 16 {
        hash.take(16)
    } else {
        hash
    };
    let raw: u64 = match parse_u64_spec(prefix, 16) {
        Some(v) => v,
        None => 0,
    };
    (raw as usize) as nat % (if data_bins == 0 {
        1
    } else {
        data_bins
    })
}

pub open spec fn data_bin_name_spec(hash: Seq<char>, data_bins: nat) -> Seq<char> {
    "__fs_data_"@ + decimal(data_bin_index(hash, data_bins))
}

/// The reference that storing chunk `c` produces.
pub open spec fn chunk_ref_spec(c: Seq<u8>, data_bins: nat) -> ChunkRefView {
    ChunkRefView {
        bin: data_bin_name_spec(blake3_hex(c), data_bins),
        key: "chunk:"@ + blake3_hex(c),
        hash: blake3_hex(c),
        len: c.len(),
    }
}

/// The manifest that storing `data` produces.
pub open spec fn manifest_spec(data: Seq<u8>, chunk_size: nat, data_bins: nat, modified_ms: u64) -> ManifestView {
    ManifestView {
        size: data.len() as u64,
        chunk_size,
        chunks: chunks_of(data, chunk_size).map_values(|c: Seq<u8>| chunk_ref_spec(c, data_bins)),
        content_hash: blake3_hex(data),
        modified_ms,
    }
}

/// One value to store: `value` under `key` in bin `bin`.
#[derive(Debug, Clone)]
pub struct ChunkWrite {
    pub bin: String,
    pub key: String,
    pub value: String,
}

pub struct ChunkWriteView {
    pub bin: Seq<char>,
    pub key: Seq<char>,
    pub value: Seq<char>,
}

impl View for ChunkWrite {
    type V = ChunkWriteView;

    open spec fn view(&self) -> ChunkWriteView {
        ChunkWriteView { bin: self.bin@, key: self.key@, value: self.value@ }
    }
}

pub open spec fn writes_view(v: Seq<ChunkWrite>) -> Seq<ChunkWriteView> {
    v.map_values(|w: ChunkWrite| w@)
}

/// The write that storing chunk `c` makes: its base64 text under its key in its bin.
pub open spec fn chunk_write_spec(c: Seq<u8>, data_bins: nat) -> ChunkWriteView {
    ChunkWriteView {
        bin: data_bin_name_spec(blake3_hex(c), data_bins),
        key: "chunk:"@ + blake3_hex(c),
        value: base64_encoded(c),
    }
}

/// What storing `data` yields: its manifest, one write per chunk in order, and each write's
/// value decoding back to its chunk.
pub open spec fn is_store_plan(
    data: Seq<u8>,
    chunk_size: nat,
    data_bins: nat,
    modified_ms: u64,
    manifest: ManifestView,
    writes: Seq<ChunkWriteView>,
) -> bool {
    let pieces = chunks_of(data, chunk_size);
    &&& manifest == manifest_spec(data, chunk_size, data_bins, modified_ms)
    &&& writes == pieces.map_values(|c: Seq<u8>| chunk_write_spec(c, data_bins))
    &&& forall|i: int| 0 <= i < writes.len() ==> base64_decoded(#[trigger] writes[i].value) == Some(pieces[i])
}

/// Why a stored file could not be loaded.
#[derive(Debug, Clone)]
pub enum ChunkError {
    /// No value is stored under the chunk's key.
    Missing(String),
    /// The stored value is not base64.
    Undecodable(String),
    /// The stored bytes do not have the chunk's length or hash.
    Corrupt(String),
    /// The chunks together do not have the file's size or hash.
    Mismatch,
}

/// The bytes of chunk `r` given what is stored under its key, where they check.
pub open spec fn check_chunk_spec(r: ChunkRefView, stored: Option<Seq<char>>) -> Option<Seq<u8>> {
    match stored {
        None => None,
        Some(text) => match base64_decoded(text) {
            None => None,
            Some(b) => if b.len() == r.len && blake3_hex(b) == r.hash {
                Some(b)
            } else {
                None
            },
        },
    }
}

/// The file that `m` describes, given what is stored under each chunk's key, where every
/// chunk and the whole check.
pub open spec fn load_spec(m: ManifestView, stored: Seq<Option<Seq<char>>>) -> Option<Seq<u8>> {
    if stored.len() == m.chunks.len() && forall|i: int|
        0 <= i < stored.len() ==> (#[trigger] check_chunk_spec(m.chunks[i], stored[i])) is Some {
        let data = Seq::new(stored.len(), |i: int| check_chunk_spec(m.chunks[i], stored[i])->0).flatten();
        if data.len() == m.size && blake3_hex(data) == m.content_hash {
            Some(data)
        } else {
            None
        }
    } else {
        None
    }
}

pub open spec fn stored_view(v: Seq<Option<String>>) -> Seq<Option<Seq<char>>> {
    v.map_values(|o: Option<String>| match o {
        Some(s) => Some(s@),
        None => None,
    })
}

/// Cuts files into chunks that are spread over data bins by hash, and checks what comes
/// back.
pub struct ChunkStore {
    chunk_size: usize,
    data_bins: usize,
}

impl ChunkStore {
    pub closed spec fn spec_chunk_size(&self) -> nat {
        self.chunk_size as nat
    }

    pub closed spec fn spec_data_bins(&self) -> nat {
        self.data_bins as nat
    }

    pub fn new(chunk_size: usize, data_bins: usize) -> (r: ChunkStore)
        ensures
            r.spec_chunk_size() == chunk_size,
            r.spec_data_bins() == data_bins,
    {
        ChunkStore { chunk_size, data_bins }
    }

    pub fn chunk_size(&self) -> (r: usize)
        ensures
            r == self.spec_chunk_size(),
    {
        self.chunk_size
    }

    /// The data bin that a chunk with hash text `hash` goes to.
    pub fn data_bin_name(&self, hash: &str) -> (r: String)
        ensures
            r@ == data_bin_name_spec(hash@, self.spec_data_bins()),
    {
        let v = chars_of(hash);
        let n = if v.len() >= 16 {
            16
        } else {
            v.len()
        };
        let raw = match parse_u64_chars(&v, 0, n, 16) {
            Some(value) => value,
            None => 0,
        };
        assert(v@.subrange(0, n as int) =~= if hash@.len() >= 16 {
            hash@.take(16)
        } else {
            hash@
        });
        let bins = if self.data_bins == 0 {
            1
        } else {
            self.data_bins
        };
        let index = (raw as usize) % bins;
        proof {
            reveal_strlit("__fs_data_");
        }
        join_strs("__fs_data_", decimal_string(index as u64).as_str())
    }
}

} // verus!

verus! {

/// The chunks of `data`, put back together, are `data`.
pub proof fn lemma_chunks_flatten(data: Seq<u8>, chunk_size: nat)
    requires
        chunk_size > 0,
    ensures
        chunks_of(data, chunk_size).flatten() == data,
    decreases data.len(),
{
    let pieces = chunks_of(data, chunk_size);
    if data.len() == 0 {
        assert(pieces.flatten() =~= data);
    } else if data.len() <= chunk_size {
        assert(pieces.drop_first() =~= Seq::<Seq<u8>>::empty());
        assert(pieces.drop_first().flatten() =~= Seq::<u8>::empty());
        assert(pieces.flatten() == pieces.first() + pieces.drop_first().flatten());
        assert(pieces.flatten() =~= data);
    } else {
        let rest = chunks_of(data.skip(chunk_size as int), chunk_size);
        lemma_chunks_flatten(data.skip(chunk_size as int), chunk_size);
        assert(pieces.drop_first() =~= rest);
        assert(pieces.flatten() =~= data.take(chunk_size as int) + rest.flatten());
        assert(data =~= data.take(chunk_size as int) + data.skip(chunk_size as int));
    }
}

proof fn lemma_chunks_step(data: Seq<u8>, chunk_size: nat, start: int, end: int)
    requires
        chunk_size > 0,
        0 <= start < end <= data.len(),
        end == if data.len() - start <= chunk_size {
            data.len() as int
        } else {
            start + chunk_size
        },
    ensures
        chunks_of(data.skip(start), chunk_size) == seq![data.subrange(start, end)] + chunks_of(
            data.skip(end),
            chunk_size,
        ),
{
    let rest = data.skip(start);
    if rest.len() <= chunk_size {
        assert(rest =~= data.subrange(start, end));
        assert(data.skip(end).len() == 0);
        assert(chunks_of(data.skip(end), chunk_size) =~= Seq::<Seq<u8>>::empty());
        assert(seq![rest] + Seq::<Seq<u8>>::empty() =~= seq![rest]);
    } else {
        assert(rest.take(chunk_size as int) =~= data.subrange(start, end));
        assert(rest.skip(chunk_size as int) =~= data.skip(end));
    }
}

impl ChunkStore {
    /// What storing `data` takes: the manifest, and the writes to make, one per chunk in
    /// order.
    pub fn plan_store(&self, data: &[u8], modified_ms: u64) -> (r: (FileManifest, Vec<ChunkWrite>))
        requires
            self.spec_chunk_size() > 0,
        ensures
            is_store_plan(
                data@,
                self.spec_chunk_size(),
                self.spec_data_bins(),
                modified_ms,
                r.0@,
                writes_view(r.1@),
            ),
    {
        let cs = self.chunk_size;
        let ghost bins = self.spec_data_bins();
        let ghost pieces = chunks_of(data@, cs as nat);
        let mut refs: Vec<ChunkRef> = Vec::new();
        let mut writes: Vec<ChunkWrite> = Vec::new();
        let mut start: usize = 0;
        assert(data@.skip(0) =~= data@);
        assert(pieces.skip(0) =~= pieces);
        while start < data.len()
            invariant
                cs == self.spec_chunk_size(),
                cs > 0,
                bins == self.spec_data_bins(),
                pieces == chunks_of(data@, cs as nat),
                start <= data@.len(),
                refs@.len() == writes@.len(),
                refs@.len() <= pieces.len(),
                chunks_of(data@.skip(start as int), cs as nat) == pieces.skip(refs@.len() as int),
                forall|j: int| 0 <= j < refs@.len() ==> #[trigger] refs@[j]@ == chunk_ref_spec(pieces[j], bins),
                forall|j: int| 0 <= j < writes@.len() ==> #[trigger] writes@[j]@ == chunk_write_spec(pieces[j], bins),
                forall|j: int| 0 <= j < writes@.len() ==> base64_decoded(#[trigger] writes@[j]@.value) == Some(pieces[j]),
            decreases data@.len() - start,
        {
            let end = if data.len() - start <= cs {
                data.len()
            } else {
                start + cs
            };
            proof {
                lemma_chunks_step(data@, cs as nat, start as int, end as int);
                let i = refs@.len() as int;
                assert(pieces.skip(i).len() > 0);
                assert(pieces.skip(i)[0] == pieces[i]);
                assert(pieces.skip(i).drop_first() =~= pieces.skip(i + 1));
                assert((seq![data@.subrange(start as int, end as int)] + chunks_of(data@.skip(end as int), cs as nat)).drop_first()
                    =~= chunks_of(data@.skip(end as int), cs as nat));
            }
            let chunk = &data[start..end];
            let hash = blake3_hex_of(chunk);
            let bin = self.data_bin_name(hash.as_str());
            proof {
                reveal_strlit("chunk:");
            }
            let key = join_strs("chunk:", hash.as_str());
            let value = base64_encode(chunk);
            let chunk_ref = ChunkRef { bin: bin.clone(), key: key.clone(), hash, len: chunk.len() };
            refs.push(chunk_ref);
            writes.push(ChunkWrite { bin, key, value });
            start = end;
        }
        proof {
            assert(data@.skip(start as int).len() == 0);
            assert(pieces.skip(refs@.len() as int).len() == 0);
        }
        let manifest = FileManifest {
            size: data.len() as u64,
            chunk_size: cs,
            chunks: refs,
            content_hash: blake3_hex_of(data),
            modified_ms,
        };
        assert(chunk_views(manifest.chunks@) =~= pieces.map_values(|c: Seq<u8>| chunk_ref_spec(c, bins)));
        assert(writes_view(writes@) =~= pieces.map_values(|c: Seq<u8>| chunk_write_spec(c, bins)));
        (manifest, writes)
    }

    /// Checks what is stored under chunk `chunk_ref`'s key: present, base64, and of the
    /// chunk's length and hash.
    pub fn check_chunk(chunk_ref: &ChunkRef, stored: &Option<String>) -> (r: Result<Vec<u8>, ChunkError>)
        ensures
            match *stored {
                None => r matches Err(ChunkError::Missing(k)) && k@ == chunk_ref.key@,
                Some(text) => match base64_decoded(text@) {
                    None => r matches Err(ChunkError::Undecodable(k)) && k@ == chunk_ref.key@,
                    Some(b) => if b.len() == chunk_ref.len && blake3_hex(b) == chunk_ref.hash@ {
                        r matches Ok(v) && v@ == b
                    } else {
                        r matches Err(ChunkError::Corrupt(k)) && k@ == chunk_ref.key@
                    },
                },
            },
    {
        match stored {
            None => Err(ChunkError::Missing(chunk_ref.key.clone())),
            Some(text) => match base64_decode(text.as_str()) {
                Err(_) => Err(ChunkError::Undecodable(chunk_ref.key.clone())),
                Ok(bytes) => {
                    if bytes.len() != chunk_ref.len || blake3_hex_of(bytes.as_slice()) != chunk_ref.hash {
                        Err(ChunkError::Corrupt(chunk_ref.key.clone()))
                    } else {
                        Ok(bytes)
                    }
                },
            },
        }
    }

    /// Loads the file that `manifest` describes from what is stored under each chunk's key,
    /// in chunk order. The error is that of the first chunk that fails its check, or
    /// `Mismatch` where the chunks do not make up the file.
    pub fn load_chunks(manifest: &FileManifest, stored: &Vec<Option<String>>) -> (r: Result<Vec<u8>, ChunkError>)
        ensures
            match load_spec(manifest@, stored_view(stored@)) {
                Some(d) => r matches Ok(v) && v@ == d,
                None => r is Err,
            },
            stored@.len() != manifest.chunks@.len() ==> r matches Err(ChunkError::Mismatch),
            stored@.len() == manifest.chunks@.len() ==> match first_bad_chunk(manifest@, stored_view(stored@)) {
                Some(k) => r matches Err(e) && chunk_fails_as(manifest@.chunks[k], stored_view(stored@)[k], e),
                None => r is Err ==> r matches Err(ChunkError::Mismatch),
            },
    {
        let ghost m = manifest@;
        let ghost sv = stored_view(stored@);
        if stored.len() != manifest.chunks.len() {
            return Err(ChunkError::Mismatch);
        }
        let ghost f = |i: int| check_chunk_spec(m.chunks[i], sv[i])->0;
        let mut data: Vec<u8> = Vec::new();
        assert(Seq::new(0, f).flatten() =~= Seq::<u8>::empty());
        for i in 0..stored.len()
            invariant
                m == manifest@,
                sv == stored_view(stored@),
                stored@.len() == manifest.chunks@.len(),
                f == (|i: int| check_chunk_spec(m.chunks[i], sv[i])->0),
                forall|j: int| 0 <= j < i ==> (#[trigger] check_chunk_spec(m.chunks[j], sv[j])) is Some,
                data@ == Seq::new(i as nat, f).flatten(),
        {
            assert(m.chunks[i as int] == manifest.chunks@[i as int]@);
            assert(sv[i as int] == match stored@[i as int] {
                Some(s) => Some(s@),
                None => None::<Seq<char>>,
            });
            match Self::check_chunk(&manifest.chunks[i], &stored[i]) {
                Err(e) => {
                    assert(check_chunk_spec(m.chunks[i as int], sv[i as int]) is None);
                    proof {
                        lemma_first_bad_chunk(m, sv, i as int);
                    }
                    return Err(e);
                },
                Ok(mut bytes) => {
                    let ghost before = data@;
                    proof {
                        assert(Seq::new((i + 1) as nat, f) =~= Seq::new(i as nat, f).push(f(i as int)));
                        Seq::new(i as nat, f).lemma_flatten_push(f(i as int));
                    }
                    data.append(&mut bytes);
                },
            }
        }
        proof {
            if first_bad_chunk(m, sv) is Some {
                reveal(first_bad_chunk);
                let k = choose|k: int|
                    0 <= k < sv.len() && check_chunk_spec(m.chunks[k], sv[k]) is None && forall|j: int|
                        0 <= j < k ==> check_chunk_spec(m.chunks[j], sv[j]) is Some;
                assert(check_chunk_spec(m.chunks[k], sv[k]) is Some);
            }
        }
        if data.len() as u64 != manifest.size || blake3_hex_of(data.as_slice()) != manifest.content_hash {
            return Err(ChunkError::Mismatch);
        }
        Ok(data)
    }
}

/// The first chunk whose stored value fails its check, if any.
#[verifier::opaque]
pub open spec fn first_bad_chunk(m: ManifestView, stored: Seq<Option<Seq<char>>>) -> Option<int> {
    if exists|k: int| 0 <= k < stored.len() && (#[trigger] check_chunk_spec(m.chunks[k], stored[k])) is None {
        Some(
            choose|k: int|
                0 <= k < stored.len() && check_chunk_spec(m.chunks[k], stored[k]) is None && forall|j: int|
                    0 <= j < k ==> check_chunk_spec(m.chunks[j], stored[j]) is Some,
        )
    } else {
        None
    }
}

proof fn lemma_first_bad_chunk(m: ManifestView, stored: Seq<Option<Seq<char>>>, k: int)
    requires
        0 <= k < stored.len(),
        check_chunk_spec(m.chunks[k], stored[k]) is None,
        forall|j: int| 0 <= j < k ==> (#[trigger] check_chunk_spec(m.chunks[j], stored[j])) is Some,
    ensures
        first_bad_chunk(m, stored) == Some(k),
{
    reveal(first_bad_chunk);
    let c = choose|c: int|
        0 <= c < stored.len() && check_chunk_spec(m.chunks[c], stored[c]) is None && forall|j: int|
            0 <= j < c ==> check_chunk_spec(m.chunks[j], stored[j]) is Some;
    assert(0 <= c < stored.len() && check_chunk_spec(m.chunks[c], stored[c]) is None && forall|j: int|
        0 <= j < c ==> check_chunk_spec(m.chunks[j], stored[j]) is Some);
    if c < k {
        assert(check_chunk_spec(m.chunks[c], stored[c]) is Some);
    }
    if c > k {
        assert(check_chunk_spec(m.chunks[k], stored[k]) is Some);
    }
}

/// Whether `e` is the error that checking chunk `r` against `stored` gives.
pub open spec fn chunk_fails_as(r: ChunkRefView, stored: Option<Seq<char>>, e: ChunkError) -> bool {
    match stored {
        None => e matches ChunkError::Missing(k) && k@ == r.key,
        Some(text) => match base64_decoded(text) {
            None => e matches ChunkError::Undecodable(k) && k@ == r.key,
            Some(_) => e matches ChunkError::Corrupt(k) && k@ == r.key,
        },
    }
}

/// A load never returns bytes that the manifest does not vouch for: what it returns has
/// the manifest's size and content hash, and every stored chunk decoded to bytes of that
/// chunk's recorded length and hash.
pub proof fn lemma_load_checks_integrity(m: ManifestView, stored: Seq<Option<Seq<char>>>)
    ensures
        load_spec(m, stored) matches Some(d) ==> {
            &&& d.len() == m.size
            &&& blake3_hex(d) == m.content_hash
            &&& stored.len() == m.chunks.len()
            &&& forall|i: int|
                0 <= i < stored.len() ==> ((#[trigger] check_chunk_spec(m.chunks[i], stored[i])) matches Some(b)
                    && b.len() == m.chunks[i].len && blake3_hex(b) == m.chunks[i].hash)
        },
{
}

pub open spec fn stored_values(writes: Seq<ChunkWriteView>) -> Seq<Option<Seq<char>>> {
    writes.map_values(|w: ChunkWriteView| Some(w.value))
}

/// What a store writes, read back unchanged, loads as the stored data.
pub proof fn lemma_store_then_load(
    data: Seq<u8>,
    chunk_size: nat,
    data_bins: nat,
    modified_ms: u64,
    manifest: ManifestView,
    writes: Seq<ChunkWriteView>,
)
    requires
        chunk_size > 0,
        data.len() <= u64::MAX,
        is_store_plan(data, chunk_size, data_bins, modified_ms, manifest, writes),
    ensures
        load_spec(manifest, stored_values(writes)) == Some(data),
{
    let pieces = chunks_of(data, chunk_size);
    let stored = stored_values(writes);
    assert forall|i: int| 0 <= i < stored.len() implies (#[trigger] check_chunk_spec(manifest.chunks[i], stored[i]))
        == Some(pieces[i]) by {
        assert(base64_decoded(writes[i].value) == Some(pieces[i]));
    }
    let f = |i: int| check_chunk_spec(manifest.chunks[i], stored[i])->0;
    assert(Seq::new(stored.len(), f) =~= pieces);
    lemma_chunks_flatten(data, chunk_size);
}

} // verus!
