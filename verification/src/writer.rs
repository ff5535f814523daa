use crate::bundle::{
    content_id, is_content_id, total_len, BundleInfo, BundleMode, ChunkEntry, StoredBundle,
    MAX_CHUNKS,
};
use crate::bundle_map::BundleId;
use crate::codec::{encode_blob, Compressor};
use crate::config::{Compression, Encryption};
use crate::error::RepositoryError;
use crate::hash;
use crate::hash::HashMethod;
use vstd::prelude::*;

verus! {

/// An open bundle: chunks are appended to it in memory until it is closed.
pub struct BundleWriter {
    mode: BundleMode,
    hash_method: HashMethod,
    compression: Option<Compression>,
    encryption: Option<Encryption>,
    chunks: Vec<ChunkEntry>,
    data: Vec<u8>,
}

impl BundleWriter {
    /// The mode of the bundle.
    pub closed spec fn mode(&self) -> BundleMode {
        self.mode
    }

    /// The hash method that the bundle's chunks are fingerprinted with.
    pub closed spec fn hash_method(&self) -> HashMethod {
        self.hash_method
    }

    /// The compression that the bundle is closed with.
    pub closed spec fn compression(&self) -> Option<Compression> {
        self.compression
    }

    /// The encryption that the bundle is closed with.
    pub closed spec fn encryption(&self) -> Option<Encryption> {
        self.encryption
    }

    /// The chunk list so far.
    pub closed spec fn chunks(&self) -> Seq<ChunkEntry> {
        self.chunks@
    }

    /// The chunks' bytes so far, one after the other.
    pub closed spec fn data(&self) -> Seq<u8> {
        self.data@
    }

    /// The writer invariant: the bytes are as long as the chunk list says, and every chunk's
    /// place fits the index.
    pub closed spec fn wf(&self) -> bool {
        &&& self.data@.len() == total_len(self.chunks@)
        &&& self.chunks@.len() <= MAX_CHUNKS
    }

    /// The bytes of an open bundle are as long as its chunk list says.
    pub proof fn lemma_sized(&self)
        requires
            self.wf(),
        ensures
            self.data().len() == total_len(self.chunks()),
            self.chunks().len() <= MAX_CHUNKS,
    {
    }

    /// An empty writer.
    pub fn new(
        mode: BundleMode,
        hash_method: HashMethod,
        compression: Option<Compression>,
        encryption: Option<Encryption>,
    ) -> (w: BundleWriter)
        ensures
            w.wf(),
            w.mode() == mode,
            w.hash_method() == hash_method,
            w.compression() == compression,
            w.encryption() == encryption,
            w.chunks() == Seq::<ChunkEntry>::empty(),
            w.data() == Seq::<u8>::empty(),
    {
        BundleWriter {
            mode,
            hash_method,
            compression,
            encryption,
            chunks: Vec::new(),
            data: Vec::new(),
        }
    }

    /// Appends a chunk and returns its place in the chunk list.
    pub fn add(&mut self, chunk: &[u8], hash: hash::Hash) -> (idx: usize)
        requires
            old(self).wf(),
            chunk@.len() <= u32::MAX,
            old(self).chunks().len() < MAX_CHUNKS,
        ensures
            final(self).wf(),
            idx == old(self).chunks().len(),
            final(self).chunks() == old(self).chunks().push(
                ChunkEntry { hash, len: chunk@.len() as u32 },
            ),
            final(self).data() == old(self).data() + chunk@,
            final(self).mode() == old(self).mode(),
            final(self).hash_method() == old(self).hash_method(),
            final(self).compression() == old(self).compression(),
            final(self).encryption() == old(self).encryption(),
    {
        let idx = self.chunks.len();
        let mut i: usize = 0;
        while i < chunk.len()
            invariant
                i <= chunk@.len(),
                self.data@ == old(self).data@ + chunk@.subrange(0, i as int),
                self.chunks == old(self).chunks,
                self.mode == old(self).mode,
                self.hash_method == old(self).hash_method,
                self.compression == old(self).compression,
                self.encryption == old(self).encryption,
            decreases chunk@.len() - i,
        {
            self.data.push(chunk[i]);
            assert(self.data@ =~= old(self).data@ + chunk@.subrange(0, i + 1));
            i += 1;
        }
        assert(chunk@.subrange(0, chunk@.len() as int) =~= chunk@);
        self.chunks.push(ChunkEntry { hash, len: chunk.len() as u32 });
        assert(self.chunks@.drop_last() =~= old(self).chunks@);
        idx
    }

    /// The number of bytes appended so far.
    pub fn raw_size(&self) -> (n: usize)
        requires
            self.wf(),
        ensures
            n == self.data().len(),
            n == total_len(self.chunks()),
    {
        self.data.len()
    }

    /// The number of chunks appended so far.
    pub fn chunk_count(&self) -> (n: usize)
        requires
            self.wf(),
        ensures
            n == self.chunks().len(),
            n <= MAX_CHUNKS,
    {
        self.chunks.len()
    }

    /// The chunk at place `idx`, if the writer holds one there.
    pub fn get_chunk(&self, idx: usize) -> (r: Option<Vec<u8>>)
        requires
            self.wf(),
        ensures
            r is Some <==> idx < self.chunks().len(),
            r matches Some(data) ==> data@ == crate::bundle::chunk_bytes(
                self.data(),
                self.chunks(),
                idx as int,
            ),
    {
        if idx >= self.chunks.len() {
            return None;
        }
        proof {
            crate::bundle::lemma_chunk_start_monotonic(
                self.chunks@,
                idx + 1,
                self.chunks@.len() as int,
            );
            crate::bundle::lemma_chunk_start_step(self.chunks@, idx as int);
        }
        crate::bundle::extract_chunk(&self.data, &self.chunks, idx)
    }

    /// Closes the writer: the data blob is encoded, the header filled in, and the content-id
    /// computed over the canonical bytes. Only compression can fail.
    pub fn finish<C: Compressor>(self, codec: &C, now: u64) -> (r: Result<
        StoredBundle,
        RepositoryError,
    >)
        requires
            self.wf(),
        ensures
            self.compression() is None ==> r is Ok,
            r matches Err(e) ==> e == RepositoryError::Compress,
            r matches Ok(b) ==> {
                &&& b.wf()
                &&& b.chunks@ == self.chunks()
                &&& b.info.mode == self.mode()
                &&& b.info.hash_method == self.hash_method()
                &&& b.info.compression == self.compression()
                &&& b.info.encryption == self.encryption()
                &&& b.info.timestamp == now
                &&& is_content_id(b.info.id, b.info, b.chunks@, b.data@)
                &&& self.compression() is None ==> crate::codec::opens_to(
                    b.data@,
                    self.encryption(),
                    self.data(),
                )
            },
    {
        let blob = match encode_blob(codec, &self.data, &self.compression, &self.encryption) {
            Ok(b) => b,
            Err(e) => {
                return Err(e);
            },
        };
        let draft = BundleInfo {
            id: BundleId { hash: hash::Hash { high: 0, low: 0 } },
            mode: self.mode,
            hash_method: self.hash_method,
            compression: self.compression,
            encryption: self.encryption,
            chunk_count: self.chunks.len(),
            encoded_size: blob.len(),
            raw_size: self.data.len(),
            timestamp: now,
        };
        let id = content_id(&draft, &self.chunks, &blob);
        let info = BundleInfo {
            id,
            mode: self.mode,
            hash_method: self.hash_method,
            compression: self.compression,
            encryption: self.encryption,
            chunk_count: self.chunks.len(),
            encoded_size: blob.len(),
            raw_size: self.data.len(),
            timestamp: now,
        };
        assert(crate::bundle::header_bytes(info) == crate::bundle::header_bytes(draft));
        Ok(StoredBundle { info, chunks: self.chunks, data: blob })
    }
}

} // verus!
