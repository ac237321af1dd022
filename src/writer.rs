use vstd::prelude::*;
use crate::error::ObjectError;
use crate::header::{encode_header, header_bytes};
use crate::kind::Kind;
use crate::sha::{Sha1Hasher, sha1_absorbed, sha1_digest};
use crate::zlib::{ZlibSink, deflate_input, deflate_taken, zlib_decoded};

verus! {

/// The logical bytes of an object: its header followed by its body.
pub open spec fn object_bytes(k: Kind, body: Seq<u8>) -> Seq<u8> {
    header_bytes(k, body.len()) + body
}

/// The id of an object: the SHA-1 digest of its logical bytes.
pub open spec fn object_id(k: Kind, body: Seq<u8>) -> Seq<u8> {
    sha1_digest(object_bytes(k, body))
}

/// Computes the id of an object without storing it.
pub fn compute_id(k: Kind, body: &[u8]) -> (r: [u8; 20])
    ensures
        r@ == object_id(k, body@),
{
    let mut hasher = Sha1Hasher::new();
    let header = encode_header(k, body.len() as u64);
    hasher.update(header.as_slice());
    hasher.update(body);
    assert(sha1_absorbed(hasher) =~= object_bytes(k, body@));
    hasher.finalize()
}

/// Writes one object: every byte of its header and body goes, in order, both
/// to a running SHA-1 and to a zlib compressor whose output is taken in
/// pieces. The body must come to exactly the size declared up front.
pub struct ObjectWriter {
    kind: Kind,
    size: u64,
    written: u64,
    hasher: Sha1Hasher,
    sink: ZlibSink,
    body: Ghost<Seq<u8>>,
}

impl View for ObjectWriter {
    type V = Seq<u8>;

    /// The body bytes written so far.
    closed spec fn view(&self) -> Seq<u8> {
        self.body@
    }
}

impl ObjectWriter {
    pub closed spec fn wf(&self) -> bool {
        &&& sha1_absorbed(self.hasher) == header_bytes(self.kind, self.size as nat) + self.body@
        &&& deflate_input(self.sink) == header_bytes(self.kind, self.size as nat) + self.body@
        &&& self.written == self.body@.len()
        &&& self.written <= self.size
    }

    pub closed spec fn kind(&self) -> Kind {
        self.kind
    }

    /// The body size declared when the writer was made.
    pub closed spec fn size(&self) -> u64 {
        self.size
    }

    /// Everything handed to the compressor so far.
    pub closed spec fn compressed_input(&self) -> Seq<u8> {
        deflate_input(self.sink)
    }

    /// The compressed bytes taken out so far.
    pub closed spec fn compressed_output(&self) -> Seq<u8> {
        deflate_taken(self.sink)
    }

    /// Starts an object of kind `k` whose body will have exactly `size`
    /// bytes, and writes its header.
    pub fn new(k: Kind, size: u64) -> (r: ObjectWriter)
        ensures
            r.wf(),
            r.kind() == k,
            r.size() == size,
            r@ == Seq::<u8>::empty(),
            r.compressed_input() == header_bytes(k, size as nat),
            r.compressed_output() == Seq::<u8>::empty(),
    {
        let header = encode_header(k, size);
        let mut hasher = Sha1Hasher::new();
        hasher.update(header.as_slice());
        let mut sink = ZlibSink::new();
        sink.write(header.as_slice()).unwrap();
        assert(sha1_absorbed(hasher) =~= header_bytes(k, size as nat) + Seq::<u8>::empty());
        assert(deflate_input(sink) =~= header_bytes(k, size as nat) + Seq::<u8>::empty());
        ObjectWriter { kind: k, size, written: 0, hasher, sink, body: Ghost(Seq::empty()) }
    }

    /// Appends `chunk` to the body. Refuses, with `SizeMismatch` and no
    /// change, a chunk that would take the body past the declared size.
    pub fn write(&mut self, chunk: &[u8]) -> (r: Result<(), ObjectError>)
        requires
            old(self).wf(),
        ensures
            r is Ok <==> old(self)@.len() + chunk@.len() <= old(self).size(),
            r is Err ==> r == Err::<(), ObjectError>(ObjectError::SizeMismatch) && *final(self)
                == *old(self),
            r is Ok ==> final(self).wf() && final(self)@ == old(self)@ + chunk@
                && final(self).kind() == old(self).kind() && final(self).size() == old(
                self,
            ).size() && final(self).compressed_input() == old(self).compressed_input()
                + chunk@ && final(self).compressed_output() == old(self).compressed_output(),
    {
        let room: u64 = self.size - self.written;
        if (chunk.len() as u64) > room {
            return Err(ObjectError::SizeMismatch);
        }
        self.sink.write(chunk).unwrap();
        self.hasher.update(chunk);
        self.written = self.written + chunk.len() as u64;
        self.body = Ghost(self.body@ + chunk@);
        proof {
            assert(sha1_absorbed(self.hasher) =~= header_bytes(self.kind, self.size as nat)
                + self.body@);
            assert(deflate_input(self.sink) =~= header_bytes(self.kind, self.size as nat)
                + self.body@);
        }
        Ok(())
    }

    /// Takes the compressed bytes produced so far, to be stored in order.
    pub fn take_output(&mut self) -> (r: Vec<u8>)
        requires
            old(self).wf(),
        ensures
            final(self).wf(),
            final(self)@ == old(self)@,
            final(self).kind() == old(self).kind(),
            final(self).size() == old(self).size(),
            final(self).compressed_input() == old(self).compressed_input(),
            final(self).compressed_output() == old(self).compressed_output() + r@,
    {
        self.sink.take_output()
    }

    /// Ends the object. With the body complete, returns the last compressed
    /// bytes and the id, the SHA-1 digest of header and body; a body shorter
    /// than declared gives `SizeMismatch`.
    pub fn finish(self) -> (r: Result<(Vec<u8>, [u8; 20]), ObjectError>)
        requires
            self.wf(),
        ensures
            r is Ok <==> self@.len() == self.size(),
            match r {
                Ok((tail, id)) => id@ == object_id(self.kind(), self@) && zlib_decoded(
                    self.compressed_output() + tail@,
                ) == Some(object_bytes(self.kind(), self@)),
                Err(e) => e == ObjectError::SizeMismatch,
            },
    {
        if self.written != self.size {
            return Err(ObjectError::SizeMismatch);
        }
        let tail = self.sink.finish().unwrap();
        let id = self.hasher.finalize();
        Ok((tail, id))
    }
}

/// Encodes a whole object held in memory: its compressed bytes and its id.
pub fn encode_object(k: Kind, body: &[u8]) -> (r: (Vec<u8>, [u8; 20]))
    ensures
        r.1@ == object_id(k, body@),
        zlib_decoded(r.0@) == Some(object_bytes(k, body@)),
{
    let mut w = ObjectWriter::new(k, body.len() as u64);
    w.write(body).unwrap();
    let mut out = w.take_output();
    let (mut tail, id) = w.finish().unwrap();
    out.append(&mut tail);
    (out, id)
}

} // verus!
