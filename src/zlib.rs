use vstd::prelude::*;
use std::io::Write;

verus! {

#[verifier::external_type_specification]
#[verifier::external_body]
pub struct ExIoError(std::io::Error);


#[verifier::external_type_specification]
#[verifier::external_body]
pub struct ExDecompress(flate2::Decompress);

#[verifier::external_type_specification]
#[verifier::external_body]
pub struct ExDecompressError(flate2::DecompressError);

/// The bytes that have been written into the compressor `z`.
pub uninterp spec fn deflate_input(z: ZlibSink) -> Seq<u8>;

/// The compressed bytes that have been taken out of the compressor `z`.
pub uninterp spec fn deflate_taken(z: ZlibSink) -> Seq<u8>;

/// A zlib compressor at the default level whose output collects in memory
/// until it is taken.
// Verus refuses to declare flate2::write::ZlibEncoder (its parameter is bound
// by std::io::Write), so the encoder is held in an opaque field here.
#[verifier::external_body]
pub struct ZlibSink {
    inner: flate2::write::ZlibEncoder<Vec<u8>>,
}

impl ZlibSink {
    /// Relies on flate2::write::ZlibEncoder::new: a compressor that has been
    /// given nothing yet.
    #[verifier::external_body]
    pub(crate) fn new() -> (r: ZlibSink)
        ensures
            deflate_input(r) == Seq::<u8>::empty(),
            deflate_taken(r) == Seq::<u8>::empty(),
    {
        ZlibSink { inner: flate2::write::ZlibEncoder::new(Vec::new(), flate2::Compression::default()) }
    }

    /// Relies on Write::write_all of flate2::write::ZlibEncoder: the whole of
    /// `data` is handed to the compressor. The compressed bytes go into a
    /// `Vec`, whose writes do not fail, and the compressor at the default
    /// level with no callback reports no error, so the call succeeds.
    #[verifier::external_body]
    pub(crate) fn write(&mut self, data: &[u8]) -> (r: Result<(), std::io::Error>)
        ensures
            r is Ok,
            deflate_input(*final(self)) == deflate_input(*old(self)) + data@,
            deflate_taken(*final(self)) == deflate_taken(*old(self)),
    {
        self.inner.write_all(data)
    }

    /// Relies on flate2::write::ZlibEncoder::get_mut: takes the compressed
    /// bytes produced so far out of the output buffer; the compressor's input
    /// is left as it was.
    #[verifier::external_body]
    pub(crate) fn take_output(&mut self) -> (r: Vec<u8>)
        ensures
            deflate_input(*final(self)) == deflate_input(*old(self)),
            deflate_taken(*final(self)) == deflate_taken(*old(self)) + r@,
    {
        std::mem::take(self.inner.get_mut())
    }

    /// Relies on flate2::write::ZlibEncoder::finish: ends the zlib stream and
    /// hands back the compressed bytes not yet taken; as with `write`, the
    /// output is a `Vec` and the call succeeds. All the bytes taken, followed
    /// by these, form one complete zlib stream (no preset dictionary) of
    /// everything written into the compressor.
    #[verifier::external_body]
    pub(crate) fn finish(self) -> (r: Result<Vec<u8>, std::io::Error>)
        ensures
            r is Ok,
            zlib_decoded(deflate_taken(self) + r->Ok_0@) == Some(deflate_input(self)),
    {
        self.inner.finish()
    }
}

/// What a complete zlib stream decodes to: `Some` of the decompressed bytes
/// when `c` is exactly one complete zlib stream that needs no preset
/// dictionary, and `None` otherwise.
pub uninterp spec fn zlib_decoded(c: Seq<u8>) -> Option<Seq<u8>>;

/// The compressed bytes that the decompressor `d` has consumed so far.
pub uninterp spec fn inflate_input(d: flate2::Decompress) -> Seq<u8>;

/// The decompressed bytes that the decompressor `d` has produced so far.
pub uninterp spec fn inflate_output(d: flate2::Decompress) -> Seq<u8>;

/// The decompressor `d` reads the zlib format (header and checksum) rather
/// than raw deflate.
pub uninterp spec fn inflate_zlib(d: flate2::Decompress) -> bool;

/// Relies on flate2::Decompress::new: a fresh decompressor, which has
/// consumed and produced nothing, reading zlib exactly when `zlib_header`.
pub assume_specification[ flate2::Decompress::new ](zlib_header: bool) -> (r: flate2::Decompress)
    ensures
        inflate_zlib(r) == zlib_header,
        inflate_input(r) == Seq::<u8>::empty(),
        inflate_output(r) == Seq::<u8>::empty(),
;

/// Relies on flate2::Decompress::total_in: the count of compressed bytes
/// consumed so far.
pub assume_specification[ flate2::Decompress::total_in ](d: &flate2::Decompress) -> (r: u64)
    ensures
        r == inflate_input(*d).len(),
;

/// Relies on flate2::Decompress::total_out: the count of decompressed bytes
/// produced so far.
pub assume_specification[ flate2::Decompress::total_out ](d: &flate2::Decompress) -> (r: u64)
    ensures
        r == inflate_output(*d).len(),
;

/// Relies on flate2::Decompress::decompress on a decompressor made for the
/// zlib format, with no flushing requested (miniz_oxide's `inflate`
/// underneath): consumes a prefix of `input` and
/// writes decompressed bytes at the start of `output`. Returns whether the
/// end of the zlib stream has been reached, which happens only once the whole
/// stream, its checksum included, has been consumed and all of its output
/// written. With room for output, a call that neither consumes nor produces
/// anything, or that fails, shows that the bytes consumed before it followed
/// by `input` are not one complete stream; when they are one, all output so
/// far is the start of its decoding.
#[verifier::external_body]
pub(crate) fn inflate(d: &mut flate2::Decompress, input: &[u8], output: &mut [u8]) -> (r: Result<
    bool,
    flate2::DecompressError,
>)
    requires
        inflate_zlib(*old(d)),
    ensures
        inflate_zlib(*final(d)),
        final(output)@.len() == old(output)@.len(),
        inflate_input(*old(d)).len() <= inflate_input(*final(d)).len() <= inflate_input(
            *old(d),
        ).len() + input@.len(),
        inflate_input(*final(d)) == inflate_input(*old(d)) + input@.take(
            inflate_input(*final(d)).len() - inflate_input(*old(d)).len(),
        ),
        inflate_output(*old(d)).len() <= inflate_output(*final(d)).len() <= inflate_output(
            *old(d),
        ).len() + old(output)@.len(),
        inflate_output(*final(d)) == inflate_output(*old(d)) + final(output)@.take(
            inflate_output(*final(d)).len() - inflate_output(*old(d)).len(),
        ),
        r == Ok::<bool, flate2::DecompressError>(true) ==> zlib_decoded(inflate_input(*final(d)))
            == Some(inflate_output(*final(d))),
        r == Ok::<bool, flate2::DecompressError>(true) && zlib_decoded(
            inflate_input(*old(d)) + input@,
        ) is Some ==> inflate_input(*final(d)) == inflate_input(*old(d)) + input@,
        r == Ok::<bool, flate2::DecompressError>(false) && old(output)@.len() > 0 && inflate_input(
            *final(d),
        ) == inflate_input(*old(d)) && inflate_output(*final(d)) == inflate_output(*old(d))
            ==> zlib_decoded(inflate_input(*old(d)) + input@) is None,
        r is Err ==> zlib_decoded(inflate_input(*old(d)) + input@) is None,
        zlib_decoded(inflate_input(*old(d)) + input@) is Some ==> inflate_output(
            *final(d),
        ).is_prefix_of(zlib_decoded(inflate_input(*old(d)) + input@)->0),
{
    let status = d.decompress(input, output, flate2::FlushDecompress::None)?;
    Ok(matches!(status, flate2::Status::StreamEnd))
}

} // verus!
