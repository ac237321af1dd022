use vstd::prelude::*;
use crate::error::ObjectError;
use crate::kind::Kind;
use crate::parser::{
    ObjectParser, stream_status, body_so_far, decode_stream, stream_budget,
    lemma_stream_status_extend,
};
use crate::zlib::{inflate, inflate_input, inflate_output, inflate_zlib, zlib_decoded};
use vstd::slice::slice_subrange;

verus! {

/// The most decompressed bytes asked for in one step.
pub const INFLATE_CHUNK: usize = 16384;

/// Reads a stored object from its compressed bytes, handed over in pieces:
/// decompresses them, checks the header, and releases the body, never
/// decompressing more than one byte past the declared size.
pub struct ObjectReader {
    inflater: flate2::Decompress,
    parser: ObjectParser,
    ended: bool,
    broken: bool,
}

impl View for ObjectReader {
    type V = Seq<u8>;

    /// The decompressed stream produced so far.
    closed spec fn view(&self) -> Seq<u8> {
        self.parser@
    }
}

/// What a reader whose decompressed stream is `s` reports when no more
/// compressed bytes will come: `zlib_failed` when decompression failed,
/// `ended` when the zlib stream was seen to its end.
pub open spec fn read_outcome(s: Seq<u8>, zlib_failed: bool, ended: bool) -> Result<
    (Kind, u64),
    ObjectError,
> {
    if zlib_failed {
        Err(ObjectError::CorruptObject)
    } else if stream_status(s) is Err {
        Err(stream_status(s)->Err_0)
    } else if !ended {
        Err(ObjectError::CorruptObject)
    } else {
        match decode_stream(s) {
            Ok((k, body)) => Ok((k, body.len() as u64)),
            Err(e) => Err(e),
        }
    }
}

impl ObjectReader {
    pub closed spec fn wf(&self) -> bool {
        &&& self.parser.wf()
        &&& inflate_zlib(self.inflater)
        &&& !self.broken ==> self.parser@ == inflate_output(self.inflater)
        &&& (!self.broken && self.ended) ==> zlib_decoded(inflate_input(self.inflater)) == Some(
            self.parser@,
        )
    }

    /// The compressed bytes consumed so far.
    pub closed spec fn consumed(&self) -> Seq<u8> {
        inflate_input(self.inflater)
    }

    /// Decompression failed: the compressed bytes are not a zlib stream.
    pub closed spec fn zlib_failed(&self) -> bool {
        self.broken
    }

    /// The end of the zlib stream has been reached.
    pub closed spec fn stream_ended(&self) -> bool {
        self.ended
    }

    pub fn new() -> (r: ObjectReader)
        ensures
            r.wf(),
            r@ == Seq::<u8>::empty(),
            r.consumed() == Seq::<u8>::empty(),
            !r.zlib_failed(),
            !r.stream_ended(),
    {
        ObjectReader {
            inflater: flate2::Decompress::new(true),
            parser: ObjectParser::new(),
            ended: false,
            broken: false,
        }
    }

    /// The kind and declared size, once the header has been decompressed.
    pub fn header(&self) -> (r: Option<(Kind, u64)>)
        requires
            self.wf(),
        ensures
            r == match crate::header::scan_header(self@) {
                crate::header::HeaderScan::Ready { kind, size, len } => Some((kind, size)),
                _ => None,
            },
    {
        self.parser.header()
    }

    /// Hands over the next compressed bytes. Returns the body bytes that they
    /// decompress to, within the declared size, even when the object goes
    /// wrong after them; the error comes back once no such byte is left to
    /// release. When the bytes consumed before, followed by `compressed`, are
    /// one complete zlib stream, an acceptable object so far means that the
    /// whole stream has been decompressed.
    pub fn feed(&mut self, compressed: &[u8]) -> (r: Result<Vec<u8>, ObjectError>)
        requires
            old(self).wf(),
        ensures
            final(self).wf(),
            old(self)@.is_prefix_of(final(self)@),
            old(self).consumed().is_prefix_of(final(self).consumed()),
            final(self).consumed().is_prefix_of(old(self).consumed() + compressed@),
            old(self).zlib_failed() ==> final(self).zlib_failed(),
            old(self).stream_ended() ==> final(self).stream_ended(),
            !final(self).zlib_failed() && final(self).stream_ended() ==> zlib_decoded(
                final(self).consumed(),
            ) == Some(final(self)@),
            match r {
                Ok(out) => body_so_far(old(self)@) + out@ == body_so_far(final(self)@) && ((
                final(self).zlib_failed() || stream_status(final(self)@) is Err) ==> out@.len()
                    > 0),
                Err(e) => body_so_far(final(self)@) == body_so_far(old(self)@) && (if final(self).zlib_failed() {
                    e == ObjectError::CorruptObject
                } else {
                    stream_status(final(self)@) == Err::<(), ObjectError>(e)
                }),
            },
            !old(self).stream_ended() && zlib_decoded(old(self).consumed() + compressed@) is Some
                && r is Ok && stream_status(final(self)@) is Ok ==> final(self).stream_ended()
                && Some(final(self)@) == zlib_decoded(old(self).consumed() + compressed@),
            !old(self).stream_ended() && !old(self).zlib_failed() && (zlib_decoded(
                old(self).consumed() + compressed@,
            ) matches Some(s) && old(self)@.is_prefix_of(s)) ==> !final(self).zlib_failed()
                && final(self)@.is_prefix_of(zlib_decoded(old(self).consumed() + compressed@)->0),
    {
        if self.broken {
            return Err(ObjectError::CorruptObject);
        }
        let ghost s0 = self.parser@;
        let ghost c0 = inflate_input(self.inflater);
        let ghost c = c0 + compressed@;
        let ghost ended0 = self.ended;
        let mut released: Vec<u8> = Vec::new();
        if let Some(e) = self.parser.check() {
            return Err(e);
        }
        let mut pos: usize = 0;
        let mut stalled = false;
        assert(compressed@.take(0) =~= Seq::<u8>::empty());
        assert(c0 + compressed@.take(0) =~= c0);
        while !self.ended && !stalled && !self.broken && self.parser.check().is_none()
            invariant
                self.wf(),
                old(self)@ == s0,
                old(self).consumed() == c0,
                c == c0 + compressed@,
                ended0 == old(self).stream_ended(),
                ended0 ==> self.ended,
                !old(self).zlib_failed(),
                pos <= compressed.len(),
                inflate_input(self.inflater) == c0 + compressed@.take(pos as int),
                s0.is_prefix_of(self.parser@),
                body_so_far(s0) + released@ == body_so_far(self.parser@),
                stalled ==> zlib_decoded(c) is None,
                self.broken ==> zlib_decoded(c) is None,
                !ended0 && self.ended && zlib_decoded(c) is Some ==> inflate_input(self.inflater)
                    == c,
                !ended0 && zlib_decoded(c) is Some && s0.is_prefix_of(zlib_decoded(c)->0)
                    ==> self.parser@.is_prefix_of(zlib_decoded(c)->0),
            decreases
                if self.ended || stalled || self.broken || stream_status(self.parser@) is Err {
                    0int
                } else {
                    1int
                },
                stream_budget(self.parser@),
                compressed.len() - pos,
        {
            let room = self.parser.room(INFLATE_CHUNK);
            let mut out: Vec<u8> = vec![0u8; room];
            let in0 = self.inflater.total_in();
            let out0 = self.inflater.total_out();
            let ghost d0 = self.inflater;
            let rest = slice_subrange(compressed, pos, compressed.len());
            assert(inflate_input(d0) + rest@ =~= c);
            let step = inflate(&mut self.inflater, rest, out.as_mut_slice());
            let consumed = (self.inflater.total_in() - in0) as usize;
            let produced = (self.inflater.total_out() - out0) as usize;
            out.truncate(produced);
            proof {
                assert(inflate_input(self.inflater) =~= c0 + compressed@.take(pos + consumed));
                assert(inflate_output(self.inflater) == inflate_output(d0) + out@);
            }
            pos = pos + consumed;
            match step {
                Err(_) => {
                    self.broken = true;
                },
                Ok(end) => {
                    if end {
                        self.ended = true;
                    } else if consumed == 0 && produced == 0 {
                        stalled = true;
                    }
                    let ghost s1 = self.parser@;
                    match self.parser.push(out.as_slice()) {
                        Ok(mut body) => {
                            released.append(&mut body);
                        },
                        Err(_) => {},
                    }
                    proof {
                        assert(s0.is_prefix_of(self.parser@)) by {
                            assert forall|i: int| 0 <= i < s0.len() implies s0[i] == self.parser@[i] by {
                                assert(s1[i] == s0[i]);
                            }
                        }
                    }
                },
            }
        }
        proof {
            assert(c0.is_prefix_of(inflate_input(self.inflater)));
            assert(inflate_input(self.inflater).is_prefix_of(c)) by {
                assert forall|i: int| 0 <= i < inflate_input(self.inflater).len() implies inflate_input(self.inflater)[i] == c[i] by {
                    if i >= c0.len() {
                        assert(compressed@.take(pos as int)[i - c0.len()] == compressed@[i - c0.len()]);
                    }
                }
            }
        }
        if released.len() == 0 {
            assert(body_so_far(s0) + released@ =~= body_so_far(s0));
            if self.broken {
                return Err(ObjectError::CorruptObject);
            }
            if let Some(e) = self.parser.check() {
                return Err(e);
            }
        }
        Ok(released)
    }

    /// Ends the object: its kind and size when the compressed bytes were a
    /// complete zlib stream of a well-formed object, or the error.
    pub fn finish(&self) -> (r: Result<(Kind, u64), ObjectError>)
        requires
            self.wf(),
        ensures
            r == read_outcome(self@, self.zlib_failed(), self.stream_ended()),
            r is Ok ==> zlib_decoded(self.consumed()) == Some(self@),
    {
        if self.broken {
            return Err(ObjectError::CorruptObject);
        }
        if let Some(e) = self.parser.check() {
            return Err(e);
        }
        if !self.ended {
            return Err(ObjectError::CorruptObject);
        }
        self.parser.finish()
    }
}

/// Reads a whole stored object from its compressed bytes: its kind and
/// body. When the bytes are one complete zlib stream of a well-formed object,
/// that object is returned; whatever is returned is what some complete zlib
/// stream at the start of the bytes decodes to.
pub fn load_object(compressed: &[u8]) -> (r: Result<(Kind, Vec<u8>), ObjectError>)
    ensures
        match zlib_decoded(compressed@) {
            Some(s) => match decode_stream(s) {
                Ok((k, b)) => r matches Ok((k2, b2)) && k2 == k && b2@ == b,
                Err(e) => r == Err::<(Kind, Vec<u8>), ObjectError>(e),
            },
            None => true,
        },
        match r {
            Ok((k, b)) => exists|p: Seq<u8>|
                #![trigger zlib_decoded(p)]
                p.is_prefix_of(compressed@) && (zlib_decoded(p) matches Some(s) && decode_stream(s)
                    == Ok::<(Kind, Seq<u8>), ObjectError>((k, b@))),
            Err(e) => e == ObjectError::CorruptObject || e == ObjectError::SizeMismatch,
        },
{
    let mut reader = ObjectReader::new();
    assert(Seq::<u8>::empty() + compressed@ =~= compressed@);
    let body = match reader.feed(compressed) {
        Ok(b) => b,
        Err(e) => {
            proof {
                match zlib_decoded(compressed@) {
                    Some(s) => {
                        assert(Seq::<u8>::empty().is_prefix_of(s));
                        let t = s.subrange(reader@.len() as int, s.len() as int);
                        assert(reader@ + t =~= s);
                        assert(!reader.zlib_failed());
                        assert(reader@.is_prefix_of(s));
                        lemma_stream_status_extend(reader@, t);
                        assert(stream_status(s) == Err::<(), ObjectError>(e));
                        assert(decode_stream(s) == Err::<(Kind, Seq<u8>), ObjectError>(e));
                    },
                    None => {},
                }
            }
            return Err(e);
        },
    };
    assert(body_so_far(Seq::<u8>::empty()) =~= Seq::<u8>::empty());
    assert(body@ =~= body_so_far(reader@));
    proof {
        match zlib_decoded(compressed@) {
            Some(s) => {
                assert(Seq::<u8>::empty().is_prefix_of(s));
                assert(!reader.zlib_failed());
                if stream_status(reader@) is Err {
                    let t = s.subrange(reader@.len() as int, s.len() as int);
                    assert(reader@ + t =~= s);
                    lemma_stream_status_extend(reader@, t);
                    assert(decode_stream(s) == Err::<(Kind, Seq<u8>), ObjectError>(
                        stream_status(reader@)->Err_0,
                    ));
                } else {
                    assert(reader@ == s);
                }
            },
            None => {},
        }
    }
    match reader.finish() {
        Ok((k, _)) => {
            proof {
                let p = reader.consumed();
                assert(zlib_decoded(p) == Some(reader@));
                match zlib_decoded(compressed@) {
                    Some(s) => {
                        assert(reader@ == s);
                        match decode_stream(s) {
                            Ok((k2, b2)) => {
                                assert(k2 == k);
                                assert(body@ == b2);
                            },
                            Err(_) => {},
                        }
                    },
                    None => {},
                }
            }
            Ok((k, body))
        },
        Err(e) => Err(e),
    }
}

} // verus!
