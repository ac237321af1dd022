use vstd::prelude::*;
use crate::error::ObjectError;
use crate::header::{
    HeaderScan, MAX_HEADER_LEN, scan_header, header_fields, parse_header_fields, header_bytes,
    find_byte, lemma_scan_header_extend, lemma_scan_header_push, lemma_header_bytes,
    lemma_find_byte_absent, lemma_find_byte_extend, lemma_find_byte, counted_len, size_zeros,
    kept_text, restored_text, in_zero_run, lemma_kept_text_push, lemma_header_text_push,
    lemma_restored_text_fields, header_too_long,
};
use crate::kind::kind_of_token;
use crate::writer::{object_bytes, object_id};
use crate::kind::Kind;
use vstd::slice::slice_subrange;

verus! {

/// Whether the decompressed stream `s` is still acceptable: its header is
/// pending or well formed, and it holds no more body bytes than declared.
pub open spec fn stream_status(s: Seq<u8>) -> Result<(), ObjectError> {
    match scan_header(s) {
        HeaderScan::Pending => Ok(()),
        HeaderScan::Corrupt => Err(ObjectError::CorruptObject),
        HeaderScan::Ready { kind, size, len } => if s.len() - len <= size {
            Ok(())
        } else {
            Err(ObjectError::SizeMismatch)
        },
    }
}

/// The body bytes of `s` that lie within the declared size.
pub open spec fn body_so_far(s: Seq<u8>) -> Seq<u8> {
    match scan_header(s) {
        HeaderScan::Ready { kind, size, len } => if s.len() - len <= size {
            s.subrange(len as int, s.len() as int)
        } else {
            s.subrange(len as int, len + size)
        },
        _ => Seq::empty(),
    }
}

/// What a complete decompressed stream `s` decodes to: its kind and body, or
/// `CorruptObject` when it has no well-formed header and `SizeMismatch` when
/// the body is not exactly as long as the header says.
pub open spec fn decode_stream(s: Seq<u8>) -> Result<(Kind, Seq<u8>), ObjectError> {
    match scan_header(s) {
        HeaderScan::Ready { kind, size, len } => if s.len() - len == size {
            Ok((kind, s.subrange(len as int, s.len() as int)))
        } else {
            Err(ObjectError::SizeMismatch)
        },
        _ => Err(ObjectError::CorruptObject),
    }
}

/// An error of the stream stays once more bytes arrive.
pub proof fn lemma_stream_status_extend(s: Seq<u8>, t: Seq<u8>)
    requires
        stream_status(s) is Err,
    ensures
        stream_status(s + t) == stream_status(s),
        body_so_far(s + t) == body_so_far(s),
{
    lemma_scan_header_extend(s, t);
    match scan_header(s) {
        HeaderScan::Ready { kind, size, len } => {
            assert((s + t).subrange(len as int, len + size) =~= s.subrange(len as int, len + size));
        },
        _ => {},
    }
}

/// An encoded object decodes to its own kind and body, and every byte of its
/// body is released.
pub proof fn lemma_decode_object_bytes(k: Kind, body: Seq<u8>)
    requires
        body.len() <= u64::MAX,
    ensures
        decode_stream(object_bytes(k, body)) == Ok::<(Kind, Seq<u8>), ObjectError>((k, body)),
        stream_status(object_bytes(k, body)) is Ok,
        body_so_far(object_bytes(k, body)) == body,
{
    let h = header_bytes(k, body.len());
    lemma_header_bytes(k, body.len() as u64);
    lemma_scan_header_extend(h, body);
    let s = h + body;
    assert(s.subrange(h.len() as int, s.len() as int) =~= body);
}

/// Content addressing: the same kind and body always give the same logical
/// bytes and so the same id, and the same logical bytes come only from the
/// same kind and body, so storing equal content twice names one object.
pub proof fn lemma_same_content_same_object(k1: Kind, b1: Seq<u8>, k2: Kind, b2: Seq<u8>)
    requires
        b1.len() <= u64::MAX,
        b2.len() <= u64::MAX,
    ensures
        object_bytes(k1, b1) == object_bytes(k2, b2) <==> (k1 == k2 && b1 == b2),
        (k1 == k2 && b1 == b2) ==> object_id(k1, b1) == object_id(k2, b2),
{
    lemma_decode_object_bytes(k1, b1);
    lemma_decode_object_bytes(k2, b2);
}

/// A stream whose body is longer or shorter than its header declares is
/// reported as `SizeMismatch`, never cut or padded.
pub proof fn lemma_decode_size_mismatch(k: Kind, size: u64, body: Seq<u8>)
    requires
        body.len() != size,
    ensures
        decode_stream(header_bytes(k, size as nat) + body) == Err::<(Kind, Seq<u8>), ObjectError>(
            ObjectError::SizeMismatch,
        ),
{
    let h = header_bytes(k, size as nat);
    lemma_header_bytes(k, size);
    lemma_scan_header_extend(h, body);
}

/// A stream with no NUL byte has no header: it is corrupt.
pub proof fn lemma_decode_without_nul(s: Seq<u8>)
    requires
        forall|i: int| 0 <= i < s.len() ==> s[i] != 0,
    ensures
        decode_stream(s) == Err::<(Kind, Seq<u8>), ObjectError>(ObjectError::CorruptObject),
{
    lemma_find_byte_absent(s, 0);
}

/// A stream whose header names a kind other than the three known ones is
/// corrupt.
pub proof fn lemma_decode_unknown_kind(t: Seq<u8>, rest: Seq<u8>)
    requires
        kind_of_token(t) is None,
        forall|i: int| 0 <= i < t.len() ==> t[i] != 0 && t[i] != 32,
    ensures
        decode_stream(t + seq![32u8] + rest) == Err::<(Kind, Seq<u8>), ObjectError>(
            ObjectError::CorruptObject,
        ),
{
    let s = t + seq![32u8] + rest;
    let u = seq![32u8] + rest;
    assert(s =~= t + u);
    lemma_find_byte_absent(t, 0);
    lemma_find_byte_extend(t, u, 0);
    assert(u =~= seq![32u8] + rest);
    assert(find_byte(u, 0) >= 1) by {
        assert(u[0] != 0);
        assert(u.drop_first() =~= rest);
    }
    let z = find_byte(s, 0);
    lemma_find_byte(s, 0);
    if z < s.len() {
        let h = s.take(z as int);
        assert(h =~= t + h.subrange(t.len() as int, z as int));
        assert(h[t.len() as int] == 32);
        lemma_find_byte_absent(t, 32);
        lemma_find_byte_extend(t, h.subrange(t.len() as int, z as int), 32);
        assert(find_byte(h.subrange(t.len() as int, z as int), 32) == 0);
        assert(h.take(t.len() as int) =~= t);
        assert(header_fields(h) is None);
    }
}

/// How many more bytes the stream `s` can take before its outcome is
/// settled: while the header is pending this exceeds any body budget and
/// shrinks with every byte, and once the header is read it is one more than
/// the body bytes still owed.
pub open spec fn stream_budget(s: Seq<u8>) -> nat {
    match scan_header(s) {
        HeaderScan::Pending => ((MAX_HEADER_LEN - counted_len(s)) * 0x1_0000_0000_0000_0000int + (
        u64::MAX - size_zeros(s)) + 0x1_0000_0000_0000_0002int) as nat,
        HeaderScan::Corrupt => 0,
        HeaderScan::Ready { kind, size, len } => if s.len() - len <= size {
            (size + 1 - (s.len() - len)) as nat
        } else {
            0
        },
    }
}

/// A pending header has no NUL yet and is not too long.
proof fn lemma_pending(s: Seq<u8>)
    requires
        scan_header(s) is Pending,
    ensures
        find_byte(s, 0) == s.len(),
        !header_too_long(s),
        counted_len(s) < MAX_HEADER_LEN,
        size_zeros(s) < u64::MAX,
{
    lemma_find_byte(s, 0);
    assert(s.take(s.len() as int) =~= s);
}

proof fn lemma_pending_budget_push(s: Seq<u8>, b: u8)
    requires
        scan_header(s) is Pending,
        scan_header(s.push(b)) is Pending,
    ensures
        stream_budget(s.push(b)) < stream_budget(s),
{
    lemma_scan_header_push(s, b);
    lemma_header_text_push(s, b);
    lemma_pending(s);
    lemma_pending(s.push(b));
    lemma_find_byte(s, 0);
    lemma_find_byte(s.push(b), 0);
    lemma_find_byte_extend(s, seq![b], 0);
    assert(s + seq![b] =~= s.push(b));
    assert(s.take(s.len() as int) =~= s);
    assert(s.push(b).take(s.len() + 1int) =~= s.push(b));
}

proof fn lemma_pending_budget_extend(s: Seq<u8>, t: Seq<u8>)
    requires
        scan_header(s) is Pending,
        scan_header(s + t) is Pending,
    ensures
        stream_budget(s + t) <= stream_budget(s),
        t.len() > 0 ==> stream_budget(s + t) < stream_budget(s),
    decreases t.len(),
{
    if t.len() == 0 {
        assert(s + t =~= s);
    } else {
        let u = s + t.drop_last();
        assert(u.push(t.last()) =~= s + t);
        if !(scan_header(u) is Pending) {
            lemma_scan_header_extend(u, seq![t.last()]);
            assert(u + seq![t.last()] =~= s + t);
        }
        lemma_pending_budget_extend(s, t.drop_last());
        lemma_pending_budget_push(u, t.last());
    }
}

/// Bytes that leave an acceptable stream acceptable use up its budget.
pub proof fn lemma_stream_budget_decreases(s: Seq<u8>, t: Seq<u8>)
    requires
        t.len() > 0,
        stream_status(s + t) is Ok,
    ensures
        stream_status(s) is Ok,
        stream_budget(s + t) < stream_budget(s),
{
    if stream_status(s) is Err {
        lemma_stream_status_extend(s, t);
    }
    if !(scan_header(s) is Pending) {
        lemma_scan_header_extend(s, t);
    } else {
        lemma_pending(s);
        if scan_header(s + t) is Pending {
            lemma_pending_budget_extend(s, t);
        }
    }
}

/// Reads the header of a decompressed object stream and releases its body,
/// never more bytes than the header declares. The stream is handed over in
/// pieces of any length.
pub struct ObjectParser {
    head: Vec<u8>,
    zeros: u64,
    space_at: Option<usize>,
    in_run: bool,
    fields: Option<(Kind, u64)>,
    header_len: Ghost<nat>,
    failure: Option<ObjectError>,
    body_len: u64,
    seen: Ghost<Seq<u8>>,
}

impl View for ObjectParser {
    type V = Seq<u8>;

    /// Every byte of the stream handed over so far.
    closed spec fn view(&self) -> Seq<u8> {
        self.seen@
    }
}

impl ObjectParser {
    pub closed spec fn wf(&self) -> bool {
        let s = self.seen@;
        &&& match scan_header(s) {
            HeaderScan::Pending => {
                &&& self.fields is None
                &&& self.head@ == kept_text(s)
                &&& self.head@.len() < MAX_HEADER_LEN
                &&& self.zeros == size_zeros(s)
                &&& self.in_run == in_zero_run(s)
                &&& match self.space_at {
                    Some(p) => p == find_byte(s, 32) && p < s.len(),
                    None => find_byte(s, 32) == s.len(),
                }
            },
            HeaderScan::Corrupt => self.fields is None,
            HeaderScan::Ready { kind, size, len } => self.fields == Some((kind, size))
                && self.header_len@ == len,
        }
        &&& match stream_status(s) {
            Ok(()) => self.failure is None,
            Err(e) => self.failure == Some(e),
        }
        &&& match self.fields {
            Some((k, size)) => self.failure is None ==> (self.body_len == s.len()
                - self.header_len@ && self.body_len <= size),
            None => true,
        }
    }

    pub fn new() -> (r: ObjectParser)
        ensures
            r.wf(),
            r@ == Seq::<u8>::empty(),
    {
        let r = ObjectParser {
            head: Vec::new(),
            zeros: 0,
            space_at: None,
            in_run: false,
            fields: None,
            header_len: Ghost(0),
            failure: None,
            body_len: 0,
            seen: Ghost(Seq::empty()),
        };
        assert(kept_text(Seq::<u8>::empty()) =~= Seq::<u8>::empty());
        r
    }

    /// The kind and declared size, once the whole header has arrived.
    pub fn header(&self) -> (r: Option<(Kind, u64)>)
        requires
            self.wf(),
        ensures
            r == match scan_header(self@) {
                HeaderScan::Ready { kind, size, len } => Some((kind, size)),
                _ => None,
            },
    {
        self.fields
    }

    /// The header text with one `0` in place of the leading zeros of the
    /// size, rebuilt from what is kept.
    fn restore(&self) -> (r: Vec<u8>)
        requires
            self.wf(),
            scan_header(self@) is Pending,
        ensures
            r@ == restored_text(self@),
    {
        proof {
            lemma_restored_text_fields(self@);
            lemma_find_byte(self@, 32);
        }
        let mut text: Vec<u8> = Vec::new();
        match self.space_at {
            Some(p) => {
                if self.zeros > 0 {
                    let ghost q = self.seen@;
                    let ghost k = size_zeros(q);
                    assert(self.head@.take(p + 1int) =~= q.take(p + 1int));
                    assert(self.head@.skip(p + 1int) =~= q.skip(p + 1int + k));
                    text.extend_from_slice(slice_subrange(self.head.as_slice(), 0, p + 1));
                    text.push(48);
                    text.extend_from_slice(
                        slice_subrange(self.head.as_slice(), p + 1, self.head.len()),
                    );
                    assert(text@ =~= restored_text(q));
                    return text;
                }
            },
            None => {},
        }
        text.extend_from_slice(self.head.as_slice());
        assert(text@ =~= restored_text(self@));
        text
    }

    /// One more byte while the header is still pending.
    fn push_header_byte(&mut self, b: u8)
        requires
            old(self).wf(),
            old(self).failure is None,
            old(self).fields is None,
        ensures
            final(self).wf(),
            final(self)@ == old(self)@.push(b),
            body_so_far(final(self)@) == Seq::<u8>::empty(),
    {
        let ghost s0 = self.seen@;
        proof {
            lemma_scan_header_push(s0, b);
            lemma_kept_text_push(s0, b);
            lemma_header_text_push(s0, b);
            lemma_restored_text_fields(s0);
            lemma_restored_text_fields(s0.push(b));
            lemma_find_byte(s0, 32);
            lemma_find_byte(s0.push(b), 32);
            lemma_pending(s0);
            if b != 0 && !header_too_long(s0.push(b)) {
                lemma_pending(s0.push(b));
            }
        }
        if b == 0 {
            let text = self.restore();
            self.seen = Ghost(s0.push(b));
            match parse_header_fields(text.as_slice()) {
                Some((k, size)) => {
                    self.fields = Some((k, size));
                    self.header_len = Ghost(s0.len() + 1);
                    self.body_len = 0;
                },
                None => {
                    self.failure = Some(ObjectError::CorruptObject);
                },
            }
        } else {
            self.seen = Ghost(s0.push(b));
            let had_space = self.space_at.is_some();
            if self.in_run && b == 48 {
                self.zeros = self.zeros + 1;
            } else {
                if b == 32 && !had_space {
                    self.space_at = Some(self.head.len());
                }
                self.head.push(b);
                self.in_run = false;
            }
            if !had_space && b == 32 {
                self.in_run = true;
            }
            if self.head.len() >= MAX_HEADER_LEN || self.zeros >= u64::MAX {
                self.failure = Some(ObjectError::CorruptObject);
            }
        }
        assert(body_so_far(self.seen@) =~= Seq::<u8>::empty());
    }

    /// Bytes that follow a complete, well-formed header.
    fn push_body(&mut self, bytes: &[u8]) -> (r: Result<Vec<u8>, ObjectError>)
        requires
            old(self).wf(),
            old(self).failure is None,
            old(self).fields is Some,
        ensures
            final(self).wf(),
            final(self)@ == old(self)@ + bytes@,
            match r {
                Ok(out) => body_so_far(old(self)@) + out@ == body_so_far(final(self)@) && (
                stream_status(final(self)@) is Err ==> out@.len() > 0),
                Err(e) => stream_status(final(self)@) == Err::<(), ObjectError>(e) && body_so_far(
                    final(self)@,
                ) == body_so_far(old(self)@),
            },
    {
        proof {
            lemma_scan_header_extend(self.seen@, bytes@);
        }
        let ghost s0 = self.seen@;
        self.seen = Ghost(s0 + bytes@);
        let size = match self.fields {
            Some((_, size)) => size,
            None => 0,
        };
        let room: u64 = size - self.body_len;
        if (bytes.len() as u64) <= room {
            assert(body_so_far(s0 + bytes@) =~= body_so_far(s0) + bytes@);
            let mut out: Vec<u8> = Vec::new();
            out.extend_from_slice(bytes);
            self.body_len = self.body_len + bytes.len() as u64;
            Ok(out)
        } else {
            let n = room as usize;
            let within = slice_subrange(bytes, 0, n);
            assert(body_so_far(s0 + bytes@) =~= body_so_far(s0) + within@);
            self.failure = Some(ObjectError::SizeMismatch);
            if n == 0 {
                return Err(ObjectError::SizeMismatch);
            }
            let mut out: Vec<u8> = Vec::new();
            out.extend_from_slice(within);
            Ok(out)
        }
    }

    /// Hands over the next bytes of the stream. Returns the body bytes among
    /// them that lie within the declared size, even when the stream goes
    /// wrong after them; the error that the stream shows comes back when no
    /// such byte is left to release.
    pub fn push(&mut self, bytes: &[u8]) -> (r: Result<Vec<u8>, ObjectError>)
        requires
            old(self).wf(),
        ensures
            final(self).wf(),
            final(self)@ == old(self)@ + bytes@,
            match r {
                Ok(out) => body_so_far(old(self)@) + out@ == body_so_far(final(self)@) && (
                stream_status(final(self)@) is Err ==> out@.len() > 0),
                Err(e) => stream_status(final(self)@) == Err::<(), ObjectError>(e) && body_so_far(
                    final(self)@,
                ) == body_so_far(old(self)@),
            },
            stream_status(final(self)@) is Ok && bytes@.len() > 0 ==> stream_budget(final(self)@)
                < stream_budget(old(self)@),
    {
        let ghost s0 = self.seen@;
        let mut i: usize = 0;
        while i < bytes.len() && self.failure.is_none() && self.fields.is_none()
            invariant
                self.wf(),
                i <= bytes.len(),
                self.seen@ == s0 + bytes@.take(i as int),
                body_so_far(s0) == Seq::<u8>::empty() || i == 0,
                i > 0 ==> body_so_far(self.seen@) == Seq::<u8>::empty(),
            decreases bytes.len() - i,
        {
            proof {
                assert(s0 + bytes@.take(i + 1) =~= self.seen@.push(bytes@[i as int]));
            }
            self.push_header_byte(bytes[i]);
            i = i + 1;
        }
        let rest = slice_subrange(bytes, i, bytes.len());
        assert(self.seen@ + rest@ =~= s0 + bytes@);
        if let Some(e) = self.failure {
            proof {
                lemma_stream_status_extend(self.seen@, rest@);
                lemma_scan_header_extend(self.seen@, rest@);
            }
            self.seen = Ghost(s0 + bytes@);
            return Err(e);
        }
        if self.fields.is_none() {
            assert(rest@.len() == 0);
            assert(bytes@.take(i as int) =~= bytes@);
            proof {
                if bytes@.len() > 0 {
                    lemma_stream_budget_decreases(s0, bytes@);
                }
            }
            return Ok(Vec::new());
        }
        let r = self.push_body(rest);
        proof {
            if i > 0 {
                assert(body_so_far(s0) == Seq::<u8>::empty());
            }
            if stream_status(self@) is Ok && bytes@.len() > 0 {
                assert(s0 + bytes@ == self@);
                lemma_stream_budget_decreases(s0, bytes@);
            }
        }
        r
    }

    /// The error that the stream shows so far, if any.
    pub fn check(&self) -> (r: Option<ObjectError>)
        requires
            self.wf(),
        ensures
            r == match stream_status(self@) {
                Ok(()) => None,
                Err(e) => Some(e),
            },
    {
        self.failure
    }

    /// How many decompressed bytes to ask for next: at least one, and never
    /// more than the stream's budget.
    pub fn room(&self, most: usize) -> (r: usize)
        requires
            self.wf(),
            most >= 1,
            stream_status(self@) is Ok,
        ensures
            1 <= r <= most,
            r <= stream_budget(self@),
    {
        match self.fields {
            None => {
                let left: usize = MAX_HEADER_LEN - self.head.len();
                if left < most {
                    left
                } else {
                    most
                }
            },
            Some((_, size)) => {
                let left: u64 = size - self.body_len;
                if left < most as u64 {
                    (left + 1) as usize
                } else {
                    most
                }
            },
        }
    }

    /// Ends the stream: the kind and size when the stream was a complete,
    /// well-formed object, or the error that it shows.
    pub fn finish(&self) -> (r: Result<(Kind, u64), ObjectError>)
        requires
            self.wf(),
        ensures
            r == match decode_stream(self@) {
                Ok((k, body)) => Ok((k, body.len() as u64)),
                Err(e) => Err(e),
            },
    {
        if let Some(e) = self.failure {
            return Err(e);
        }
        match self.fields {
            None => Err(ObjectError::CorruptObject),
            Some((k, size)) => {
                if self.body_len == size {
                    Ok((k, size))
                } else {
                    Err(ObjectError::SizeMismatch)
                }
            },
        }
    }
}

} // verus!
