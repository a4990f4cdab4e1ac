//! Decoding frames from a byte buffer.
use crate::error::Error;
use crate::format::{
    byte_range, extend, le_value, lemma_byte_range_monotone, lemma_byte_range_values,
    lemma_le_value_bound, lemma_le_value_zero_extend, parse_frame, parse_frames, parse_header,
    parse_into, parse_list, frames_rest, rest_after_frame, rest_after_into, views,
};
use vstd::prelude::*;

verus! {

/// Reads frames, in order, from the byte buffer it owns.
pub struct TlvReader {
    data: Vec<u8>,
    pos: usize,
}

impl View for TlvReader {
    type V = Seq<u8>;

    /// The bytes not read yet.
    closed spec fn view(&self) -> Seq<u8> {
        self.data@.subrange(self.pos as int, self.data@.len() as int)
    }
}

/// The little-endian value of the `k` bytes of `src` from `start` on.
fn decode_le(src: &[u8], start: usize, k: usize) -> (r: u64)
    requires
        start + k <= src@.len(),
        k <= 8,
    ensures
        r as nat == le_value(src@.subrange(start as int, start + k)),
{
    let ghost b = src@.subrange(start as int, start + k);
    let mut acc: u64 = 0;
    let mut i: usize = k;
    let len = src.len();
    proof {
        assert(b.subrange(k as int, k as int) =~= Seq::<u8>::empty());
    }
    while i > 0
        invariant
            i <= k,
            k <= 8,
            len == src@.len(),
            start + k <= src@.len(),
            b == src@.subrange(start as int, start + k),
            acc as nat == le_value(b.subrange(i as int, k as int)),
        decreases i,
    {
        let ghost next = b.subrange(i - 1, k as int);
        proof {
            assert(next.drop_first() =~= b.subrange(i as int, k as int));
            lemma_le_value_bound(next);
            lemma_byte_range_monotone(next.len(), 8);
            lemma_byte_range_values();
        }
        i = i - 1;
        acc = acc * 256 + src[start + i] as u64;
    }
    proof {
        assert(b.subrange(0, k as int) =~= b);
    }
    acc
}

impl TlvReader {
    #[verifier::type_invariant]
    spec fn inv(&self) -> bool {
        self.pos <= self.data@.len()
    }

    /// Reads from the start of `data`.
    pub fn new(data: Vec<u8>) -> (r: Self)
        ensures
            r@ == data@,
    {
        let r = TlvReader { data, pos: 0 };
        proof {
            assert(r@ =~= r.data@);
        }
        r
    }

    /// Gives back the bytes not read yet.
    pub fn into_inner(self) -> (r: Vec<u8>)
        ensures
            r@ == self@,
    {
        proof {
            use_type_invariant(&self);
        }
        let mut out: Vec<u8> = Vec::new();
        let mut i: usize = self.pos;
        while i < self.data.len()
            invariant
                self.pos <= i <= self.data@.len(),
                out@ == self.data@.subrange(self.pos as int, i as int),
            decreases self.data@.len() - i,
        {
            proof {
                assert(self.data@.subrange(self.pos as int, i + 1) =~= self.data@.subrange(
                    self.pos as int,
                    i as int,
                ).push(self.data@[i as int]));
            }
            out.push(self.data[i]);
            i = i + 1;
        }
        out
    }

    /// Whether every byte has been read.
    pub fn is_empty(&self) -> (r: bool)
        ensures
            r == (self@.len() == 0),
    {
        proof {
            use_type_invariant(self);
        }
        self.pos == self.data.len()
    }

    /// Reads a frame header and returns the declared payload length, leaving
    /// the reader at the start of the payload. On failure nothing is read.
    pub fn reader_to_tlv_len(&mut self) -> (r: Result<usize, Error>)
        ensures
            match parse_header(old(self)@) {
                Ok((n, h)) => r == Ok::<usize, Error>(n as usize) && final(self)@ == old(
                    self,
                )@.subrange(h as int, old(self)@.len() as int),
                Err(e) => r == Err::<usize, Error>(e) && final(self)@ == old(self)@,
            },
    {
        proof {
            use_type_invariant(&*self);
        }
        let ghost s = self@;
        if self.pos >= self.data.len() {
            return Err(Error::UnexpectedEof);
        }
        let c = (self.data[self.pos] % 16) as usize;
        proof {
            assert(s[0] == self.data@[self.pos as int]);
        }
        if !(c == 0 || c == 1 || c == 2 || c == 4 || c == 8) {
            return Err(Error::InvalidLengthClass);
        }
        if self.data.len() - self.pos < 1 + c {
            return Err(Error::UnexpectedEof);
        }
        let n = decode_le(self.data.as_slice(), self.pos + 1, c);
        proof {
            assert(s.subrange(1, 1 + c as int) =~= self.data@.subrange(
                self.pos + 1,
                self.pos + 1 + c,
            ));
        }
        if n > usize::MAX as u64 {
            return Err(Error::LengthOverflow);
        }
        self.pos = self.pos + 1 + c;
        proof {
            assert(self@ =~= s.subrange(1 + c as int, s.len() as int));
        }
        Ok(n as usize)
    }

    /// Reads the next frame and returns its payload.
    ///
    /// A header that cannot be read ends the frames: `None`, and nothing is
    /// read. A payload cut short is an error, after which nothing is left.
    pub fn next(&mut self) -> (r: Option<Result<Vec<u8>, Error>>)
        ensures
            parse_header(old(self)@) is Err ==> r is None,
            parse_header(old(self)@) is Ok && parse_frame(old(self)@) is Err ==> r == Some(
                Err::<Vec<u8>, Error>(parse_frame(old(self)@)->Err_0),
            ),
            parse_frame(old(self)@) is Ok ==> r is Some && r->Some_0 is Ok && r->Some_0->Ok_0@
                == parse_frame(old(self)@)->Ok_0.0,
            final(self)@ == rest_after_frame(old(self)@),
    {
        let ghost s = self@;
        let n = match self.reader_to_tlv_len() {
            Ok(n) => n,
            Err(_) => return None,
        };
        proof {
            use_type_invariant(&*self);
        }
        let ghost h = parse_header(s)->Ok_0.1;
        let ghost after = self@;
        assert(after.len() == self.data@.len() - self.pos);
        if self.data.len() - self.pos < n {
            self.pos = self.data.len();
            proof {
                assert(self@ =~= Seq::<u8>::empty());
            }
            return Some(Err(Error::UnexpectedEof));
        }
        let mut v: Vec<u8> = Vec::with_capacity(n);
        let start = self.pos;
        let len = self.data.len();
        let mut i: usize = 0;
        while i < n
            invariant
                i <= n,
                start + n <= len,
                len == self.data@.len(),
                after == self.data@.subrange(start as int, len as int),
                v@ == self.data@.subrange(start as int, start + i),
            decreases n - i,
        {
            proof {
                assert(self.data@.subrange(start as int, start + i + 1) =~= v@.push(
                    self.data@[start + i],
                ));
            }
            v.push(self.data[start + i]);
            i = i + 1;
        }
        self.pos = start + n;
        proof {
            assert(v@ =~= s.subrange(h as int, h + n));
            assert(self@ =~= after.subrange(n as int, after.len() as int));
            assert(after.subrange(n as int, after.len() as int) =~= s.subrange(h + n, s.len() as int));
        }
        Some(Ok(v))
    }

    /// Reads the next frame into the front of `buf` and returns the payload
    /// length; the rest of `buf` is left as it was.
    ///
    /// A payload longer than `buf` is refused after its header is read, and
    /// nothing is written to `buf` on any failure.
    pub fn read_slice(&mut self, buf: &mut [u8]) -> (r: Result<usize, Error>)
        ensures
            match parse_into(old(self)@, old(buf)@.len()) {
                Ok((p, k)) => r == Ok::<usize, Error>(p.len() as usize) && final(buf)@ == p
                    + old(buf)@.subrange(p.len() as int, old(buf)@.len() as int) && final(self)@
                    == old(self)@.subrange(k as int, old(self)@.len() as int),
                Err(e) => r == Err::<usize, Error>(e) && final(buf)@ == old(buf)@,
            },
            final(self)@ == rest_after_into(old(self)@, old(buf)@.len()),
    {
        let ghost s = self@;
        let n = match self.reader_to_tlv_len() {
            Ok(n) => n,
            Err(e) => return Err(e),
        };
        if buf.len() < n {
            return Err(Error::BufferTooSmall);
        }
        proof {
            use_type_invariant(&*self);
        }
        let ghost h = parse_header(s)->Ok_0.1;
        let ghost after = self@;
        assert(after.len() == self.data@.len() - self.pos);
        if self.data.len() - self.pos < n {
            self.pos = self.data.len();
            return Err(Error::UnexpectedEof);
        }
        let ghost orig = buf@;
        let start = self.pos;
        let len = self.data.len();
        let mut i: usize = 0;
        while i < n
            invariant
                i <= n,
                n <= buf@.len(),
                buf@.len() == orig.len(),
                start + n <= len,
                len == self.data@.len(),
                after == self.data@.subrange(start as int, len as int),
                forall|j: int| 0 <= j < i ==> buf@[j] == self.data@[start + j],
                forall|j: int| i <= j < buf@.len() ==> buf@[j] == orig[j],
            decreases n - i,
        {
            buf[i] = self.data[start + i];
            i = i + 1;
        }
        self.pos = start + n;
        proof {
            assert(buf@ =~= s.subrange(h as int, h + n) + orig.subrange(n as int, orig.len() as int));
            assert(self@ =~= after.subrange(n as int, after.len() as int));
            assert(after.subrange(n as int, after.len() as int) =~= s.subrange(h + n, s.len() as int));
        }
        Ok(n)
    }

    /// Reads a frame of at most `width` bytes as a little-endian unsigned
    /// integer: the decoding of every fixed-width integer.
    pub fn read_uint(&mut self, width: usize) -> (r: Result<u64, Error>)
        requires
            width <= 8,
        ensures
            match parse_into(old(self)@, width as nat) {
                Ok((p, k)) => r == Ok::<u64, Error>(le_value(p) as u64) && final(self)@ == old(
                    self,
                )@.subrange(k as int, old(self)@.len() as int),
                Err(e) => r == Err::<u64, Error>(e),
            },
            final(self)@ == rest_after_into(old(self)@, width as nat),
    {
        let mut buf: Vec<u8> = Vec::new();
        let mut i: usize = 0;
        while i < width
            invariant
                i <= width,
                buf@.len() == i,
                forall|j: int| 0 <= j < i ==> buf@[j] == 0,
            decreases width - i,
        {
            buf.push(0);
            i = i + 1;
        }
        let ghost zeros = buf@;
        let res = self.read_slice(buf.as_mut_slice());
        match res {
            Ok(n) => {
                let v = decode_le(buf.as_slice(), 0, width);
                proof {
                    let p = parse_into(old(self)@, width as nat)->Ok_0.0;
                    let z = zeros.subrange(n as int, width as int);
                    assert(buf@.subrange(0, width as int) =~= p + z);
                    lemma_le_value_zero_extend(p, z);
                }
                Ok(v)
            },
            Err(e) => Err(e),
        }
    }

    /// Reads a one-byte frame as a boolean: any byte but 0 is true.
    pub fn read_bool(&mut self) -> (r: Result<bool, Error>)
        ensures
            match parse_into(old(self)@, 1) {
                Ok((p, k)) => r == Ok::<bool, Error>(le_value(p) != 0) && final(self)@ == old(
                    self,
                )@.subrange(k as int, old(self)@.len() as int),
                Err(e) => r == Err::<bool, Error>(e),
            },
            final(self)@ == rest_after_into(old(self)@, 1),
    {
        let ghost s = self@;
        match self.read_uint(1) {
            Ok(v) => {
                proof {
                    let p = parse_into(s, 1)->Ok_0.0;
                    lemma_le_value_bound(p);
                    lemma_byte_range_monotone(p.len(), 8);
                    lemma_byte_range_values();
                }
                Ok(v != 0)
            },
            Err(e) => Err(e),
        }
    }

    /// Reads one frame and returns a reader over its payload: how a container
    /// or a present option is entered.
    pub fn read_nested(&mut self) -> (r: Result<TlvReader, Error>)
        ensures
            parse_frame(old(self)@) is Ok ==> r is Ok && r->Ok_0@ == parse_frame(old(self)@)->Ok_0.0,
            parse_frame(old(self)@) is Err ==> r is Err && r->Err_0 == Error::UnexpectedEof,
            final(self)@ == rest_after_frame(old(self)@),
    {
        match self.next() {
            None => Err(Error::UnexpectedEof),
            Some(Err(e)) => Err(e),
            Some(Ok(buf)) => Ok(TlvReader::new(buf)),
        }
    }

    /// Reads one frame as an option: an empty payload is absent, any other is
    /// present, with a reader over it.
    pub fn read_option(&mut self) -> (r: Result<Option<TlvReader>, Error>)
        ensures
            parse_frame(old(self)@) is Ok ==> r is Ok && (parse_frame(old(self)@)->Ok_0.0.len() == 0
                ==> r->Ok_0 is None) && (
            parse_frame(old(self)@)->Ok_0.0.len() > 0 ==> r->Ok_0 is Some && r->Ok_0->Some_0@
                == parse_frame(old(self)@)->Ok_0.0),
            parse_frame(old(self)@) is Err ==> r is Err && r->Err_0 == Error::UnexpectedEof,
            final(self)@ == rest_after_frame(old(self)@),
    {
        let inner = match self.read_nested() {
            Ok(inner) => inner,
            Err(e) => return Err(e),
        };
        if inner.is_empty() {
            Ok(None)
        } else {
            Ok(Some(inner))
        }
    }

    /// Reads frames until a header cannot be read, and returns their
    /// payloads in order. A payload cut short is an error.
    pub fn read_all(&mut self) -> (r: Result<Vec<Vec<u8>>, Error>)
        ensures
            match parse_frames(old(self)@) {
                Ok(ps) => r is Ok && views(r->Ok_0@) == ps,
                Err(e) => r == Err::<Vec<Vec<u8>>, Error>(e),
            },
            final(self)@ == frames_rest(old(self)@),
    {
        let mut list: Vec<Vec<u8>> = Vec::new();
        proof {
            assert(views(list@) =~= Seq::<Seq<u8>>::empty());
            if parse_frames(self@) is Ok {
                assert(Seq::<Seq<u8>>::empty() + parse_frames(self@)->Ok_0 =~= parse_frames(
                    self@,
                )->Ok_0);
            }
        }
        loop
            invariant
                parse_frames(old(self)@) == extend(views(list@), parse_frames(self@)),
                frames_rest(old(self)@) == frames_rest(self@),
            decreases self@.len(),
        {
            match self.next() {
                None => {
                    proof {
                        assert(views(list@) + Seq::<Seq<u8>>::empty() =~= views(list@));
                    }
                    return Ok(list);
                },
                Some(Err(e)) => {
                    return Err(e);
                },
                Some(Ok(item)) => {
                    proof {
                        let l = views(list@);
                        let tail = parse_frames(self@);
                        assert(views(list@.push(item)) =~= l.push(item@));
                        if tail is Ok {
                            assert(l + (seq![item@] + tail->Ok_0) =~= l.push(item@) + tail->Ok_0);
                        }
                    }
                    list.push(item);
                },
            }
        }
    }

    /// Reads one frame and returns the payloads of the frames inside it, in
    /// order.
    pub fn read_list(&mut self) -> (r: Result<Vec<Vec<u8>>, Error>)
        ensures
            match parse_list(old(self)@) {
                Ok(ps) => r is Ok && views(r->Ok_0@) == ps,
                Err(e) => r == Err::<Vec<Vec<u8>>, Error>(e),
            },
            final(self)@ == rest_after_frame(old(self)@),
    {
        let mut nested = match self.read_nested() {
            Ok(nested) => nested,
            Err(e) => return Err(e),
        };
        nested.read_all()
    }
}

impl From<Vec<u8>> for TlvReader {
    /// Reads from the start of `data`.
    fn from(data: Vec<u8>) -> (r: Self)
        ensures
            r@ == data@,
    {
        let r = TlvReader { data, pos: 0 };
        proof {
            assert(r@ =~= r.data@);
        }
        r
    }
}

impl vstd::std_specs::convert::FromSpecImpl<Vec<u8>> for TlvReader {
    open spec fn obeys_from_spec() -> bool {
        true
    }

    closed spec fn from_spec(v: Vec<u8>) -> Self {
        TlvReader { data: v, pos: 0 }
    }
}

} // verus!
