//! Encoding payloads as frames appended to a byte buffer.
use crate::error::Error;
use crate::format::{
    byte_range, frame, frames, header, le_bytes, lemma_byte_range_monotone, lemma_frames_push,
    lemma_le_bytes_single,
    length_class, type_byte, views, TYPE_MARKER,
};
use vstd::arithmetic::div_mod::lemma_div_denominator;
use vstd::prelude::*;

verus! {

/// Appends frames to the byte buffer it owns.
pub struct TlvWriter {
    writer: Vec<u8>,
}

impl View for TlvWriter {
    type V = Seq<u8>;

    /// Everything written so far, including what the buffer held at the start.
    closed spec fn view(&self) -> Seq<u8> {
        self.writer@
    }
}

/// The length class of `len`, computed.
fn class_for(len: usize) -> (r: u8)
    ensures
        r as nat == length_class(len as nat),
        r <= 8,
{
    if len == 0 {
        0
    } else if len < 0x100 {
        1
    } else if len < 0x1_0000 {
        2
    } else if (len as u64) < 0x1_0000_0000u64 {
        4
    } else {
        8
    }
}

/// Appends the `k` low bytes of `n`, least significant first.
fn push_le_bytes(out: &mut Vec<u8>, n: u64, k: usize)
    ensures
        final(out)@ == old(out)@ + le_bytes(n as nat, k as nat),
{
    let ghost start = out@;
    let mut v: u64 = n;
    let mut i: usize = 0;
    proof {
        assert(byte_range(0) == 1);
        assert(le_bytes(n as nat, 0) =~= Seq::<u8>::empty());
        assert(out@ =~= start + le_bytes(n as nat, 0));
    }
    while i < k
        invariant
            i <= k,
            out@ == start + le_bytes(n as nat, i as nat),
            v as nat == n as nat / byte_range(i as nat),
        decreases k - i,
    {
        proof {
            lemma_byte_range_monotone(0, i as nat);
            lemma_div_denominator(n as int, byte_range(i as nat) as int, 256);
            assert(byte_range((i + 1) as nat) == 256 * byte_range(i as nat));
            assert(le_bytes(n as nat, (i + 1) as nat) =~= le_bytes(n as nat, i as nat).push(
                (v % 256) as u8,
            ));
        }
        out.push((v % 256) as u8);
        v = v / 256;
        i = i + 1;
    }
}

/// Appends the bytes of `buf`.
fn push_all(out: &mut Vec<u8>, buf: &[u8])
    ensures
        final(out)@ == old(out)@ + buf@,
{
    let ghost start = out@;
    let mut i: usize = 0;
    while i < buf.len()
        invariant
            i <= buf@.len(),
            out@ == start + buf@.take(i as int),
        decreases buf@.len() - i,
    {
        proof {
            assert(buf@.take((i + 1) as int) =~= buf@.take(i as int).push(buf@[i as int]));
        }
        out.push(buf[i]);
        i = i + 1;
    }
    proof {
        assert(buf@.take(i as int) =~= buf@);
    }
}

impl TlvWriter {
    /// Wraps a buffer; frames are appended after what it already holds.
    pub fn new(writer: Vec<u8>) -> (r: Self)
        ensures
            r@ == writer@,
    {
        TlvWriter { writer }
    }

    /// Gives back the buffer with everything written to it.
    pub fn into_inner(self) -> (r: Vec<u8>)
        ensures
            r@ == self@,
    {
        self.writer
    }

    /// Appends the header of a frame whose payload has `len` bytes, and
    /// returns how many bytes hold the length.
    pub fn bytes_len_to_writer(writer: &mut Vec<u8>, len: usize) -> (r: Result<usize, Error>)
        ensures
            r == Ok::<usize, Error>(length_class(len as nat) as usize),
            final(writer)@ == old(writer)@ + header(len as nat),
    {
        let class = class_for(len);
        let ghost start = writer@;
        writer.push(TYPE_MARKER + class);
        push_le_bytes(writer, len as u64, class as usize);
        proof {
            assert(TYPE_MARKER + class == type_byte(class as nat));
            assert(writer@ =~= start + header(len as nat));
        }
        Ok(class as usize)
    }

    /// Appends the frame of `buf`, and returns the payload length.
    pub fn bytes_to_writer(writer: &mut Vec<u8>, buf: &[u8]) -> (r: Result<usize, Error>)
        ensures
            r == Ok::<usize, Error>(buf@.len() as usize),
            final(writer)@ == old(writer)@ + frame(buf@),
    {
        let ghost start = writer@;
        let _ = TlvWriter::bytes_len_to_writer(writer, buf.len());
        push_all(writer, buf);
        proof {
            assert(writer@ =~= start + frame(buf@));
        }
        Ok(buf.len())
    }

    /// Appends the frame of `buf`, and returns the payload length.
    pub fn write(&mut self, buf: &[u8]) -> (r: Result<usize, Error>)
        ensures
            r == Ok::<usize, Error>(buf@.len() as usize),
            final(self)@ == old(self)@ + frame(buf@),
    {
        TlvWriter::bytes_to_writer(&mut self.writer, buf)
    }

    /// Appends a frame holding the `width` low bytes of `v`, least
    /// significant first: the encoding of every fixed-width integer.
    pub fn write_uint(&mut self, v: u64, width: usize) -> (r: Result<usize, Error>)
        ensures
            r == Ok::<usize, Error>(width),
            final(self)@ == old(self)@ + frame(le_bytes(v as nat, width as nat)),
    {
        let mut bytes: Vec<u8> = Vec::new();
        push_le_bytes(&mut bytes, v, width);
        proof {
            assert(bytes@ =~= le_bytes(v as nat, width as nat));
        }
        self.write(bytes.as_slice())
    }

    /// Appends a frame holding `n` as eight little-endian bytes.
    pub fn write_usize(&mut self, n: usize) -> (r: Result<usize, Error>)
        ensures
            r == Ok::<usize, Error>(8),
            final(self)@ == old(self)@ + frame(le_bytes(n as nat, 8)),
    {
        self.write_uint(n as u64, 8)
    }

    /// Appends a one-byte frame: 1 for true, 0 for false.
    pub fn write_bool(&mut self, v: bool) -> (r: Result<usize, Error>)
        ensures
            r == Ok::<usize, Error>(1),
            final(self)@ == old(self)@ + frame(seq![if v { 1u8 } else { 0u8 }]),
    {
        let b: u64 = if v { 1 } else { 0 };
        proof {
            lemma_le_bytes_single(b as nat);
        }
        self.write_uint(b, 1)
    }

    /// Appends a one-byte frame holding the low eight bits of `c`.
    pub fn write_char(&mut self, c: char) -> (r: Result<usize, Error>)
        ensures
            r == Ok::<usize, Error>(1),
            final(self)@ == old(self)@ + frame(seq![(c as u32 % 256) as u8]),
    {
        let low = (c as u32 % 256) as u64;
        proof {
            lemma_le_bytes_single(low as nat);
        }
        self.write_uint(low, 1)
    }

    /// Appends one frame whose payload is everything `inner` wrote: how a
    /// present option and a container are carried.
    pub fn write_nested(&mut self, inner: TlvWriter) -> (r: Result<usize, Error>)
        ensures
            r == Ok::<usize, Error>(inner@.len() as usize),
            final(self)@ == old(self)@ + frame(inner@),
    {
        let bytes = inner.into_inner();
        self.write(bytes.as_slice())
    }

    /// Appends one frame whose payload is the frames of the items of `list`,
    /// back to back, and returns that payload's length.
    pub fn write_list(&mut self, list: &[Vec<u8>]) -> (r: Result<usize, Error>)
        ensures
            r == Ok::<usize, Error>(frames(views(list@)).len() as usize),
            final(self)@ == old(self)@ + frame(frames(views(list@))),
    {
        let mut inner: Vec<u8> = Vec::new();
        let mut i: usize = 0;
        while i < list.len()
            invariant
                i <= list@.len(),
                inner@ == frames(views(list@).take(i as int)),
            decreases list@.len() - i,
        {
            proof {
                lemma_frames_push(views(list@).take(i as int), list@[i as int]@);
                assert(views(list@).take((i + 1) as int) =~= views(list@).take(i as int).push(
                    list@[i as int]@,
                ));
            }
            let _ = TlvWriter::bytes_to_writer(&mut inner, list[i].as_slice());
            i = i + 1;
        }
        proof {
            assert(views(list@).take(i as int) =~= views(list@));
        }
        self.write(inner.as_slice())
    }
}

} // verus!
