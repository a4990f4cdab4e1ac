//! The wire format as mathematics: what a frame is, and what decoding a byte
//! sequence yields.
use crate::error::Error;
use vstd::arithmetic::div_mod::{lemma_div_denominator, lemma_fundamental_div_mod};
use vstd::prelude::*;

verus! {

/// High nibble of every type byte this encoder writes.
pub const TYPE_MARKER: u8 = 0xf0;

/// 256 to the power `k`: how many values `k` bytes can hold.
pub open spec fn byte_range(k: nat) -> nat
    decreases k,
{
    if k == 0 {
        1
    } else {
        256 * byte_range((k - 1) as nat)
    }
}

/// How many bytes encode a payload length of `n`: the smallest of 1, 2, 4, 8
/// that holds `n`, and 0 for an empty payload.
pub open spec fn length_class(n: nat) -> nat {
    if n == 0 {
        0
    } else if n < 0x100 {
        1
    } else if n < 0x1_0000 {
        2
    } else if n < 0x1_0000_0000 {
        4
    } else {
        8
    }
}

/// The length classes a decoder accepts.
pub open spec fn is_length_class(c: nat) -> bool {
    c == 0 || c == 1 || c == 2 || c == 4 || c == 8
}

/// The `k` low bytes of `n`, least significant first.
pub open spec fn le_bytes(n: nat, k: nat) -> Seq<u8> {
    Seq::new(k, |i: int| ((n / byte_range(i as nat)) % 256) as u8)
}

/// The unsigned integer whose little-endian encoding is `s`.
pub open spec fn le_value(s: Seq<u8>) -> nat
    decreases s.len(),
{
    if s.len() == 0 {
        0
    } else {
        s[0] as nat + 256 * le_value(s.drop_first())
    }
}

/// The type byte announcing length class `c`.
pub open spec fn type_byte(c: nat) -> u8 {
    (0xf0 + c) as u8
}

/// The length class a type byte announces: its low nibble.
pub open spec fn class_of(b: u8) -> nat {
    (b % 16) as nat
}

/// The header of a frame whose payload has `n` bytes.
pub open spec fn header(n: nat) -> Seq<u8> {
    seq![type_byte(length_class(n))] + le_bytes(n, length_class(n))
}

/// The frame that carries payload `p`.
pub open spec fn frame(p: Seq<u8>) -> Seq<u8> {
    header(p.len()) + p
}

/// The frames of the payloads `ps`, back to back.
pub open spec fn frames(ps: Seq<Seq<u8>>) -> Seq<u8>
    decreases ps.len(),
{
    if ps.len() == 0 {
        seq![]
    } else {
        frame(ps[0]) + frames(ps.drop_first())
    }
}

/// Decodes the header at the start of `s`: the declared payload length and
/// the size of the header.
pub open spec fn parse_header(s: Seq<u8>) -> Result<(nat, nat), Error> {
    if s.len() == 0 {
        Err(Error::UnexpectedEof)
    } else if !is_length_class(class_of(s[0])) {
        Err(Error::InvalidLengthClass)
    } else if s.len() < 1 + class_of(s[0]) {
        Err(Error::UnexpectedEof)
    } else {
        let n = le_value(s.subrange(1, 1 + class_of(s[0]) as int));
        if n > usize::MAX {
            Err(Error::LengthOverflow)
        } else {
            Ok((n, 1 + class_of(s[0])))
        }
    }
}

/// Decodes the frame at the start of `s`: its payload and the number of bytes
/// it spans.
pub open spec fn parse_frame(s: Seq<u8>) -> Result<(Seq<u8>, nat), Error> {
    match parse_header(s) {
        Err(e) => Err(e),
        Ok((n, h)) => if s.len() < h + n {
            Err(Error::UnexpectedEof)
        } else {
            Ok((s.subrange(h as int, (h + n) as int), h + n))
        },
    }
}

/// Prepends `p` to a decoded list, passing an error through.
pub open spec fn prepend(p: Seq<u8>, r: Result<Seq<Seq<u8>>, Error>) -> Result<Seq<Seq<u8>>, Error> {
    match r {
        Ok(ps) => Ok(seq![p] + ps),
        Err(e) => Err(e),
    }
}

/// Decodes the frames of `s` one after another. A header that cannot be
/// decoded ends the list without error; a payload cut short is an error.
pub open spec fn parse_frames(s: Seq<u8>) -> Result<Seq<Seq<u8>>, Error>
    decreases s.len(),
{
    match parse_header(s) {
        Err(_) => Ok(seq![]),
        Ok((n, h)) => if s.len() < h + n {
            Err(Error::UnexpectedEof)
        } else {
            prepend(s.subrange(h as int, (h + n) as int), parse_frames(s.subrange((h + n) as int, s.len() as int)))
        },
    }
}

/// What is left of `s` once `parse_frames` stops: the bytes from the first
/// header that cannot be decoded, or nothing after a payload cut short.
pub open spec fn frames_rest(s: Seq<u8>) -> Seq<u8>
    decreases s.len(),
{
    match parse_header(s) {
        Err(_) => s,
        Ok((n, h)) => if s.len() < h + n {
            Seq::empty()
        } else {
            frames_rest(s.subrange((h + n) as int, s.len() as int))
        },
    }
}

/// Decodes one frame at the start of `s` and then the frames of its payload.
/// A missing or cut-short outer frame is an unexpected end of input.
pub open spec fn parse_list(s: Seq<u8>) -> Result<Seq<Seq<u8>>, Error> {
    match parse_frame(s) {
        Err(_) => Err(Error::UnexpectedEof),
        Ok((p, _)) => parse_frames(p),
    }
}

/// Decodes the frame at the start of `s` into a destination of `cap` bytes:
/// the payload and the number of bytes the frame spans.
pub open spec fn parse_into(s: Seq<u8>, cap: nat) -> Result<(Seq<u8>, nat), Error> {
    match parse_header(s) {
        Err(e) => Err(e),
        Ok((n, h)) => if n > cap {
            Err(Error::BufferTooSmall)
        } else {
            parse_frame(s)
        },
    }
}

/// What is left of `s` after reading one frame: everything when its header
/// cannot be decoded, nothing when its payload is cut short.
pub open spec fn rest_after_frame(s: Seq<u8>) -> Seq<u8> {
    match parse_header(s) {
        Err(_) => s,
        Ok((n, h)) => if s.len() < h + n {
            Seq::empty()
        } else {
            s.subrange((h + n) as int, s.len() as int)
        },
    }
}

/// What is left of `s` after reading one frame into a destination of `cap`
/// bytes: a payload too long for it is left unread, after its header.
pub open spec fn rest_after_into(s: Seq<u8>, cap: nat) -> Seq<u8> {
    match parse_header(s) {
        Err(_) => s,
        Ok((n, h)) => if n > cap {
            s.subrange(h as int, s.len() as int)
        } else {
            rest_after_frame(s)
        },
    }
}

/// Puts the items `l` in front of a decoded list, passing an error through.
pub open spec fn extend(l: Seq<Seq<u8>>, r: Result<Seq<Seq<u8>>, Error>) -> Result<Seq<Seq<u8>>, Error> {
    match r {
        Ok(ps) => Ok(l + ps),
        Err(e) => Err(e),
    }
}

/// The views of a list of byte vectors.
pub open spec fn views(list: Seq<Vec<u8>>) -> Seq<Seq<u8>> {
    list.map_values(|v: Vec<u8>| v@)
}

/// More bytes hold at least as many values, and never fewer than one.
pub proof fn lemma_byte_range_monotone(a: nat, b: nat)
    requires
        a <= b,
    ensures
        1 <= byte_range(a) <= byte_range(b),
    decreases b,
{
    if b == 0 {
    } else if a == b {
        lemma_byte_range_monotone(0, (b - 1) as nat);
    } else {
        lemma_byte_range_monotone(a, (b - 1) as nat);
    }
}

/// The ranges of the length classes, as numbers.
pub proof fn lemma_byte_range_values()
    ensures
        byte_range(1) == 0x100,
        byte_range(2) == 0x1_0000,
        byte_range(4) == 0x1_0000_0000,
        byte_range(8) == 0x1_0000_0000_0000_0000,
{
    reveal_with_fuel(byte_range, 9);
}

/// A length below `2^64` fits in the bytes of its class.
pub proof fn lemma_length_fits(n: nat)
    requires
        n <= u64::MAX,
    ensures
        is_length_class(length_class(n)),
        n < byte_range(length_class(n)),
        length_class(n) <= 8,
{
    lemma_byte_range_values();
}

/// Dropping the lowest byte of `n` shifts its encoding by one.
proof fn lemma_le_bytes_drop_first(n: nat, k: nat)
    requires
        k > 0,
    ensures
        le_bytes(n, k).drop_first() == le_bytes(n / 256, (k - 1) as nat),
        le_bytes(n, k)[0] == (n % 256) as u8,
{
    let a = le_bytes(n, k).drop_first();
    let b = le_bytes(n / 256, (k - 1) as nat);
    assert forall|i: int| 0 <= i < b.len() implies a[i] == b[i] by {
        lemma_byte_range_monotone(0, i as nat);
        lemma_div_denominator(n as int, 256, byte_range(i as nat) as int);
        assert(byte_range((i + 1) as nat) == 256 * byte_range(i as nat));
    }
    assert(a =~= b);
    assert(byte_range(0) == 1);
    assert(n / 1 == n);
}

/// Encoding a value that fits and decoding it gives the value back.
pub proof fn lemma_le_round_trip(n: nat, k: nat)
    requires
        n < byte_range(k),
    ensures
        le_bytes(n, k).len() == k,
        le_value(le_bytes(n, k)) == n,
    decreases k,
{
    if k == 0 {
    } else {
        lemma_le_bytes_drop_first(n, k);
        lemma_fundamental_div_mod(n as int, 256);
        assert(n / 256 < byte_range((k - 1) as nat)) by (nonlinear_arith)
            requires
                n < 256 * byte_range((k - 1) as nat),
        ;
        lemma_le_round_trip(n / 256, (k - 1) as nat);
    }
}

/// A little-endian value is below the range of its byte count.
pub proof fn lemma_le_value_bound(s: Seq<u8>)
    ensures
        le_value(s) < byte_range(s.len()),
    decreases s.len(),
{
    if s.len() > 0 {
        lemma_le_value_bound(s.drop_first());
        let r = byte_range((s.len() - 1) as nat);
        let v = le_value(s.drop_first());
        assert(s[0] as nat + 256 * v < 256 * r) by (nonlinear_arith)
            requires
                v < r,
                s[0] < 256,
        ;
    }
}

/// Decoding bytes and encoding the value in as many bytes gives them back.
pub proof fn lemma_le_bytes_of_value(s: Seq<u8>)
    ensures
        le_bytes(le_value(s), s.len()) == s,
    decreases s.len(),
{
    if s.len() > 0 {
        let n = le_value(s);
        let t = s.drop_first();
        lemma_le_bytes_of_value(t);
        lemma_le_bytes_drop_first(n, s.len());
        assert(n / 256 == le_value(t) && n % 256 == s[0] as nat) by {
            lemma_fundamental_div_mod(n as int, 256);
            vstd::arithmetic::div_mod::lemma_div_multiples_vanish_fancy(le_value(t) as int, s[0] as int, 256);
            vstd::arithmetic::div_mod::lemma_mod_multiples_vanish(le_value(t) as int, s[0] as int, 256);
            vstd::arithmetic::div_mod::lemma_small_mod(s[0] as nat, 256);
        }
        let e = le_bytes(n, s.len());
        assert(e =~= seq![e[0]] + e.drop_first());
        assert(s =~= seq![s[0]] + t);
    }
}

/// A value below 256 is encoded in one byte as itself.
pub proof fn lemma_le_bytes_single(n: nat)
    requires
        n < 256,
    ensures
        le_bytes(n, 1) == seq![n as u8],
{
    assert(byte_range(0) == 1);
    assert(n / 1 == n);
    assert(le_bytes(n, 1) =~= seq![n as u8]);
}

/// Zero bytes after the end of a little-endian encoding do not change its value.
pub proof fn lemma_le_value_zero_extend(p: Seq<u8>, z: Seq<u8>)
    requires
        forall|i: int| 0 <= i < z.len() ==> z[i] == 0,
    ensures
        le_value(p + z) == le_value(p),
    decreases p.len() + z.len(),
{
    if p.len() > 0 {
        lemma_le_value_zero_extend(p.drop_first(), z);
        assert((p + z).drop_first() =~= p.drop_first() + z);
    } else if z.len() > 0 {
        lemma_le_value_zero_extend(p, z.drop_first());
        assert(p + z =~= z);
        assert(p + z.drop_first() =~= z.drop_first());
    } else {
        assert(p + z =~= p);
    }
}

/// The header of a length that fits in `usize` decodes to that length,
/// whatever follows it.
pub proof fn lemma_header_round_trip(n: nat, rest: Seq<u8>)
    requires
        n <= usize::MAX,
    ensures
        header(n).len() == 1 + length_class(n),
        parse_header(header(n) + rest) == Ok::<(nat, nat), Error>((n, header(n).len())),
{
    let c = length_class(n);
    let s = header(n) + rest;
    lemma_length_fits(n);
    lemma_le_round_trip(n, c);
    assert(class_of(s[0]) == c);
    assert(s.subrange(1, 1 + c as int) =~= le_bytes(n, c));
}

/// Round trip: decoding the frame of a payload, whatever follows it, gives the
/// payload back and consumes exactly the frame.
pub proof fn lemma_frame_round_trip(p: Seq<u8>, rest: Seq<u8>)
    requires
        p.len() <= usize::MAX,
    ensures
        parse_frame(frame(p) + rest) == Ok::<(Seq<u8>, nat), Error>((p, frame(p).len())),
{
    let s = frame(p) + rest;
    let h = header(p.len());
    lemma_header_round_trip(p.len(), p + rest);
    assert(s =~= h + (p + rest));
    assert(s.subrange(h.len() as int, (h.len() + p.len()) as int) =~= p);
}

/// Truncation: every proper prefix of a frame fails to decode with an
/// unexpected end of input; none yields a shorter payload.
pub proof fn lemma_truncated_frame(p: Seq<u8>, k: nat)
    requires
        p.len() <= usize::MAX,
        k < frame(p).len(),
    ensures
        parse_frame(frame(p).take(k as int)) == Err::<(Seq<u8>, nat), Error>(Error::UnexpectedEof),
{
    let s = frame(p).take(k as int);
    let c = length_class(p.len());
    lemma_header_round_trip(p.len(), p);
    lemma_length_fits(p.len());
    if k > 0 {
        assert(s[0] == frame(p)[0]);
        assert(class_of(s[0]) == c);
        if k >= 1 + c {
            assert(s.subrange(1, 1 + c as int) =~= frame(p).subrange(1, 1 + c as int));
            assert((header(p.len()) + p).subrange(1, 1 + c as int) =~= le_bytes(p.len(), c));
            lemma_le_round_trip(p.len(), c);
        }
    }
}

/// The frames of a list followed by one more payload.
pub proof fn lemma_frames_push(ps: Seq<Seq<u8>>, p: Seq<u8>)
    ensures
        frames(ps.push(p)) == frames(ps) + frame(p),
    decreases ps.len(),
{
    if ps.len() == 0 {
        assert(ps.push(p).drop_first() =~= Seq::<Seq<u8>>::empty());
        assert(ps.push(p)[0] == p);
        assert(frames(Seq::<Seq<u8>>::empty()) == Seq::<u8>::empty());
        assert(frames(ps.push(p)) =~= frame(p));
        assert(frames(ps) + frame(p) =~= frame(p));
    } else {
        lemma_frames_push(ps.drop_first(), p);
        assert(ps.push(p).drop_first() =~= ps.drop_first().push(p));
        assert(frames(ps.push(p)) =~= frames(ps) + frame(p));
    }
}

/// Decoding back-to-back frames gives the payloads back, in order.
pub proof fn lemma_frames_round_trip(ps: Seq<Seq<u8>>)
    requires
        forall|i: int| 0 <= i < ps.len() ==> (#[trigger] ps[i]).len() <= usize::MAX,
    ensures
        parse_frames(frames(ps)) == Ok::<Seq<Seq<u8>>, Error>(ps),
    decreases ps.len(),
{
    if ps.len() == 0 {
        assert(parse_header(frames(ps)) is Err);
        assert(ps =~= Seq::<Seq<u8>>::empty());
    } else {
        let p = ps[0];
        let t = ps.drop_first();
        let s = frames(ps);
        let h = header(p.len());
        lemma_frames_round_trip(t);
        lemma_header_round_trip(p.len(), p + frames(t));
        assert(s =~= h + (p + frames(t)));
        assert(s.subrange(h.len() as int, (h.len() + p.len()) as int) =~= p);
        assert(s.subrange((h.len() + p.len()) as int, s.len() as int) =~= frames(t));
        assert(seq![p] + t =~= ps);
    }
}

/// Structured round trip: a list written as one frame whose payload holds the
/// frames of its items decodes to the same items in the same order.
pub proof fn lemma_list_round_trip(ps: Seq<Seq<u8>>, rest: Seq<u8>)
    requires
        forall|i: int| 0 <= i < ps.len() ==> (#[trigger] ps[i]).len() <= usize::MAX,
        frames(ps).len() <= usize::MAX,
    ensures
        parse_list(frame(frames(ps)) + rest) == Ok::<Seq<Seq<u8>>, Error>(ps),
{
    lemma_frame_round_trip(frames(ps), rest);
    lemma_frames_round_trip(ps);
}

/// Re-encoding: a frame whose type byte is the one the encoder writes for its
/// payload length is reproduced byte for byte by encoding its decoded payload.
pub proof fn lemma_reencode_identical(s: Seq<u8>)
    requires
        parse_frame(s) is Ok,
        s[0] == type_byte(length_class(parse_frame(s)->Ok_0.0.len())),
    ensures
        frame(parse_frame(s)->Ok_0.0) == s.take(parse_frame(s)->Ok_0.1 as int),
{
    let (p, len) = parse_frame(s)->Ok_0;
    let c = class_of(s[0]);
    let lb = s.subrange(1, 1 + c as int);
    lemma_le_bytes_of_value(lb);
    lemma_length_fits(p.len());
    assert(c == length_class(p.len()));
    assert(frame(p) =~= s.take(len as int));
}

} // verus!
