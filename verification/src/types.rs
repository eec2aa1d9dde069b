//! The value types of the Terraria wire format, and reading and writing
//! them: colours, and texts with their length before them.

use crate::outside::{lossy_text, read_u16_le, read_u8, string_from_utf8_lossy};
use vstd::prelude::*;
use vstd::slice::slice_subrange;
use vstd::string::StringSliceAdditionalSpecFns;
use vstd::utf8::encode_utf8;

verus! {

/// A colour: red, green, blue.
pub type Rgb = (u8, u8, u8);

/// Why bytes could not be read as, or a value not be written as, a packet.
#[derive(Debug, Clone, Copy, PartialEq, Eq, Structural)]
pub enum PacketError {
    /// The bytes end before the value does.
    UnexpectedEof,
    /// The frame announces more bytes than there are, or fewer than its own
    /// length field has.
    TooShort,
    /// The length byte of a text is less than 2.
    BadLength,
    /// The length of a text goes on after its fifth byte.
    LengthOverflow,
    /// The body does not fit a frame, whose length is a 16-bit number.
    TooLong,
    /// The bytes are not what this kind of packet holds.
    Malformed,
}

/// The most bytes that the length of a text is read from.
pub const MAX_LENGTH_BYTES: usize = 5;

/// The length of a text as it is written: seven bits to a byte, low bits
/// first, the high bit set in every byte but the last.
pub open spec fn length_prefix(n: nat) -> Seq<u8>
    decreases n,
{
    if n < 128 {
        seq![n as u8]
    } else {
        seq![(n % 128 + 128) as u8] + length_prefix(n / 128)
    }
}

/// A text as it is written: its length in bytes, then the bytes.
pub open spec fn prefixed(bytes: Seq<u8>) -> Seq<u8> {
    length_prefix(bytes.len()) + bytes
}

/// A length read from the start of `s`, from at most `limit` bytes: the
/// length and the number of bytes it was read from.
pub open spec fn decode_length(s: Seq<u8>, limit: nat) -> Result<(nat, int), PacketError>
    decreases limit,
{
    if limit == 0 {
        Err(PacketError::LengthOverflow)
    } else if s.len() == 0 {
        Err(PacketError::UnexpectedEof)
    } else if s[0] < 128 {
        Ok((s[0] as nat, 1))
    } else {
        match decode_length(s.skip(1), (limit - 1) as nat) {
            Ok((n, used)) => Ok(((s[0] - 128 + 128 * n) as nat, used + 1)),
            Err(e) => Err(e),
        }
    }
}

/// A text read from the start of `s` as it is written: the bytes of the
/// text and the number of bytes read.
pub open spec fn decode_prefixed(s: Seq<u8>) -> Result<(Seq<u8>, int), PacketError> {
    match decode_length(s, MAX_LENGTH_BYTES as nat) {
        Err(e) => Err(e),
        Ok((n, used)) => if s.len() - used < n {
            Err(PacketError::UnexpectedEof)
        } else {
            Ok((s.subrange(used, used + n), used + n))
        },
    }
}

/// A text read from the start of `s` the way a scan reads it: the first byte
/// is the length of the text plus 2. The bytes of the text and the number of
/// bytes read.
pub open spec fn decode_scanned(s: Seq<u8>) -> Result<(Seq<u8>, int), PacketError> {
    if s.len() == 0 {
        Err(PacketError::UnexpectedEof)
    } else if s[0] < 2 {
        Err(PacketError::BadLength)
    } else if s.len() - 1 < s[0] - 2 {
        Err(PacketError::UnexpectedEof)
    } else {
        Ok((s.subrange(1, s[0] - 1), s[0] - 1))
    }
}

/// The written length of `n` takes as many bytes as `n` has groups of seven
/// bits, and at least one.
pub open spec fn length_prefix_len(n: nat) -> nat
    decreases n,
{
    if n < 128 {
        1
    } else {
        1 + length_prefix_len(n / 128)
    }
}

/// A written length is read back, whatever follows it, where the limit
/// allows for its bytes.
pub proof fn lemma_length_round_trip(n: nat, rest: Seq<u8>, limit: nat)
    requires
        length_prefix_len(n) <= limit,
    ensures
        length_prefix(n).len() == length_prefix_len(n),
        decode_length(length_prefix(n) + rest, limit) == Ok::<(nat, int), PacketError>(
            (n, length_prefix_len(n) as int),
        ),
    decreases n,
{
    let written = length_prefix(n) + rest;
    if n >= 128 {
        lemma_length_round_trip(n / 128, rest, (limit - 1) as nat);
        assert(written.skip(1) =~= length_prefix(n / 128) + rest);
        assert(written[0] == (n % 128 + 128) as u8);
    } else {
        assert(written[0] == n as u8);
    }
}

/// A length below 2^35 is written in at most five bytes.
pub proof fn lemma_length_prefix_len(n: nat)
    requires
        n < 0x8_0000_0000,
    ensures
        length_prefix_len(n) <= 5,
{
    reveal_with_fuel(length_prefix_len, 6);
}

/// A text of fewer than 2^35 bytes that was written is read back, whatever
/// follows it.
pub proof fn lemma_prefixed_round_trip(bytes: Seq<u8>, rest: Seq<u8>)
    requires
        bytes.len() < 0x8_0000_0000,
    ensures
        decode_prefixed(prefixed(bytes) + rest) == Ok::<(Seq<u8>, int), PacketError>(
            (bytes, prefixed(bytes).len() as int),
        ),
{
    let n = bytes.len();
    lemma_length_prefix_len(n);
    lemma_length_round_trip(n, bytes + rest, 5);
    let s = prefixed(bytes) + rest;
    assert(s =~= length_prefix(n) + (bytes + rest));
    let used = length_prefix_len(n) as int;
    assert(s.subrange(used, used + n) =~= bytes);
}

/// The scan reads a text of at most 253 bytes that stands behind its length
/// plus 2, whatever follows it.
pub proof fn lemma_scanned_reads_length_plus_two(bytes: Seq<u8>, rest: Seq<u8>)
    requires
        bytes.len() <= 253,
    ensures
        decode_scanned(seq![(bytes.len() + 2) as u8] + bytes + rest) == Ok::<
            (Seq<u8>, int),
            PacketError,
        >((bytes, bytes.len() as int + 1)),
{
    let s = seq![(bytes.len() + 2) as u8] + bytes + rest;
    assert(s[0] == (bytes.len() + 2) as u8);
    assert(s.subrange(1, s[0] - 1) =~= bytes);
}

/// The scan does not read back what was written: of a written text of 2 to
/// 127 bytes it reads all but the last two.
pub proof fn lemma_scanned_drops_two(bytes: Seq<u8>, rest: Seq<u8>)
    requires
        2 <= bytes.len() < 128,
    ensures
        decode_scanned(prefixed(bytes) + rest) == Ok::<(Seq<u8>, int), PacketError>(
            (bytes.take(bytes.len() - 2), bytes.len() - 1),
        ),
{
    let s = prefixed(bytes) + rest;
    assert(s[0] == bytes.len() as u8);
    assert(s.subrange(1, s[0] - 1) =~= bytes.take(bytes.len() - 2));
}

/// A place in bytes that are being read.
pub struct Cursor<'a> {
    bytes: &'a [u8],
    position: usize,
}

impl<'a> Cursor<'a> {
    #[verifier::type_invariant]
    spec fn in_bounds(self) -> bool {
        self.position <= self.bytes@.len()
    }

    /// The bytes that have not been read.
    pub closed spec fn unread(&self) -> Seq<u8> {
        self.bytes@.skip(self.position as int)
    }

    /// A cursor before the first of `bytes`.
    pub fn new(bytes: &'a [u8]) -> (cursor: Self)
        ensures
            cursor.unread() == bytes@,
    {
        proof {
            assert(bytes@.skip(0) =~= bytes@);
        }
        Cursor { bytes, position: 0 }
    }

    /// The number of bytes that have not been read.
    pub fn remaining(&self) -> (n: usize)
        ensures
            n == self.unread().len(),
    {
        proof {
            use_type_invariant(self);
        }
        self.bytes.len() - self.position
    }

    /// Reads one byte. At the end nothing is read.
    pub fn read_u8(&mut self) -> (r: Result<u8, PacketError>)
        ensures
            old(self).unread().len() >= 1 ==> r == Ok::<u8, PacketError>(old(self).unread()[0])
                && final(self).unread() == old(self).unread().skip(1),
            old(self).unread().len() < 1 ==> r == Err::<u8, PacketError>(
                PacketError::UnexpectedEof,
            ) && final(self).unread() == old(self).unread(),
    {
        proof {
            use_type_invariant(&*self);
        }
        let rest = slice_subrange(self.bytes, self.position, self.bytes.len());
        proof {
            assert(rest@ =~= self.unread());
        }
        match read_u8(rest) {
            Some(b) => {
                self.position = self.position + 1;
                proof {
                    assert(self.unread() =~= old(self).unread().skip(1));
                }
                Ok(b)
            },
            None => Err(PacketError::UnexpectedEof),
        }
    }

    /// The 16-bit number that stands next, low byte first, if two bytes are
    /// left.
    pub fn peek_u16(&self) -> (n: Option<u16>)
        ensures
            n == if self.unread().len() >= 2 {
                Some((self.unread()[0] + 256 * self.unread()[1]) as u16)
            } else {
                None
            },
    {
        proof {
            use_type_invariant(self);
        }
        let rest = slice_subrange(self.bytes, self.position, self.bytes.len());
        proof {
            assert(rest@ =~= self.unread());
        }
        read_u16_le(rest)
    }

    /// Reads a 16-bit number, low byte first. With fewer than two bytes left
    /// nothing is read.
    pub fn read_u16(&mut self) -> (r: Result<u16, PacketError>)
        ensures
            old(self).unread().len() >= 2 ==> r == Ok::<u16, PacketError>(
                (old(self).unread()[0] + 256 * old(self).unread()[1]) as u16,
            ) && final(self).unread() == old(self).unread().skip(2),
            old(self).unread().len() < 2 ==> r == Err::<u16, PacketError>(
                PacketError::UnexpectedEof,
            ) && final(self).unread() == old(self).unread(),
    {
        proof {
            use_type_invariant(&*self);
        }
        let rest = slice_subrange(self.bytes, self.position, self.bytes.len());
        proof {
            assert(rest@ =~= self.unread());
        }
        match read_u16_le(rest) {
            Some(n) => {
                self.position = self.position + 2;
                proof {
                    assert(self.unread() =~= old(self).unread().skip(2));
                }
                Ok(n)
            },
            None => Err(PacketError::UnexpectedEof),
        }
    }

    /// Reads up to `count` bytes: fewer where fewer are left.
    pub fn read(&mut self, count: usize) -> (got: &'a [u8])
        ensures
            got@.len() == if old(self).unread().len() < count {
                old(self).unread().len()
            } else {
                count as nat
            },
            got@ == old(self).unread().take(got@.len() as int),
            final(self).unread() == old(self).unread().skip(got@.len() as int),
    {
        proof {
            use_type_invariant(&*self);
        }
        let left: usize = self.bytes.len() - self.position;
        let n: usize = if left < count {
            left
        } else {
            count
        };
        let got = slice_subrange(self.bytes, self.position, self.position + n);
        proof {
            assert(got@ =~= self.unread().take(n as int));
        }
        self.position = self.position + n;
        proof {
            assert(self.unread() =~= old(self).unread().skip(n as int));
        }
        got
    }

    /// Reads exactly `count` bytes. Where fewer are left nothing is read.
    pub fn read_exact(&mut self, count: usize) -> (r: Result<&'a [u8], PacketError>)
        ensures
            old(self).unread().len() >= count ==> (r matches Ok(got) && got@ == old(
                self,
            ).unread().take(count as int) && final(self).unread() == old(self).unread().skip(
                count as int,
            )),
            old(self).unread().len() < count ==> (r matches Err(e) && e
                == PacketError::UnexpectedEof && final(self).unread() == old(self).unread()),
    {
        if self.remaining() < count {
            return Err(PacketError::UnexpectedEof);
        }
        Ok(self.read(count))
    }

    /// Reads the length of a text as it is written, from at most five
    /// bytes. On a fault nothing is read.
    pub fn read_length(&mut self) -> (r: Result<u64, PacketError>)
        ensures
            match decode_length(old(self).unread(), MAX_LENGTH_BYTES as nat) {
                Ok((n, used)) => r == Ok::<u64, PacketError>(n as u64) && n < 0x8_0000_0000
                    && final(self).unread() == old(self).unread().skip(used),
                Err(e) => r == Err::<u64, PacketError>(e) && final(self).unread() == old(
                    self,
                ).unread(),
            },
    {
        proof {
            use_type_invariant(&*self);
        }
        match self.peek_length() {
            Ok((length, used)) => {
                let size: usize = self.bytes.len();
                assert(self.unread().len() == size - self.position);
                self.position = self.position + used;
                proof {
                    assert(self.unread() =~= old(self).unread().skip(used as int));
                }
                Ok(length)
            },
            Err(e) => Err(e),
        }
    }

    /// The length of a text that stands next, and the number of bytes it is
    /// written in.
    fn peek_length(&self) -> (r: Result<(u64, usize), PacketError>)
        ensures
            match decode_length(self.unread(), MAX_LENGTH_BYTES as nat) {
                Ok((n, used)) => r matches Ok(found) && found.0 == n && found.1 == used && n
                    < 0x8_0000_0000 && 0 < used <= self.unread().len(),
                Err(e) => r == Err::<(u64, usize), PacketError>(e),
            },
    {
        proof {
            use_type_invariant(self);
        }
        let ghost start = self.unread();
        let mut value: u64 = 0;
        let mut scale: u64 = 1;
        let mut at: usize = self.position;
        let mut count: usize = 0;
        proof {
            lemma_pow128(0);
            assert(start.skip(0) =~= start);
            match decode_length(start, MAX_LENGTH_BYTES as nat) {
                Ok((n, used)) => {
                    assert(0 + 1 * n == n) by (nonlinear_arith);
                },
                Err(e) => {},
            }
        }
        loop
            invariant
                self.position <= at <= self.bytes@.len(),
                count <= MAX_LENGTH_BYTES,
                at == self.position + count,
                start == self.bytes@.skip(self.position as int),
                value < scale,
                scale == vstd::arithmetic::power::pow(128, count as nat),
                scale <= 0x8_0000_0000,
                decode_length(start, MAX_LENGTH_BYTES as nat) == match decode_length(
                    start.skip(count as int),
                    (MAX_LENGTH_BYTES - count) as nat,
                ) {
                    Ok((n, used)) => Ok::<(nat, int), PacketError>(
                        ((value + scale * n) as nat, used + count),
                    ),
                    Err(e) => Err(e),
                },
            decreases MAX_LENGTH_BYTES - count,
        {
            let ghost rest = start.skip(count as int);
            if count >= MAX_LENGTH_BYTES {
                return Err(PacketError::LengthOverflow);
            }
            if at >= self.bytes.len() {
                proof {
                    assert(rest.len() == 0);
                }
                return Err(PacketError::UnexpectedEof);
            }
            let b: u8 = self.bytes[at];
            proof {
                assert(rest[0] == b);
                assert(rest.skip(1) =~= start.skip(count + 1));
                lemma_pow128(count as nat);
            }
            if b < 128 {
                let ghost n = b as nat;
                proof {
                    assert(value + scale * n < scale * 128) by (nonlinear_arith)
                        requires
                            value < scale,
                            n < 128,
                    ;
                    assert(scale * 128 <= 0x8_0000_0000 * 128) by (nonlinear_arith)
                        requires
                            scale <= 0x8_0000_0000,
                    ;
                    lemma_pow128_bound(count as nat);
                }
                value = value + scale * (b as u64);
                return Ok((value, count + 1));
            }
            proof {
                let low = (b - 128) as nat;
                assert(value + scale * low < scale * 128) by (nonlinear_arith)
                    requires
                        value < scale,
                        low < 128,
                ;
                assert(scale * 128 <= 0x8_0000_0000 * 128) by (nonlinear_arith)
                    requires
                        scale <= 0x8_0000_0000,
                ;
                match decode_length(rest.skip(1), (MAX_LENGTH_BYTES - count - 1) as nat) {
                    Ok((n, used)) => {
                        assert(value + scale * (low + 128 * n) == value + scale * low + scale * 128
                            * n) by (nonlinear_arith);
                    },
                    Err(e) => {},
                }
                if count + 1 < MAX_LENGTH_BYTES {
                    lemma_pow128_bound((count + 1) as nat);
                }
            }
            value = value + scale * ((b - 128) as u64);
            count = count + 1;
            at = at + 1;
            if count < MAX_LENGTH_BYTES {
                scale = scale * 128;
            } else {
                return Err(PacketError::LengthOverflow);
            }
        }
    }
}

impl<'a> Cursor<'a> {
    /// Reads a text as it is written: its length, then as many bytes. On a
    /// fault nothing is read.
    pub fn read_prefixed(&mut self) -> (r: Result<&'a [u8], PacketError>)
        ensures
            match decode_prefixed(old(self).unread()) {
                Ok((text, used)) => r matches Ok(got) && got@ == text && final(self).unread()
                    == old(self).unread().skip(used),
                Err(e) => r matches Err(f) && f == e && final(self).unread() == old(
                    self,
                ).unread(),
            },
    {
        proof {
            use_type_invariant(&*self);
        }
        let ghost start = self.unread();
        let (length, used) = match self.peek_length() {
            Ok(found) => found,
            Err(e) => {
                return Err(e);
            },
        };
        let size: usize = self.bytes.len();
        assert(self.unread().len() == size - self.position);
        let left: usize = self.remaining() - used;
        if (left as u64) < length {
            return Err(PacketError::UnexpectedEof);
        }
        self.position = self.position + used;
        proof {
            assert(self.unread() =~= start.skip(used as int));
        }
        let got = self.read(length as usize);
        proof {
            assert(got@ =~= start.subrange(used as int, used + length));
            assert(self.unread() =~= start.skip(used + length));
        }
        Ok(got)
    }
}

/// Reading the value types of the wire format.
pub trait TerrariaTypesR {
    /// The bytes that have not been read.
    spec fn pending(&self) -> Seq<u8>;

    /// Reads a text the way a scan reads it: a length byte that is 2 more
    /// than the number of bytes that follow as the text. Bytes that are not
    /// UTF-8 are replaced. On a fault nothing is read.
    fn read_terraria_string(&mut self) -> (r: Result<String, PacketError>)
        ensures
            match decode_scanned(old(self).pending()) {
                Ok((text, used)) => r matches Ok(s) && s@ == lossy_text(text)
                    && final(self).pending() == old(self).pending().skip(used),
                Err(e) => r matches Err(f) && f == e && final(self).pending() == old(
                    self,
                ).pending(),
            },
    ;

    /// Reads a colour: red, green, blue, a byte each. On a fault nothing is
    /// read.
    fn read_terraria_rgb(&mut self) -> (r: Result<Rgb, PacketError>)
        ensures
            old(self).pending().len() >= 3 ==> r == Ok::<Rgb, PacketError>(
                (old(self).pending()[0], old(self).pending()[1], old(self).pending()[2]),
            ) && final(self).pending() == old(self).pending().skip(3),
            old(self).pending().len() < 3 ==> r == Err::<Rgb, PacketError>(
                PacketError::UnexpectedEof,
            ) && final(self).pending() == old(self).pending(),
    ;
}

impl<'a> TerrariaTypesR for Cursor<'a> {
    open spec fn pending(&self) -> Seq<u8> {
        self.unread()
    }

    fn read_terraria_string(&mut self) -> (r: Result<String, PacketError>) {
        let ghost start = self.unread();
        if self.remaining() < 1 {
            return Err(PacketError::UnexpectedEof);
        }
        proof {
            use_type_invariant(&*self);
        }
        let first: u8 = self.bytes[self.position];
        proof {
            assert(start[0] == first);
        }
        if first < 2 {
            return Err(PacketError::BadLength);
        }
        let len: u8 = first - 2;
        if self.remaining() - 1 < len as usize {
            return Err(PacketError::UnexpectedEof);
        }
        let _ = self.read_u8();
        let buf = self.read(len as usize);
        proof {
            assert(buf@ =~= start.subrange(1, first - 1));
            assert(self.unread() =~= start.skip(first - 1));
        }
        Ok(string_from_utf8_lossy(buf))
    }

    fn read_terraria_rgb(&mut self) -> (r: Result<Rgb, PacketError>) {
        let ghost start = self.unread();
        if self.remaining() < 3 {
            return Err(PacketError::UnexpectedEof);
        }
        let r = self.read_u8();
        let g = self.read_u8();
        let b = self.read_u8();
        proof {
            assert(self.unread() =~= start.skip(3));
        }
        match (r, g, b) {
            (Ok(r), Ok(g), Ok(b)) => Ok((r, g, b)),
            _ => Err(PacketError::UnexpectedEof),
        }
    }
}

/// Writing the value types of the wire format.
pub trait TerrariaTypesW {
    /// The bytes that have been written.
    spec fn written(&self) -> Seq<u8>;

    /// Writes a text: the length of its UTF-8 bytes, then the bytes.
    fn write_terraria_string(&mut self, value: String)
        ensures
            final(self).written() == old(self).written() + prefixed(encode_utf8(value@)),
    ;

    /// Writes a colour: red, green, blue, a byte each.
    fn write_terraria_rgb(&mut self, value: Rgb)
        ensures
            final(self).written() == old(self).written() + seq![value.0, value.1, value.2],
    ;
}

/// Appends the length of a text as it is written.
pub fn write_length(out: &mut Vec<u8>, length: usize)
    ensures
        final(out)@ == old(out)@ + length_prefix(length as nat),
{
    let mut len: usize = length;
    let ghost mut done: Seq<u8> = Seq::empty();
    proof {
        assert(out@ + done =~= out@);
        assert(done + length_prefix(len as nat) =~= length_prefix(length as nat));
    }
    while len >= 128
        invariant
            out@ == old(out)@ + done,
            done + length_prefix(len as nat) == length_prefix(length as nat),
        decreases len,
    {
        let b: u8 = (len % 128 + 128) as u8;
        out.push(b);
        proof {
            assert(done.push(b) + length_prefix((len / 128) as nat) =~= done + length_prefix(
                len as nat,
            ));
            done = done.push(b);
            assert(out@ =~= old(out)@ + done);
        }
        len = len / 128;
    }
    out.push(len as u8);
    proof {
        assert(out@ =~= old(out)@ + (done + length_prefix(len as nat)));
    }
}

/// Appends bytes as they are.
pub fn write_bytes(out: &mut Vec<u8>, bytes: &[u8])
    ensures
        final(out)@ == old(out)@ + bytes@,
{
    let mut i: usize = 0;
    proof {
        assert(out@ =~= old(out)@ + bytes@.take(0));
    }
    while i < bytes.len()
        invariant
            0 <= i <= bytes@.len(),
            out@ == old(out)@ + bytes@.take(i as int),
        decreases bytes@.len() - i,
    {
        out.push(bytes[i]);
        proof {
            assert(out@ =~= old(out)@ + bytes@.take(i + 1));
        }
        i += 1;
    }
    proof {
        assert(bytes@.take(i as int) =~= bytes@);
    }
}

impl TerrariaTypesW for Vec<u8> {
    open spec fn written(&self) -> Seq<u8> {
        self@
    }

    fn write_terraria_string(&mut self, value: String) {
        let bytes = value.as_str().as_bytes();
        write_length(self, bytes.len());
        write_bytes(self, bytes);
        proof {
            assert(self@ =~= old(self)@ + prefixed(encode_utf8(value@)));
        }
    }

    fn write_terraria_rgb(&mut self, value: Rgb) {
        self.push(value.0);
        self.push(value.1);
        self.push(value.2);
        proof {
            assert(self@ =~= old(self)@ + seq![value.0, value.1, value.2]);
        }
    }
}

/// Each byte of a length weighs 128 times the one before it.
proof fn lemma_pow128(n: nat)
    ensures
        vstd::arithmetic::power::pow(128, n + 1) == vstd::arithmetic::power::pow(128, n) * 128,
        vstd::arithmetic::power::pow(128, 0) == 1,
{
    vstd::arithmetic::power::lemma_pow0(128);
    vstd::arithmetic::power::lemma_pow1(128);
    vstd::arithmetic::power::lemma_pow_adds(128, n, 1);
}

/// The first five bytes of a length weigh at most 2^28.
proof fn lemma_pow128_bound(n: nat)
    requires
        n < 5,
    ensures
        vstd::arithmetic::power::pow(128, n) <= 0x1000_0000,
{
    lemma_pow128(0);
    lemma_pow128(1);
    lemma_pow128(2);
    lemma_pow128(3);
}

} // verus!
