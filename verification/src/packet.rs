//! The packets of the Terraria protocol, their bodies, and the frames that
//! carry them: a 16-bit length that counts itself, the packet's id, the body.

use crate::outside::{i16_le, lossy_text, u16_le, write_i16_le, write_u16_le};
use crate::parse::{all_digits, digits_value, is_digit, parse_decimal, ZERO};
use crate::types::{
    decode_prefixed, decode_scanned, lemma_prefixed_round_trip, prefixed, write_bytes,
    write_length, Cursor, PacketError, Rgb, TerrariaTypesR, TerrariaTypesW,
};
use vstd::prelude::*;
use vstd::utf8::encode_utf8;

verus! {

/// A packet that a client sends.
pub trait C2STerrariaPacket: Sized {
    const PACKET_ID: u8;

    /// Whether the packet can be written.
    spec fn serializable(&self) -> bool;

    /// The bytes of the packet behind its id.
    spec fn body(&self) -> Seq<u8>;

    fn serialize(self) -> (body: Vec<u8>)
        requires
            self.serializable(),
        ensures
            body@ == self.body(),
    ;
}

/// A packet that can be read from the bytes behind its id.
pub trait S2CTerrariaPacket: Sized {
    /// Why `bytes` are no packet of this kind, if they are none.
    spec fn fault(bytes: Seq<u8>) -> Option<PacketError>;

    /// Whether `packet` is what `bytes` hold.
    spec fn holds(bytes: Seq<u8>, packet: Self) -> bool;

    fn deserialize(bytes: Vec<u8>) -> (r: Result<Box<Self>, PacketError>)
        ensures
            match r {
                Ok(packet) => Self::fault(bytes@) is None && Self::holds(bytes@, *packet),
                Err(e) => Self::fault(bytes@) == Some(e),
            },
    ;
}

/// `n` bytes of zero.
pub open spec fn zeros(n: int) -> Seq<u8> {
    Seq::new(n as nat, |i: int| 0u8)
}

/// A frame: the length of the whole, low byte first, the id, the body.
pub open spec fn frame(id: u8, body: Seq<u8>) -> Seq<u8> {
    u16_le((body.len() + 3) as u16) + seq![id] + body
}

/// The length that the first two bytes announce.
pub open spec fn frame_length(s: Seq<u8>) -> int {
    s[0] + 256 * s[1]
}

/// How many bytes a reader takes behind the length: as many as the length
/// says, or all there are if those are fewer.
pub open spec fn frame_taken(s: Seq<u8>) -> int {
    if frame_length(s) <= s.len() - 2 {
        frame_length(s)
    } else {
        s.len() - 2
    }
}

/// Why `s` does not start with a frame: the length is missing, it is less
/// than the two bytes it takes itself, or more than two bytes that it
/// announces behind itself are missing.
pub open spec fn frame_fault(s: Seq<u8>) -> Option<PacketError> {
    if s.len() < 2 {
        Some(PacketError::UnexpectedEof)
    } else if frame_length(s) < 2 || frame_taken(s) < frame_length(s) - 2 {
        Some(PacketError::TooShort)
    } else {
        None
    }
}

/// What a reader hands on as the body of the frame at the start of `s`: the
/// bytes it took behind the length, filled up with zeros to the announced
/// length, without the first, which is the id.
pub open spec fn frame_body(s: Seq<u8>) -> Seq<u8> {
    (s.subrange(2, 2 + frame_taken(s)) + zeros(frame_length(s) - frame_taken(s))).skip(1)
}

/// Reading framed packets.
pub trait ReadTerrariaPacket {
    /// The bytes that have not been read.
    spec fn incoming(&self) -> Seq<u8>;

    /// Reads a Terraria packet with length prefix, packet id and fields.
    /// The id is passed over unread. A faulty frame leaves every byte
    /// unread; a frame is read whole even if its body is no packet of the
    /// kind asked for.
    fn read_terraria_packet<P: S2CTerrariaPacket>(&mut self) -> (r: Result<P, PacketError>)
        ensures
            match frame_fault(old(self).incoming()) {
                Some(e) => r matches Err(f) && f == e && final(self).incoming() == old(
                    self,
                ).incoming(),
                None => final(self).incoming() == old(self).incoming().skip(
                    2 + frame_taken(old(self).incoming()),
                ) && match r {
                    Ok(packet) => P::fault(frame_body(old(self).incoming())) is None && P::holds(
                        frame_body(old(self).incoming()),
                        packet,
                    ),
                    Err(e) => P::fault(frame_body(old(self).incoming())) == Some(e),
                },
            },
    ;
}

/// Writing framed packets.
pub trait WriteTerrariaPacket {
    /// The bytes that have been written.
    spec fn sent(&self) -> Seq<u8>;

    /// Writes a Terraria packet with length prefix, packet id and fields.
    /// A body of more than 65532 bytes fits no frame: nothing is written.
    fn write_terraria_packet<P: C2STerrariaPacket>(&mut self, packet: P) -> (r: Result<
        (),
        PacketError,
    >)
        requires
            packet.serializable(),
        ensures
            packet.body().len() + 3 <= 0xffff ==> r is Ok && final(self).sent() == old(self).sent()
                + frame(P::PACKET_ID, packet.body()),
            packet.body().len() + 3 > 0xffff ==> r == Err::<(), PacketError>(PacketError::TooLong)
                && final(self).sent() == old(self).sent(),
    ;
}

impl WriteTerrariaPacket for Vec<u8> {
    open spec fn sent(&self) -> Seq<u8> {
        self@
    }

    fn write_terraria_packet<P: C2STerrariaPacket>(&mut self, packet: P) -> (r: Result<
        (),
        PacketError,
    >) {
        let ghost wanted = packet.body();
        let body = packet.serialize();
        if body.len() > 0xffff - 3 {
            return Err(PacketError::TooLong);
        }
        let len: u16 = 2 + 1 + body.len() as u16;
        self.push((len % 256) as u8);
        self.push((len / 256) as u8);
        self.push(P::PACKET_ID);
        write_bytes(self, body.as_slice());
        proof {
            assert(self@ =~= old(self)@ + frame(P::PACKET_ID, wanted));
        }
        Ok(())
    }
}

impl<'a> ReadTerrariaPacket for Cursor<'a> {
    open spec fn incoming(&self) -> Seq<u8> {
        self.unread()
    }

    fn read_terraria_packet<P: S2CTerrariaPacket>(&mut self) -> (r: Result<P, PacketError>) {
        let ghost s = self.unread();
        let len: usize = match self.peek_u16() {
            Some(len) => len as usize,
            None => {
                return Err(PacketError::UnexpectedEof);
            },
        };
        if len < 2 {
            return Err(PacketError::TooShort);
        }
        let left: usize = self.remaining() - 2;
        let n: usize = if len <= left {
            len
        } else {
            left
        };
        if n < len - 2 {
            return Err(PacketError::TooShort);
        }
        let _ = self.read_u16();
        let got = self.read(n);
        proof {
            assert(got@ =~= s.subrange(2, 2 + n));
            assert(self.unread() =~= s.skip(2 + n));
        }
        // The buffer is as long as the frame says, and zero where nothing
        // was read into it; the body is the buffer behind the id.
        let ghost buf = got@ + zeros(len - n);
        let mut body: Vec<u8> = Vec::new();
        let mut i: usize = 1;
        while i < len
            invariant
                1 <= i <= len,
                n <= len,
                got@.len() == n,
                buf == got@ + zeros(len - n),
                body@ == buf.subrange(1, i as int),
            decreases len - i,
        {
            let b: u8 = if i < n {
                got[i]
            } else {
                0
            };
            body.push(b);
            proof {
                assert(body@ =~= buf.subrange(1, i + 1));
            }
            i += 1;
        }
        proof {
            assert(body@ =~= buf.skip(1));
        }
        match P::deserialize(body) {
            Ok(packet) => Ok(*packet),
            Err(e) => Err(e),
        }
    }
}

/// The text `Terraria`, in bytes.
pub open spec fn terraria() -> Seq<u8> {
    seq![0x54u8, 0x65u8, 0x72u8, 0x72u8, 0x61u8, 0x72u8, 0x69u8, 0x61u8]
}

/// The decimal digits of `n`, without a zero before another digit.
pub open spec fn decimal_digits(n: nat) -> Seq<u8>
    decreases n,
{
    if n < 10 {
        seq![(ZERO + n) as u8]
    } else {
        decimal_digits(n / 10).push((ZERO + n % 10) as u8)
    }
}

/// Decimal digits at their shortest: at least one, and no zero before
/// another digit.
pub open spec fn shortest_digits(s: Seq<u8>) -> bool {
    &&& s.len() >= 1
    &&& all_digits(s)
    &&& s.len() == 1 || s[0] != ZERO
}

/// The version that the text of a connect request names: what follows
/// `Terraria`, if it is a number below 2^32 in shortest digits.
pub open spec fn connect_version(text: Seq<u8>) -> Option<u32> {
    if text.len() > 8 && text.take(8) == terraria() && shortest_digits(text.skip(8))
        && digits_value(text.skip(8)) <= u32::MAX {
        Some(digits_value(text.skip(8)) as u32)
    } else {
        None
    }
}

/// The digits of a number are shortest digits that write the number.
pub proof fn lemma_decimal_digits(n: nat)
    ensures
        shortest_digits(decimal_digits(n)),
        digits_value(decimal_digits(n)) == n,
        n > 0 ==> decimal_digits(n)[0] != ZERO,
    decreases n,
{
    let d = decimal_digits(n);
    if n < 10 {
        assert(d.drop_last() =~= Seq::<u8>::empty());
        assert(digits_value(d) == n) by {
            reveal_with_fuel(digits_value, 2);
        }
    } else {
        lemma_decimal_digits(n / 10);
        let front = decimal_digits(n / 10);
        assert(d.drop_last() =~= front);
        assert(d[0] == front[0]);
        assert forall|i: int| 0 <= i < d.len() implies is_digit(#[trigger] d[i]) by {
            if i < front.len() {
                assert(d[i] == front[i]);
            }
        }
    }
}

/// Appends the decimal digits of `n`.
pub fn write_decimal(out: &mut Vec<u8>, n: u32)
    ensures
        final(out)@ == old(out)@ + decimal_digits(n as nat),
    decreases n,
{
    if n >= 10 {
        write_decimal(out, n / 10);
    }
    out.push(0x30 + (n % 10) as u8);
    proof {
        assert(out@ =~= old(out)@ + decimal_digits(n as nat));
    }
}

/// The request that opens a session: the client's version.
#[derive(Debug, Clone, Copy, PartialEq, Eq, Structural)]
pub struct C2SConnect {
    pub version: u32,
}

impl C2STerrariaPacket for C2SConnect {
    const PACKET_ID: u8 = 1;

    open spec fn serializable(&self) -> bool {
        true
    }

    /// The text `Terraria` and the version in decimal, as one text.
    open spec fn body(&self) -> Seq<u8> {
        prefixed(terraria() + decimal_digits(self.version as nat))
    }

    fn serialize(self) -> (body: Vec<u8>) {
        let mut text: Vec<u8> = Vec::new();
        text.push(0x54);
        text.push(0x65);
        text.push(0x72);
        text.push(0x72);
        text.push(0x61);
        text.push(0x72);
        text.push(0x69);
        text.push(0x61);
        proof {
            assert(text@ =~= terraria());
        }
        write_decimal(&mut text, self.version);
        let mut packet: Vec<u8> = Vec::new();
        write_length(&mut packet, text.len());
        write_bytes(&mut packet, text.as_slice());
        proof {
            assert(packet@ =~= prefixed(text@));
        }
        packet
    }
}

/// A connect request can be read as well as written, as a server reads it.
impl S2CTerrariaPacket for C2SConnect {
    /// The bytes must start with a text, written with its length, that
    /// names a version. What follows the text is not looked at.
    open spec fn fault(bytes: Seq<u8>) -> Option<PacketError> {
        match decode_prefixed(bytes) {
            Err(e) => Some(e),
            Ok((text, used)) => if connect_version(text) is None {
                Some(PacketError::Malformed)
            } else {
                None
            },
        }
    }

    open spec fn holds(bytes: Seq<u8>, packet: Self) -> bool {
        decode_prefixed(bytes) matches Ok((text, used)) && connect_version(text) == Some(
            packet.version,
        )
    }

    fn deserialize(bytes: Vec<u8>) -> (r: Result<Box<Self>, PacketError>) {
        let mut c = Cursor::new(bytes.as_slice());
        let text = match c.read_prefixed() {
            Ok(text) => text,
            Err(e) => {
                return Err(e);
            },
        };
        if text.len() <= 8 {
            return Err(PacketError::Malformed);
        }
        if text[0] != 0x54 || text[1] != 0x65 || text[2] != 0x72 || text[3] != 0x72 || text[4]
            != 0x61 || text[5] != 0x72 || text[6] != 0x69 || text[7] != 0x61 {
            proof {
                assert(text@.take(8) != terraria()) by {
                    if text@.take(8) == terraria() {
                        assert(text@.take(8)[0] == terraria()[0]);
                        assert(text@.take(8)[1] == terraria()[1]);
                        assert(text@.take(8)[2] == terraria()[2]);
                        assert(text@.take(8)[3] == terraria()[3]);
                        assert(text@.take(8)[4] == terraria()[4]);
                        assert(text@.take(8)[5] == terraria()[5]);
                        assert(text@.take(8)[6] == terraria()[6]);
                        assert(text@.take(8)[7] == terraria()[7]);
                    }
                }
            }
            return Err(PacketError::Malformed);
        }
        proof {
            assert(text@.take(8) =~= terraria());
            assert(text@.subrange(8, text@.len() as int) =~= text@.skip(8));
            assert(text@.skip(8)[0] == text@[8]);
        }
        let first: u8 = text[8];
        if first < 0x30 || first > 0x39 || (first == ZERO && text.len() > 9) {
            proof {
                if !is_digit(first) {
                    assert(!all_digits(text@.skip(8)));
                }
            }
            return Err(PacketError::Malformed);
        }
        match parse_decimal(text, 8, text.len(), u32::MAX) {
            Some(version) => Ok(Box::new(C2SConnect { version })),
            None => Err(PacketError::Malformed),
        }
    }
}

/// The body of a connect request, with anything behind it, is read back as
/// the request.
pub proof fn lemma_connect_body_round_trip(version: u32, rest: Seq<u8>)
    ensures
        <C2SConnect as S2CTerrariaPacket>::fault((C2SConnect { version }).body() + rest) is None,
        <C2SConnect as S2CTerrariaPacket>::holds(
            (C2SConnect { version }).body() + rest,
            C2SConnect { version },
        ),
        forall|other: C2SConnect| #[trigger]
            <C2SConnect as S2CTerrariaPacket>::holds((C2SConnect { version }).body() + rest, other)
                ==> other == (C2SConnect { version }),
{
    let digits = decimal_digits(version as nat);
    let text = terraria() + digits;
    lemma_decimal_digits(version as nat);
    assert(text.len() < 0x8_0000_0000) by {
        lemma_digits_len(version as nat);
    }
    lemma_prefixed_round_trip(text, rest);
    assert(text.take(8) =~= terraria());
    assert(text.skip(8) =~= digits);
}

/// A number below 2^32 has at most ten digits.
pub proof fn lemma_digits_len(n: nat)
    requires
        n <= u32::MAX,
    ensures
        1 <= decimal_digits(n).len() <= 10,
{
    reveal_with_fuel(decimal_digits, 11);
}

/// A frame of at most 65535 bytes starts with its own length and is not
/// faulty; a reader hands on its body followed by two zeros.
pub proof fn lemma_frame_round_trip(id: u8, body: Seq<u8>)
    requires
        body.len() + 3 <= 0xffff,
    ensures
        frame(id, body).len() == body.len() + 3,
        frame_length(frame(id, body)) == body.len() + 3,
        frame_fault(frame(id, body)) is None,
        frame_taken(frame(id, body)) == body.len() + 1,
        frame_body(frame(id, body)) == body + zeros(2),
{
    let f = frame(id, body);
    let len = (body.len() + 3) as u16;
    assert(f[0] == (len % 256) as u8);
    assert(f[1] == (len / 256) as u8);
    assert(frame_body(f) =~= body + zeros(2));
}

/// A connect request that was written as a frame is read back from the
/// frame as the same request: its version survives the wire.
pub proof fn lemma_connect_round_trip(version: u32)
    ensures
        frame_fault(frame(C2SConnect::PACKET_ID, (C2SConnect { version }).body())) is None,
        <C2SConnect as S2CTerrariaPacket>::fault(
            frame_body(frame(C2SConnect::PACKET_ID, (C2SConnect { version }).body())),
        ) is None,
        forall|read: C2SConnect| #[trigger]
            <C2SConnect as S2CTerrariaPacket>::holds(
                frame_body(frame(C2SConnect::PACKET_ID, (C2SConnect { version }).body())),
                read,
            ) <==> read.version == version,
{
    let body = (C2SConnect { version }).body();
    lemma_digits_len(version as nat);
    lemma_decimal_digits(version as nat);
    let text = terraria() + decimal_digits(version as nat);
    crate::types::lemma_length_prefix_len(text.len());
    crate::types::lemma_length_round_trip(text.len(), Seq::empty(), 5);
    assert(body.len() <= 5 + 18);
    lemma_frame_round_trip(C2SConnect::PACKET_ID, body);
    lemma_connect_body_round_trip(version, zeros(2));
}

/// The answer of a server that lets the client in. Packet ID: 3
#[derive(Debug, Clone, Copy, PartialEq, Eq, Structural)]
pub struct S2CConnectionApproved {
    pub slot: u8,
}

impl S2CTerrariaPacket for S2CConnectionApproved {
    open spec fn fault(bytes: Seq<u8>) -> Option<PacketError> {
        if bytes.len() < 1 {
            Some(PacketError::UnexpectedEof)
        } else {
            None
        }
    }

    /// The slot is the first byte; what follows is not looked at.
    open spec fn holds(bytes: Seq<u8>, packet: Self) -> bool {
        bytes.len() >= 1 && packet.slot == bytes[0]
    }

    fn deserialize(bytes: Vec<u8>) -> (r: Result<Box<Self>, PacketError>) {
        let mut c = Cursor::new(bytes.as_slice());
        let slot: u8 = match c.read_u8() {
            Ok(slot) => slot,
            Err(e) => {
                return Err(e);
            },
        };
        let _ = c.read_u8();
        Ok(Box::new(Self { slot }))
    }
}

/// The answer of a server that turns the client away, with its reason.
/// Packet ID: 2
#[derive(Debug, Clone, PartialEq, Eq)]
pub struct S2CFatalError {
    pub error: String,
}

impl S2CTerrariaPacket for S2CFatalError {
    open spec fn fault(bytes: Seq<u8>) -> Option<PacketError> {
        match decode_scanned(bytes) {
            Err(e) => Some(e),
            Ok(read) => None,
        }
    }

    /// The reason is the text at the start, read the way a scan reads it,
    /// with what is not UTF-8 replaced.
    open spec fn holds(bytes: Seq<u8>, packet: Self) -> bool {
        decode_scanned(bytes) matches Ok((text, used)) && packet.error@ == lossy_text(text)
    }

    fn deserialize(bytes: Vec<u8>) -> (r: Result<Box<Self>, PacketError>) {
        let mut c = Cursor::new(bytes.as_slice());
        match c.read_terraria_string() {
            Ok(error) => Ok(Box::new(Self { error })),
            Err(e) => Err(e),
        }
    }
}

/// The answer of a server that asks for a password. Packet ID: 37
#[derive(Debug, Clone, Copy, PartialEq, Eq, Structural)]
pub struct S2CPasswordRequired;

impl S2CTerrariaPacket for S2CPasswordRequired {
    /// Any bytes will do: the packet holds nothing.
    open spec fn fault(bytes: Seq<u8>) -> Option<PacketError> {
        None
    }

    open spec fn holds(bytes: Seq<u8>, packet: Self) -> bool {
        true
    }

    fn deserialize(bytes: Vec<u8>) -> (r: Result<Box<Self>, PacketError>) {
        Ok(Box::new(Self))
    }
}

/// A request for a password can be written as well as read, as a server
/// writes it: nothing stands behind the id.
impl C2STerrariaPacket for S2CPasswordRequired {
    const PACKET_ID: u8 = 37;

    open spec fn serializable(&self) -> bool {
        true
    }

    open spec fn body(&self) -> Seq<u8> {
        Seq::empty()
    }

    fn serialize(self) -> (body: Vec<u8>) {
        Vec::new()
    }
}

#[allow(dead_code)]
#[derive(Debug, Clone, Copy, PartialEq, Eq, Structural)]
pub enum Difficulty {
    Normal,
    Mediumcore,
    Hardcore,
}

/// `weight` if `set`, else nothing.
pub open spec fn flag(set: bool, weight: nat) -> nat {
    if set {
        weight
    } else {
        0
    }
}

/// The number whose bit `i` is set where `hidden[i]` is, for the first `n`
/// of them.
pub open spec fn hidden_bits(hidden: Seq<bool>, n: nat) -> nat
    decreases n,
{
    if n == 0 {
        0
    } else {
        hidden_bits(hidden, (n - 1) as nat) + flag(
            hidden[n - 1],
            vstd::arithmetic::power2::pow2((n - 1) as nat),
        )
    }
}

/// The three bytes of a colour.
pub open spec fn rgb_bytes(c: Rgb) -> Seq<u8> {
    seq![c.0, c.1, c.2]
}

/// The four bytes of a signed 32-bit number in two's complement, low byte
/// first.
pub open spec fn i32_le(n: i32) -> Seq<u8> {
    let u: int = if n < 0 {
        n + 0x1_0000_0000
    } else {
        n as int
    };
    seq![
        (u % 256) as u8,
        (u / 0x100 % 256) as u8,
        (u / 0x1_0000 % 256) as u8,
        (u / 0x100_0000) as u8,
    ]
}

/// Appends the two bytes of `n`, low byte first.
pub fn push_u16_le(out: &mut Vec<u8>, n: u16)
    ensures
        final(out)@ == old(out)@ + u16_le(n),
{
    out.push((n % 256) as u8);
    out.push((n / 256) as u8);
    proof {
        assert(out@ =~= old(out)@ + u16_le(n));
    }
}

/// Appends the two bytes of `n` in two's complement, low byte first.
pub fn push_i16_le(out: &mut Vec<u8>, n: i16)
    ensures
        final(out)@ == old(out)@ + i16_le(n),
{
    let wide: i32 = n as i32;
    let u: u16 = if wide < 0 {
        (wide + 0x1_0000) as u16
    } else {
        wide as u16
    };
    push_u16_le(out, u);
}

/// Appends the four bytes of `n` in two's complement, low byte first.
pub fn push_i32_le(out: &mut Vec<u8>, n: i32)
    ensures
        final(out)@ == old(out)@ + i32_le(n),
{
    let wide: i64 = n as i64;
    let u: i64 = if wide < 0 {
        wide + 0x1_0000_0000
    } else {
        wide
    };
    out.push((u % 256) as u8);
    out.push((u / 0x100 % 256) as u8);
    out.push((u / 0x1_0000 % 256) as u8);
    out.push((u / 0x100_0000) as u8);
    proof {
        assert(out@ =~= old(out)@ + i32_le(n));
    }
}

/// How the player looks. Packet ID: 4
pub struct C2SPlayerAppearance {
    pub slot: u8,
    pub skin_variant: u8,
    pub hair: u8,
    pub name: String,
    pub hair_dye: u8,
    pub hide_visible_accessory: [bool; 10],
    pub hide_misc: bool,
    pub hair_color: Rgb,
    pub skin_color: Rgb,
    pub eye_color: Rgb,
    pub shirt_color: Rgb,
    pub undershirt_color: Rgb,
    pub pants_color: Rgb,
    pub shoe_color: Rgb,
    pub difficulty: Difficulty,
    pub extra_accessory: bool,
    pub using_biome_torches: bool,
    pub happy_fun_torch_time: bool,
    pub unlocked_biome_torches: bool,
    pub unlocked_super_cart: bool,
    pub enabled_super_cart: bool,
    pub used_aegis_crystal: bool,
    pub used_aegis_fruit: bool,
    pub used_arcane_crystal: bool,
    pub used_galaxy_pearl: bool,
    pub used_gummy_worm: bool,
    pub used_ambrosia: bool,
    pub ate_artisan_bread: bool,
}

impl C2SPlayerAppearance {
    /// The byte of the difficulty and the extra accessory.
    pub open spec fn difficulty_bits(&self) -> nat {
        (match self.difficulty {
            Difficulty::Normal => 0x80nat,
            Difficulty::Mediumcore => 0x40nat,
            Difficulty::Hardcore => 0x10nat,
        }) + flag(self.extra_accessory, 0x20)
    }

    /// The byte of the torches and the cart. Unlocked biome torches set two
    /// bits; the use of biome torches sets none.
    pub open spec fn torch_bits(&self) -> nat {
        flag(self.unlocked_biome_torches, 0x80) + flag(self.happy_fun_torch_time, 0x40) + flag(
            self.unlocked_biome_torches,
            0x20,
        ) + flag(self.unlocked_super_cart, 0x10) + flag(self.enabled_super_cart, 0x08)
    }

    /// The byte of what the player has used up.
    pub open spec fn consumed_bits(&self) -> nat {
        flag(self.used_aegis_crystal, 0x80) + flag(self.used_aegis_fruit, 0x40) + flag(
            self.used_arcane_crystal,
            0x20,
        ) + flag(self.used_galaxy_pearl, 0x10) + flag(self.used_gummy_worm, 0x08) + flag(
            self.used_ambrosia,
            0x04,
        ) + flag(self.ate_artisan_bread, 0x02)
    }
}

impl C2STerrariaPacket for C2SPlayerAppearance {
    const PACKET_ID: u8 = 4;

    open spec fn serializable(&self) -> bool {
        true
    }

    open spec fn body(&self) -> Seq<u8> {
        seq![self.slot, self.skin_variant, self.hair] + prefixed(encode_utf8(self.name@))
            + seq![self.hair_dye] + u16_le(hidden_bits(self.hide_visible_accessory@, 10) as u16)
            + seq![flag(self.hide_misc, 1) as u8] + rgb_bytes(self.hair_color) + rgb_bytes(
            self.skin_color,
        ) + rgb_bytes(self.eye_color) + rgb_bytes(self.shirt_color) + rgb_bytes(
            self.undershirt_color,
        ) + rgb_bytes(self.pants_color) + rgb_bytes(self.shoe_color) + seq![
            self.difficulty_bits() as u8,
            self.torch_bits() as u8,
            self.consumed_bits() as u8,
        ]
    }

    fn serialize(self) -> (body: Vec<u8>) {
        let ghost wanted = self.body();
        let hva: u16 = accessory_bits(&self.hide_visible_accessory);
        let bits1: u8 = self.difficulty_byte();
        let bits2: u8 = self.torch_byte();
        let bits3: u8 = self.consumed_byte();
        let mut packet: Vec<u8> = Vec::new();
        packet.push(self.slot);
        packet.push(self.skin_variant);
        packet.push(self.hair);
        let ghost part1 = packet@;
        packet.write_terraria_string(self.name);
        packet.push(self.hair_dye);
        let ghost part2 = packet@;
        write_u16_le(&mut packet, hva);
        packet.push(
            if self.hide_misc {
                1
            } else {
                0
            },
        );
        let ghost part3 = packet@;
        packet.write_terraria_rgb(self.hair_color);
        packet.write_terraria_rgb(self.skin_color);
        packet.write_terraria_rgb(self.eye_color);
        packet.write_terraria_rgb(self.shirt_color);
        packet.write_terraria_rgb(self.undershirt_color);
        packet.write_terraria_rgb(self.pants_color);
        packet.write_terraria_rgb(self.shoe_color);
        let ghost part4 = packet@;
        packet.push(bits1);
        packet.push(bits2);
        packet.push(bits3);
        proof {
            assert(part1 =~= seq![self.slot, self.skin_variant, self.hair]);
            assert(part2 =~= part1 + prefixed(encode_utf8(self.name@)) + seq![self.hair_dye]);
            assert(part3 =~= part2 + u16_le(hva) + seq![flag(self.hide_misc, 1) as u8]);
            assert(part4 =~= part3 + rgb_bytes(self.hair_color) + rgb_bytes(self.skin_color)
                + rgb_bytes(self.eye_color) + rgb_bytes(self.shirt_color) + rgb_bytes(
                self.undershirt_color,
            ) + rgb_bytes(self.pants_color) + rgb_bytes(self.shoe_color));
            assert(packet@ =~= part4 + seq![bits1, bits2, bits3]);
        }
        packet
    }
}

/// The number whose bit `i` is set where `hidden[i]` is.
pub fn accessory_bits(hidden: &[bool; 10]) -> (bits: u16)
    ensures
        bits == hidden_bits(hidden@, 10),
        bits < 1024,
{
    let mut hva: u16 = 0;
    let mut weight: u16 = 1;
    let mut i: usize = 0;
    proof {
        vstd::arithmetic::power2::lemma2_to64();
    }
    while i < 10
        invariant
            0 <= i <= 10,
            weight == vstd::arithmetic::power2::pow2(i as nat),
            hva == hidden_bits(hidden@, i as nat),
            hva < weight,
            weight <= 1024,
        decreases 10 - i,
    {
        proof {
            vstd::arithmetic::power2::lemma2_to64();
            vstd::arithmetic::power2::lemma_pow2_unfold((i + 1) as nat);
        }
        if hidden[i] {
            hva = hva + weight;
        }
        if i < 9 {
            weight = weight * 2;
        } else {
            weight = 1024;
        }
        i += 1;
    }
    hva
}

impl C2SPlayerAppearance {
    fn difficulty_byte(&self) -> (bits: u8)
        ensures
            bits == self.difficulty_bits(),
    {
        let mut bits1: u8 = match self.difficulty {
            Difficulty::Normal => 0x80,
            Difficulty::Mediumcore => 0x40,
            Difficulty::Hardcore => 0x10,
        };
        if self.extra_accessory {
            bits1 = bits1 + 0x20;
        }
        bits1
    }

    fn torch_byte(&self) -> (bits: u8)
        ensures
            bits == self.torch_bits(),
    {
        let mut bits2: u8 = 0;
        if self.unlocked_biome_torches {
            bits2 = bits2 + 0x80;
        }
        if self.happy_fun_torch_time {
            bits2 = bits2 + 0x40;
        }
        if self.unlocked_biome_torches {
            bits2 = bits2 + 0x20;
        }
        if self.unlocked_super_cart {
            bits2 = bits2 + 0x10;
        }
        if self.enabled_super_cart {
            bits2 = bits2 + 0x08;
        }
        bits2
    }

    fn consumed_byte(&self) -> (bits: u8)
        ensures
            bits == self.consumed_bits(),
    {
        let mut bits3: u8 = 0;
        if self.used_aegis_crystal {
            bits3 = bits3 + 0x80;
        }
        if self.used_aegis_fruit {
            bits3 = bits3 + 0x40;
        }
        if self.used_arcane_crystal {
            bits3 = bits3 + 0x20;
        }
        if self.used_galaxy_pearl {
            bits3 = bits3 + 0x10;
        }
        if self.used_gummy_worm {
            bits3 = bits3 + 0x08;
        }
        if self.used_ambrosia {
            bits3 = bits3 + 0x04;
        }
        if self.ate_artisan_bread {
            bits3 = bits3 + 0x02;
        }
        bits3
    }
}

/// The player's life. Packet ID: 16
#[derive(Debug, Clone, Copy, PartialEq, Eq, Structural)]
pub struct C2SSetHealth {
    pub slot: u8,
    pub stat_life: i16,
    pub stat_life_max: i16,
}

impl C2STerrariaPacket for C2SSetHealth {
    const PACKET_ID: u8 = 16;

    open spec fn serializable(&self) -> bool {
        true
    }

    open spec fn body(&self) -> Seq<u8> {
        seq![self.slot] + i16_le(self.stat_life) + i16_le(self.stat_life_max)
    }

    fn serialize(self) -> (body: Vec<u8>) {
        let mut packet: Vec<u8> = Vec::new();
        packet.push(self.slot);
        write_i16_le(&mut packet, self.stat_life);
        write_i16_le(&mut packet, self.stat_life_max);
        proof {
            assert(packet@ =~= self.body());
        }
        packet
    }
}

/// The player's mana. Packet ID: 42
#[derive(Debug, Clone, Copy, PartialEq, Eq, Structural)]
pub struct C2SSetMana {
    pub slot: u8,
    pub stat_mana: i16,
    pub stat_mana_max: i16,
}

impl C2STerrariaPacket for C2SSetMana {
    const PACKET_ID: u8 = 42;

    open spec fn serializable(&self) -> bool {
        true
    }

    open spec fn body(&self) -> Seq<u8> {
        seq![self.slot] + i16_le(self.stat_mana) + i16_le(self.stat_mana_max)
    }

    fn serialize(self) -> (body: Vec<u8>) {
        let mut packet: Vec<u8> = Vec::new();
        packet.push(self.slot);
        write_i16_le(&mut packet, self.stat_mana);
        write_i16_le(&mut packet, self.stat_mana_max);
        proof {
            assert(packet@ =~= self.body());
        }
        packet
    }
}

/// The most buffs that a player has.
pub const MAX_BUFFS: usize = 44;

/// The first `n` of the buff places: the buffs, then zeros.
pub open spec fn buff_bytes(buffs: Seq<u16>, n: nat) -> Seq<u8>
    decreases n,
{
    if n == 0 {
        Seq::empty()
    } else {
        buff_bytes(buffs, (n - 1) as nat) + u16_le(
            if n - 1 < buffs.len() {
                buffs[n - 1]
            } else {
                0
            },
        )
    }
}

/// The player's buffs. Packet ID: 50
pub struct C2SSetBuffs {
    pub slot: u8,
    pub buffs: Vec<u16>,
}

impl C2STerrariaPacket for C2SSetBuffs {
    const PACKET_ID: u8 = 50;

    /// There are places for 44 buffs.
    open spec fn serializable(&self) -> bool {
        self.buffs@.len() <= MAX_BUFFS
    }

    /// All 44 places, two bytes each. The slot is not written.
    open spec fn body(&self) -> Seq<u8> {
        buff_bytes(self.buffs@, MAX_BUFFS as nat)
    }

    fn serialize(self) -> (body: Vec<u8>) {
        let mut packet: Vec<u8> = Vec::new();
        let mut i: usize = 0;
        while i < self.buffs.len()
            invariant
                0 <= i <= self.buffs@.len() <= MAX_BUFFS,
                packet@ == buff_bytes(self.buffs@, i as nat),
            decreases self.buffs@.len() - i,
        {
            write_u16_le(&mut packet, self.buffs[i]);
            i += 1;
        }
        while i < MAX_BUFFS
            invariant
                self.buffs@.len() <= i <= MAX_BUFFS,
                packet@ == buff_bytes(self.buffs@, i as nat),
            decreases MAX_BUFFS - i,
        {
            write_u16_le(&mut packet, 0);
            i += 1;
        }
        packet
    }
}

/// What lies in a slot of the inventory. Packet ID: 5
#[derive(Debug, Clone, Copy, PartialEq, Eq, Structural)]
pub struct C2SSetInvSlot {
    pub slot: u8,
    pub inv_slot: u8,
    pub stack: i16,
    pub prefix_id: u8,
    pub net_id: i16,
}

impl C2STerrariaPacket for C2SSetInvSlot {
    const PACKET_ID: u8 = 5;

    open spec fn serializable(&self) -> bool {
        true
    }

    open spec fn body(&self) -> Seq<u8> {
        seq![self.slot, self.inv_slot] + i16_le(self.stack) + seq![self.prefix_id] + i16_le(
            self.net_id,
        )
    }

    fn serialize(self) -> (body: Vec<u8>) {
        let mut packet: Vec<u8> = Vec::new();
        packet.push(self.slot);
        packet.push(self.inv_slot);
        push_i16_le(&mut packet, self.stack);
        packet.push(self.prefix_id);
        push_i16_le(&mut packet, self.net_id);
        proof {
            assert(packet@ =~= self.body());
        }
        packet
    }
}

/// The request for what the world is like. Packet ID: 6
#[derive(Debug, Clone, Copy, PartialEq, Eq, Structural)]
pub struct C2SRequestWorldInfo;

impl C2STerrariaPacket for C2SRequestWorldInfo {
    const PACKET_ID: u8 = 6;

    open spec fn serializable(&self) -> bool {
        true
    }

    open spec fn body(&self) -> Seq<u8> {
        Seq::empty()
    }

    fn serialize(self) -> (body: Vec<u8>) {
        Vec::new()
    }
}

/// The client's id. Packet ID: 68
pub struct C2SClientUuid {
    pub uuid: String,
}

impl C2STerrariaPacket for C2SClientUuid {
    const PACKET_ID: u8 = 68;

    open spec fn serializable(&self) -> bool {
        true
    }

    open spec fn body(&self) -> Seq<u8> {
        prefixed(encode_utf8(self.uuid@))
    }

    fn serialize(self) -> (body: Vec<u8>) {
        let mut packet: Vec<u8> = Vec::new();
        packet.write_terraria_string(self.uuid);
        proof {
            assert(packet@ =~= prefixed(encode_utf8(self.uuid@)));
        }
        packet
    }
}

/// The request for the tiles round a place. Packet ID: 8
#[derive(Debug, Clone, Copy, PartialEq, Eq, Structural)]
pub struct C2SRequestInitialTileData {
    pub x: i32,
    pub y: i32,
}

impl C2STerrariaPacket for C2SRequestInitialTileData {
    const PACKET_ID: u8 = 8;

    open spec fn serializable(&self) -> bool {
        true
    }

    open spec fn body(&self) -> Seq<u8> {
        i32_le(self.x) + i32_le(self.y)
    }

    fn serialize(self) -> (body: Vec<u8>) {
        let mut packet: Vec<u8> = Vec::new();
        push_i32_le(&mut packet, self.x);
        push_i32_le(&mut packet, self.y);
        proof {
            assert(packet@ =~= self.body());
        }
        packet
    }
}

/// A chat command. Packet ID: 82
pub struct C2SNetMessageCommand {
    pub command: String,
    pub text: String,
}

impl C2STerrariaPacket for C2SNetMessageCommand {
    const PACKET_ID: u8 = 82;

    open spec fn serializable(&self) -> bool {
        true
    }

    /// The number 1 in two bytes, then the command and the text.
    open spec fn body(&self) -> Seq<u8> {
        u16_le(1) + prefixed(encode_utf8(self.command@)) + prefixed(encode_utf8(self.text@))
    }

    fn serialize(self) -> (body: Vec<u8>) {
        let ghost wanted = self.body();
        let mut packet: Vec<u8> = Vec::new();
        push_u16_le(&mut packet, 1);
        packet.write_terraria_string(self.command);
        packet.write_terraria_string(self.text);
        proof {
            assert(packet@ =~= wanted);
        }
        packet
    }
}

} // verus!
