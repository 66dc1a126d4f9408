//! The wire frame: `identifier (2) | content type (1) | length (4, little
//! endian) | payload (length bytes)`.
use vstd::prelude::*;
use vstd::arithmetic::power::*;
use crate::Key;
use crate::keystream::key_byte;

verus! {

/// Content type of a handshake request; its payload is `p || g || public value`.
pub const HAND_SHAKE_REQUEST: u8 = 1;
/// Content type of a handshake reply; its payload is the public value.
pub const HAND_SHAKE_REPLY: u8 = 2;
/// Content type of a data frame; its payload is application bytes.
pub const DATA_TRANSMISSION: u8 = 3;
/// First byte of the protocol tag, `'D'`.
pub const DH_IDENTIFIER_0: u8 = 0x44;
/// Second byte of the protocol tag, `'H'`.
pub const DH_IDENTIFIER_1: u8 = 0x48;
/// Bytes before the payload: tag, content type and length.
pub const HEADER_LEN: usize = 7;
/// Bytes of one integer in a handshake payload.
pub const KEY_LEN: usize = 16;

/// The protocol tag.
pub open spec fn identifier() -> Seq<u8> {
    seq![DH_IDENTIFIER_0, DH_IDENTIFIER_1]
}

/// One of the three defined content types.
pub open spec fn valid_content_type(t: u8) -> bool {
    HAND_SHAKE_REQUEST <= t <= DATA_TRANSMISSION
}

/// The four little-endian bytes of `x`.
pub open spec fn u32_le_bytes(x: u32) -> Seq<u8> {
    seq![x as u8, (x >> 8) as u8, (x >> 16) as u8, (x >> 24) as u8]
}

/// The `u32` whose little-endian bytes are `s[0..4]`.
pub open spec fn u32_from_le(s: Seq<u8>) -> u32 {
    (s[0] as u32) | ((s[1] as u32) << 8u32) | ((s[2] as u32) << 16u32) | ((s[3] as u32) << 24u32)
}

/// The sixteen little-endian bytes of `x`.
pub open spec fn key_le_bytes(x: Key) -> Seq<u8> {
    Seq::new(16, |j: int| key_byte(x, j))
}

/// The number whose little-endian digits in base 256 are `s`.
pub open spec fn le_value(s: Seq<u8>) -> nat
    decreases s.len(),
{
    if s.len() == 0 {
        0
    } else {
        s[0] as nat + 256 * le_value(s.drop_first())
    }
}

/// What a frame says, as the wire carries it.
pub struct FrameModel {
    pub identifier: Seq<u8>,
    pub content_type: u8,
    pub length: u32,
    pub payload: Seq<u8>,
}

impl FrameModel {
    /// The tag is the protocol's, the type one of three, and the declared
    /// length that of the payload.
    pub open spec fn well_formed(&self) -> bool {
        &&& self.identifier == identifier()
        &&& valid_content_type(self.content_type)
        &&& self.length == self.payload.len()
    }

    /// The bytes of the frame on the wire; the tag written is always the
    /// protocol's.
    pub open spec fn encoding(&self) -> Seq<u8> {
        identifier() + seq![self.content_type] + u32_le_bytes(self.length) + self.payload
    }
}

/// The frame that `b` holds, if any: `b` must hold a whole header with the
/// protocol tag and a defined type, and exactly as many payload bytes as the
/// header declares.
pub open spec fn decode(b: Seq<u8>) -> Option<FrameModel> {
    if b.len() >= HEADER_LEN && b[0] == DH_IDENTIFIER_0 && b[1] == DH_IDENTIFIER_1
        && valid_content_type(b[2]) && u32_from_le(b.subrange(3, 7)) == b.len() - HEADER_LEN {
        Some(
            FrameModel {
                identifier: identifier(),
                content_type: b[2],
                length: u32_from_le(b.subrange(3, 7)),
                payload: b.subrange(HEADER_LEN as int, b.len() as int),
            },
        )
    } else {
        None
    }
}

/// One protocol frame.
pub struct DHLayer {
    /// Always the protocol tag `"DH"`.
    pub dh_identifier: [u8; 2],
    /// One of [`HAND_SHAKE_REQUEST`], [`HAND_SHAKE_REPLY`], [`DATA_TRANSMISSION`].
    pub content_type: u8,
    /// The payload's length in bytes.
    pub length: u32,
    pub payload: Vec<u8>,
}

impl View for DHLayer {
    type V = FrameModel;

    open spec fn view(&self) -> FrameModel {
        FrameModel {
            identifier: self.dh_identifier@,
            content_type: self.content_type,
            length: self.length,
            payload: self.payload@,
        }
    }
}

/// Appends the sixteen little-endian bytes of `x` to `v`.
fn push_key(v: &mut Vec<u8>, x: Key)
    ensures
        final(v)@ == old(v)@ + key_le_bytes(x),
{
    let ghost start = v@;
    let mut j: usize = 0;
    while j < KEY_LEN
        invariant
            j <= 16,
            v@ == start + key_le_bytes(x).subrange(0, j as int),
        decreases 16 - j,
    {
        let shift: u128 = (8 * (j % 16)) as u128;
        v.push(((x >> shift) & 0xff) as u8);
        j = j + 1;
        assert(v@ =~= start + key_le_bytes(x).subrange(0, j as int));
    }
    assert(key_le_bytes(x).subrange(0, 16) =~= key_le_bytes(x));
}

/// Appends `src` to `v`.
fn push_all(v: &mut Vec<u8>, src: &[u8])
    ensures
        final(v)@ == old(v)@ + src@,
{
    let ghost start = v@;
    let mut j: usize = 0;
    while j < src.len()
        invariant
            j <= src@.len(),
            v@ == start + src@.subrange(0, j as int),
        decreases src@.len() - j,
    {
        v.push(src[j]);
        j = j + 1;
        assert(v@ =~= start + src@.subrange(0, j as int));
    }
    assert(src@.subrange(0, src@.len() as int) =~= src@);
}

proof fn lemma_le_value_step(b: Seq<u8>, lo: int, hi: int)
    requires
        0 <= lo < hi <= b.len(),
    ensures
        le_value(b.subrange(lo, hi)) == b[lo] as nat + 256 * le_value(b.subrange(lo + 1, hi)),
{
    assert(b.subrange(lo, hi).drop_first() =~= b.subrange(lo + 1, hi));
}

proof fn lemma_key_suffix(x: Key, m: int)
    requires
        0 <= m < 16,
    ensures
        le_value(key_le_bytes(x).subrange(m, 16)) == (x >> ((8 * m) as u128)) as nat,
    decreases 16 - m,
{
    let s = key_le_bytes(x);
    let sh: u128 = (8 * m) as u128;
    let y: u128 = x >> sh;
    lemma_le_value_step(s, m, 16);
    assert(s[m] == (y & 0xff) as u8);
    assert((y & 0xff) < 256) by (bit_vector);
    assert(s[m] as nat == (y & 0xff) as nat);
    if m == 15 {
        assert(s.subrange(16, 16) =~= Seq::<u8>::empty());
        assert(sh == 120);
        assert((x >> 120u128) & 0xff == x >> 120u128) by (bit_vector);
    } else {
        lemma_key_suffix(x, m + 1);
        assert(x >> ((sh + 8) as u128) == (x >> sh) >> 8u128) by (bit_vector)
            requires
                sh < 120,
        ;
        assert((y >> 8u128) == y / 256) by (bit_vector);
        assert((y & 0xff) == y % 256) by (bit_vector);
        assert((8 * (m + 1)) as u128 == sh + 8);
    }
}

/// Reading back the sixteen little-endian bytes of a key gives the key.
pub proof fn lemma_key_round_trip(x: Key)
    ensures
        le_value(key_le_bytes(x)) == x,
{
    lemma_key_suffix(x, 0);
    assert(key_le_bytes(x).subrange(0, 16) =~= key_le_bytes(x));
    assert(x >> 0u128 == x) by (bit_vector);
}

/// Reads the sixteen little-endian bytes `b[off..off + 16]` as a number.
fn read_key(b: &[u8], off: usize) -> (r: Key)
    requires
        off + 16 <= b.len(),
    ensures
        r as nat == le_value(b@.subrange(off as int, off + 16)),
{
    let mut acc: Key = 0;
    let mut j: usize = KEY_LEN;
    proof {
        reveal_with_fuel(pow, 17);
        assert(b@.subrange(off + 16, off + 16) =~= Seq::<u8>::empty());
    }
    while j > 0
        invariant
            j <= 16,
            off + 16 <= b.len(),
            acc as nat == le_value(b@.subrange(off + j, off + 16)),
            acc < pow(256, (16 - j) as nat),
            pow(256, 16) == 0x1_0000_0000_0000_0000_0000_0000_0000_0000,
        decreases j,
    {
        j = j - 1;
        proof {
            lemma_le_value_step(b@, off + j, off + 16);
            reveal_with_fuel(pow, 2);
            lemma_pow_increases(256, (16 - j) as nat, 16);
        }
        assert(acc * 256 + 255 < 0x1_0000_0000_0000_0000_0000_0000_0000_0000) by (nonlinear_arith)
            requires
                acc < pow(256, (16 - j - 1) as nat),
                pow(256, (16 - j) as nat) == 256 * pow(256, (16 - j - 1) as nat),
                pow(256, (16 - j) as nat) <= 0x1_0000_0000_0000_0000_0000_0000_0000_0000,
        ;
        acc = acc * 256 + b[off + j] as u128;
    }
    acc
}

/// Something that lends out its bytes.
pub trait ToBytes {
    spec fn bytes_view(&self) -> Seq<u8>;

    fn to_bytes(&self) -> (r: &[u8])
        ensures
            r@ == self.bytes_view(),
    ;
}

impl ToBytes for Vec<u8> {
    open spec fn bytes_view(&self) -> Seq<u8> {
        self@
    }

    fn to_bytes(&self) -> (r: &[u8]) {
        self.as_slice()
    }
}

impl<'a> ToBytes for &'a [u8] {
    open spec fn bytes_view(&self) -> Seq<u8> {
        (*self)@
    }

    fn to_bytes(&self) -> (r: &[u8]) {
        *self
    }
}

/// A well-formed frame model with the protocol tag.
pub open spec fn frame_of(content_type: u8, payload: Seq<u8>) -> FrameModel {
    FrameModel {
        identifier: identifier(),
        content_type,
        length: payload.len() as u32,
        payload,
    }
}

/// The payload of a handshake request.
pub open spec fn request_payload(p: Key, g: Key, upper_a: Key) -> Seq<u8> {
    key_le_bytes(p) + key_le_bytes(g) + key_le_bytes(upper_a)
}

impl DHLayer {
    /// A handshake request carrying the modulus, the generator and the
    /// initiator's public value.
    pub fn new_handshake_request(p: Key, g: Key, upper_a: Key) -> (r: DHLayer)
        ensures
            r@ == frame_of(HAND_SHAKE_REQUEST, request_payload(p, g, upper_a)),
            r@.well_formed(),
    {
        let mut v: Vec<u8> = Vec::new();
        push_key(&mut v, p);
        push_key(&mut v, g);
        push_key(&mut v, upper_a);
        DHLayer {
            dh_identifier: [DH_IDENTIFIER_0, DH_IDENTIFIER_1],
            content_type: HAND_SHAKE_REQUEST,
            length: 48,
            payload: v,
        }
    }

    /// A handshake reply carrying the responder's public value.
    pub fn new_handshake_reply(upper_b: Key) -> (r: DHLayer)
        ensures
            r@ == frame_of(HAND_SHAKE_REPLY, key_le_bytes(upper_b)),
            r@.well_formed(),
    {
        let mut v: Vec<u8> = Vec::new();
        push_key(&mut v, upper_b);
        DHLayer {
            dh_identifier: [DH_IDENTIFIER_0, DH_IDENTIFIER_1],
            content_type: HAND_SHAKE_REPLY,
            length: 16,
            payload: v,
        }
    }

    /// A data frame carrying `data` as it is.
    pub fn new_data_transmission(data: &[u8]) -> (r: DHLayer)
        requires
            data@.len() <= u32::MAX,
        ensures
            r@ == frame_of(DATA_TRANSMISSION, data@),
            r@.well_formed(),
    {
        let mut v: Vec<u8> = Vec::new();
        push_all(&mut v, data);
        DHLayer {
            dh_identifier: [DH_IDENTIFIER_0, DH_IDENTIFIER_1],
            content_type: DATA_TRANSMISSION,
            length: data.len() as u32,
            payload: v,
        }
    }

    /// Decodes a datagram; `None` when it is shorter than the header, has
    /// another tag, an undefined type, or a declared length other than the
    /// number of bytes after the header.
    pub fn from(udp_payload: &[u8]) -> (r: Option<DHLayer>)
        ensures
            match r {
                Some(f) => decode(udp_payload@) == Some(f@),
                None => decode(udp_payload@) is None,
            },
    {
        let b = udp_payload;
        if b.len() < HEADER_LEN {
            return None;
        }
        if b[0] != DH_IDENTIFIER_0 || b[1] != DH_IDENTIFIER_1 {
            return None;
        }
        let content_type = b[2];
        if content_type < HAND_SHAKE_REQUEST || content_type > DATA_TRANSMISSION {
            return None;
        }
        let length: u32 = (b[3] as u32) | ((b[4] as u32) << 8u32) | ((b[5] as u32) << 16u32) | ((
        b[6] as u32) << 24u32);
        assert(length == u32_from_le(b@.subrange(3, 7)));
        if (b.len() - HEADER_LEN) as u64 != length as u64 {
            return None;
        }
        let mut payload: Vec<u8> = Vec::new();
        let mut j: usize = HEADER_LEN;
        while j < b.len()
            invariant
                HEADER_LEN <= j <= b@.len(),
                payload@ == b@.subrange(HEADER_LEN as int, j as int),
            decreases b@.len() - j,
        {
            payload.push(b[j]);
            j = j + 1;
            assert(payload@ =~= b@.subrange(HEADER_LEN as int, j as int));
        }
        let f = DHLayer {
            dh_identifier: [DH_IDENTIFIER_0, DH_IDENTIFIER_1],
            content_type,
            length,
            payload,
        };
        assert(f@.identifier =~= identifier());
        Some(f)
    }

    /// The frame's bytes: the protocol tag, the content type, the declared
    /// length in little-endian order, then the payload.
    pub fn to_bytes(&self) -> (r: Vec<u8>)
        ensures
            r@ == self@.encoding(),
    {
        let mut res: Vec<u8> = Vec::new();
        res.push(DH_IDENTIFIER_0);
        res.push(DH_IDENTIFIER_1);
        res.push(self.content_type);
        res.push(self.length as u8);
        res.push((self.length >> 8u32) as u8);
        res.push((self.length >> 16u32) as u8);
        res.push((self.length >> 24u32) as u8);
        push_all(&mut res, self.payload.as_slice());
        assert(res@ =~= self@.encoding());
        res
    }

    /// `[p, g, public value]` of a handshake request; `None` for another type
    /// or a payload shorter than three integers.
    pub fn get_pg_ua(&self) -> (r: Option<[Key; 3]>)
        ensures
            match r {
                Some(a) => {
                    &&& self.content_type == HAND_SHAKE_REQUEST
                    &&& self.payload@.len() >= 48
                    &&& a@[0] as nat == le_value(self.payload@.subrange(0, 16))
                    &&& a@[1] as nat == le_value(self.payload@.subrange(16, 32))
                    &&& a@[2] as nat == le_value(self.payload@.subrange(32, 48))
                },
                None => self.content_type != HAND_SHAKE_REQUEST || self.payload@.len() < 48,
            },
    {
        if self.content_type != HAND_SHAKE_REQUEST || self.payload.len() < 48 {
            None
        } else {
            let bytes = self.payload.as_slice();
            let p = read_key(bytes, 0);
            let g = read_key(bytes, 16);
            let upper_a = read_key(bytes, 32);
            Some([p, g, upper_a])
        }
    }

    /// The public value of a handshake reply; `None` for another type or a
    /// payload shorter than one integer.
    pub fn get_ub(&self) -> (r: Option<Key>)
        ensures
            match r {
                Some(b) => {
                    &&& self.content_type == HAND_SHAKE_REPLY
                    &&& self.payload@.len() >= 16
                    &&& b as nat == le_value(self.payload@.subrange(0, 16))
                },
                None => self.content_type != HAND_SHAKE_REPLY || self.payload@.len() < 16,
            },
    {
        if self.content_type != HAND_SHAKE_REPLY || self.payload.len() < 16 {
            None
        } else {
            Some(read_key(self.payload.as_slice(), 0))
        }
    }
}

proof fn lemma_u32_round_trip(x: u32)
    ensures
        u32_from_le(u32_le_bytes(x)) == x,
{
    let s = u32_le_bytes(x);
    assert(s[0] == x as u8 && s[1] == (x >> 8) as u8 && s[2] == (x >> 16) as u8 && s[3] == (x >> 24) as u8);
    assert(((x as u8) as u32) | ((((x >> 8u32) as u8) as u32) << 8u32) | ((((x >> 16u32) as u8) as u32) << 16u32)
        | ((((x >> 24u32) as u8) as u32) << 24u32) == x) by (bit_vector);
}

/// Decoding the bytes of a well-formed frame gives the frame back.
pub proof fn lemma_round_trip(f: FrameModel)
    requires
        f.well_formed(),
    ensures
        decode(f.encoding()) == Some(f),
{
    let b = f.encoding();
    let x = f.length;
    assert(b.subrange(3, 7) =~= u32_le_bytes(x));
    lemma_u32_round_trip(x);
    assert(b.subrange(HEADER_LEN as int, b.len() as int) =~= f.payload);
}

} // verus!
