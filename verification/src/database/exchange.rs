//! Canonical exchange framing, independent of transport and replay: cursor
//! tokens, watermarks and feed batches.

pub mod batch;

use super::Error;
use crate::bytes;
use crate::bytes::{
    is_zero, push_bytes, push_u16, push_u32, push_u64, push_zeros, read_u16, read_u32, read_u64,
    same_bytes, sixteen_at,
};
use crate::external;
use crate::external::crc32c;
use crate::text;
use crate::text::{from_hex, to_hex};
use vstd::prelude::*;
use vstd::utf8::*;

verus! {

pub const MAX_BATCH_BYTES: usize = 268435456;

pub const EMPTY_BATCH_BYTES: usize = 60;

pub const BAD_LENGTH: &'static str = "invalid exchange length";

pub const BAD_CRC: &'static str = "exchange CRC mismatch";

pub const BAD_MAGIC: &'static str = "invalid exchange magic or unsupported version";

pub const BAD_KIND: &'static str = "invalid cursor kind";

pub const BAD_TOKEN: &'static str = "invalid cursor token fields";

pub const BAD_WATERMARK: &'static str = "invalid watermark identity or sequence";

pub const WATERMARK_RESERVED: &'static str = "nonzero watermark reserved field";

pub const HEX_LENGTH: &'static str = "watermark text must be 80 lowercase hex bytes";

pub const BAD_HEX: &'static str = "noncanonical watermark hex";

// ---- Frames --------------------------------------------------------------

/// `head` with its checksum behind it.
pub open spec fn sealed(head: Seq<u8>) -> Seq<u8> {
    head + bytes::le32(external::crc32c_of(head))
}

/// The first rule of a frame that `s` breaks: its length, its checksum, or the
/// magic and the version in front.
pub open spec fn frame_fault(s: Seq<u8>, min: int, max: int, magic: Seq<u8>) -> Option<
    &'static str,
> {
    if !(min <= s.len() <= max) {
        Some(BAD_LENGTH)
    } else if external::crc32c_of(s.subrange(0, s.len() - 4)) != bytes::un32(
        bytes::part(s, s.len() - 4, 4),
    ) {
        Some(BAD_CRC)
    } else if bytes::part(s, 0, 8) != magic || bytes::un16(bytes::part(s, 8, 2)) != 1 {
        Some(BAD_MAGIC)
    } else {
        None
    }
}

/// Check a frame.
pub(crate) fn check_frame(s: &[u8], min: usize, max: usize, magic: &[u8; 8]) -> (checked: Result<
    (),
    &'static str,
>)
    requires
        12 <= min,
    ensures
        match checked {
            Ok(()) => frame_fault(s@, min as int, max as int, magic@) is None,
            Err(reason) => frame_fault(s@, min as int, max as int, magic@) == Some(reason),
        },
{
    if s.len() < min || s.len() > max {
        return Err(BAD_LENGTH);
    }
    let split: usize = s.len() - 4;
    if crc32c(&s[0..split]) != read_u32(s, split) {
        return Err(BAD_CRC);
    }
    if !same_bytes(&s[0..8], magic.as_slice()) || read_u16(s, 8) != 1 {
        return Err(BAD_MAGIC);
    }
    Ok(())
}

/// A sealed head has no fault but those of its own fields.
pub proof fn lemma_sealed(head: Seq<u8>, min: int, max: int, magic: Seq<u8>)
    requires
        head.len() >= 10,
        min <= head.len() + 4 <= max,
        bytes::part(head, 0, 8) == magic,
        bytes::part(head, 8, 2) == bytes::le16(1),
    ensures
        sealed(head).len() == head.len() + 4,
        frame_fault(sealed(head), min, max, magic) is None,
{
    broadcast use bytes::group_le;

    let s = sealed(head);
    assert(s.subrange(0, s.len() - 4) =~= head);
    assert(bytes::part(s, s.len() - 4, 4) =~= bytes::le32(external::crc32c_of(head)));
    assert(bytes::part(s, 0, 8) =~= bytes::part(head, 0, 8));
    assert(bytes::part(s, 8, 2) =~= bytes::part(head, 8, 2));
}

/// A frame without a fault is sealed.
pub proof fn lemma_unsealed(s: Seq<u8>, min: int, max: int, magic: Seq<u8>)
    requires
        12 <= min,
        frame_fault(s, min, max, magic) is None,
    ensures
        s == sealed(s.subrange(0, s.len() - 4)),
        bytes::part(s, 8, 2) == bytes::le16(1),
{
    broadcast use bytes::group_le;

    let head = s.subrange(0, s.len() - 4);
    assert(bytes::le32(external::crc32c_of(head)) == bytes::part(s, s.len() - 4, 4));
    assert(s =~= sealed(head));
}

// ---- Cursor tokens -------------------------------------------------------

#[derive(Clone, Copy, Debug, PartialEq, Eq, Structural)]
pub enum CursorKind {
    Resolved,
    Logical,
    LogReplica,
}

/// The byte of a cursor kind.
pub open spec fn kind_byte(kind: CursorKind) -> u8 {
    match kind {
        CursorKind::Resolved => 1,
        CursorKind::Logical => 2,
        CursorKind::LogReplica => 3,
    }
}

/// The cursor kind of a byte.
pub open spec fn kind_of(byte: u8) -> Option<CursorKind> {
    if byte == 1 {
        Some(CursorKind::Resolved)
    } else if byte == 2 {
        Some(CursorKind::Logical)
    } else if byte == 3 {
        Some(CursorKind::LogReplica)
    } else {
        None
    }
}

impl CursorKind {
    /// The byte of this kind.
    pub fn byte(self) -> (byte: u8)
        ensures
            byte == kind_byte(self),
    {
        match self {
            CursorKind::Resolved => 1,
            CursorKind::Logical => 2,
            CursorKind::LogReplica => 3,
        }
    }

    /// The kind of a byte.
    pub fn decode(byte: u8) -> (kind: Result<CursorKind, Error>)
        ensures
            match kind {
                Ok(kind) => kind_of(byte) == Some(kind),
                Err(e) => kind_of(byte) is None && e == Error::InvalidFormat(BAD_KIND),
            },
    {
        match byte {
            1 => Ok(CursorKind::Resolved),
            2 => Ok(CursorKind::Logical),
            3 => Ok(CursorKind::LogReplica),
            _ => Err(Error::InvalidFormat(BAD_KIND)),
        }
    }
}

/// An identity reference, not an authorization secret or proof of registration.
/// Dropping it does not release the durable claim.
#[derive(Clone, Copy, Debug, PartialEq, Eq)]
pub struct CursorToken {
    database_id: [u8; 16],
    cursor_namespace: [u8; 16],
    cursor_id: u64,
    kind: CursorKind,
}

/// The model of a [`CursorToken`].
#[verifier::ext_equal]
pub struct TokenModel {
    pub database_id: Seq<u8>,
    pub cursor_namespace: Seq<u8>,
    pub cursor_id: u64,
    pub kind: CursorKind,
}

/// Whether a token can name a registration.
pub open spec fn token_allowed(t: TokenModel) -> bool {
    &&& t.database_id.len() == 16 && t.database_id != bytes::zeros(16)
    &&& t.cursor_namespace.len() == 16 && t.cursor_namespace != bytes::zeros(16)
    &&& t.cursor_id != 0
    &&& t.cursor_id != u64::MAX
}

pub open spec fn token_magic() -> Seq<u8> {
    seq![0x42u8, 0x4cu8, 0x4fu8, 0x50u8, 0x43u8, 0x54u8, 0x30u8, 0x31u8]
}

/// The 56 bytes of a token.
pub open spec fn token_bytes(t: TokenModel) -> Seq<u8> {
    sealed(
        token_magic() + bytes::le16(1) + seq![kind_byte(t.kind), 0u8] + t.database_id
            + t.cursor_namespace + bytes::le64(t.cursor_id),
    )
}

/// What 56 bytes say of a token, or the first rule that they break.
pub open spec fn token_of(s: Seq<u8>) -> Result<TokenModel, Error> {
    match frame_fault(s, 56, 56, token_magic()) {
        Some(reason) => Err(Error::InvalidToken(reason)),
        None => match kind_of(s[10]) {
            None => Err(Error::InvalidToken(BAD_KIND)),
            Some(kind) => {
                let token = TokenModel {
                    database_id: bytes::part(s, 12, 16),
                    cursor_namespace: bytes::part(s, 28, 16),
                    cursor_id: bytes::un64(bytes::part(s, 44, 8)),
                    kind,
                };
                if s[11] != 0 || !token_allowed(token) {
                    Err(Error::InvalidToken(BAD_TOKEN))
                } else {
                    Ok(token)
                }
            },
        },
    }
}

impl CursorToken {
    pub closed spec fn view(&self) -> TokenModel {
        TokenModel {
            database_id: self.database_id@,
            cursor_namespace: self.cursor_namespace@,
            cursor_id: self.cursor_id,
            kind: self.kind,
        }
    }

    /// The token of a registration.
    pub fn new(
        database_id: [u8; 16],
        cursor_namespace: [u8; 16],
        cursor_id: u64,
        kind: CursorKind,
    ) -> (token: CursorToken)
        ensures
            token@ == (TokenModel {
                database_id: database_id@,
                cursor_namespace: cursor_namespace@,
                cursor_id,
                kind,
            }),
    {
        CursorToken { database_id, cursor_namespace, cursor_id, kind }
    }

    pub fn database_id(&self) -> (id: [u8; 16])
        ensures
            id@ == self@.database_id,
    {
        self.database_id
    }

    pub fn cursor_namespace(&self) -> (namespace: [u8; 16])
        ensures
            namespace@ == self@.cursor_namespace,
    {
        self.cursor_namespace
    }

    pub fn cursor_id(&self) -> (id: u64)
        ensures
            id == self@.cursor_id,
    {
        self.cursor_id
    }

    pub fn kind(&self) -> (kind: CursorKind)
        ensures
            kind == self@.kind,
    {
        self.kind
    }

    /// The 56 bytes of this token.
    pub fn encode(&self) -> (bytes: [u8; 56])
        ensures
            bytes@ == token_bytes(self@),
    {
        broadcast use bytes::group_le;

        let mut out: Vec<u8> = Vec::new();
        let magic: [u8; 8] = [0x42, 0x4c, 0x4f, 0x50, 0x43, 0x54, 0x30, 0x31];
        push_bytes(&mut out, magic.as_slice());
        push_u16(&mut out, 1);
        out.push(self.kind.byte());
        out.push(0);
        push_bytes(&mut out, self.database_id.as_slice());
        push_bytes(&mut out, self.cursor_namespace.as_slice());
        push_u64(&mut out, self.cursor_id);
        assert(out@ =~= token_magic() + bytes::le16(1) + seq![kind_byte(self@.kind), 0u8]
            + self@.database_id + self@.cursor_namespace + bytes::le64(self@.cursor_id));
        let crc: u32 = crc32c(out.as_slice());
        push_u32(&mut out, crc);
        let mut bytes: [u8; 56] = [0; 56];
        let mut i: usize = 0;
        while i < 56
            invariant
                i <= 56,
                out@.len() == 56,
                forall|k: int| 0 <= k < i ==> bytes@[k] == out@[k],
            decreases 56 - i,
        {
            bytes[i] = out[i];
            i += 1;
        }
        assert(bytes@ =~= out@);
        bytes
    }

    /// Read a token.
    pub fn decode(bytes: &[u8]) -> (token: Result<CursorToken, Error>)
        ensures
            match token {
                Ok(token) => token_of(bytes@) == Ok::<TokenModel, Error>(token@),
                Err(e) => token_of(bytes@) == Err::<TokenModel, Error>(e),
            },
    {
        let magic: [u8; 8] = [0x42, 0x4c, 0x4f, 0x50, 0x43, 0x54, 0x30, 0x31];
        assert(magic@ =~= token_magic());
        if let Err(reason) = check_frame(bytes, 56, 56, &magic) {
            return Err(Error::InvalidToken(reason));
        }
        let kind = match CursorKind::decode(bytes[10]) {
            Ok(kind) => kind,
            Err(_) => {
                return Err(Error::InvalidToken(BAD_KIND));
            },
        };
        let database_id: [u8; 16] = sixteen_at(bytes, 12);
        let cursor_namespace: [u8; 16] = sixteen_at(bytes, 28);
        let cursor_id: u64 = read_u64(bytes, 44);
        if bytes[11] != 0 || is_zero(&database_id) || is_zero(&cursor_namespace) || cursor_id == 0
            || cursor_id == u64::MAX {
            return Err(Error::InvalidToken(BAD_TOKEN));
        }
        Ok(CursorToken { database_id, cursor_namespace, cursor_id, kind })
    }
}

/// The bytes of a token are read back as that token.
pub proof fn tokens_are_read_back(t: TokenModel)
    requires
        token_allowed(t),
    ensures
        token_bytes(t).len() == 56,
        token_of(token_bytes(t)) == Ok::<TokenModel, Error>(t),
{
    broadcast use bytes::group_le;

    let head = token_magic() + bytes::le16(1) + seq![kind_byte(t.kind), 0u8] + t.database_id
        + t.cursor_namespace + bytes::le64(t.cursor_id);
    assert(bytes::part(head, 0, 8) =~= token_magic());
    assert(bytes::part(head, 8, 2) =~= bytes::le16(1));
    lemma_sealed(head, 56, 56, token_magic());
    let s = token_bytes(t);
    assert(bytes::part(s, 12, 16) =~= t.database_id);
    assert(bytes::part(s, 28, 16) =~= t.cursor_namespace);
    assert(bytes::part(s, 44, 8) =~= bytes::le64(t.cursor_id));
    assert(token_of(s)->Ok_0 =~= t);
}

/// Only the bytes of a token are read as that token.
pub proof fn read_tokens_are_canonical(s: Seq<u8>, t: TokenModel)
    requires
        token_of(s) == Ok::<TokenModel, Error>(t),
    ensures
        token_allowed(t),
        s == token_bytes(t),
{
    broadcast use bytes::group_le;

    lemma_unsealed(s, 56, 56, token_magic());
    assert(bytes::le64(t.cursor_id) == bytes::part(s, 44, 8));
    assert(s.subrange(0, 52) =~= token_magic() + bytes::le16(1) + seq![kind_byte(t.kind), 0u8]
        + t.database_id + t.cursor_namespace + bytes::le64(t.cursor_id)) by {
        assert(bytes::part(s, 0, 8) == token_magic());
        assert(s.subrange(0, 52) =~= bytes::part(s, 0, 8) + bytes::part(s, 8, 2) + seq![
            s[10],
            s[11],
        ] + bytes::part(s, 12, 16) + bytes::part(s, 28, 16) + bytes::part(s, 44, 8));
    }
}

// ---- Watermarks ----------------------------------------------------------

/// Which state of a database a consumer has processed. Store it in the same
/// atomic durable commit as derived data, then acknowledge it. Sequence zero
/// denotes the empty database state.
#[derive(Clone, Copy, Debug, PartialEq, Eq)]
pub struct Watermark {
    database_id: [u8; 16],
    sequence: u64,
}

/// The model of a [`Watermark`].
#[verifier::ext_equal]
pub struct WatermarkModel {
    pub database_id: Seq<u8>,
    pub sequence: u64,
}

/// Whether a watermark has an identity and a sequence that can be reached.
pub open spec fn watermark_allowed(w: WatermarkModel) -> bool {
    w.database_id.len() == 16 && w.database_id != bytes::zeros(16) && w.sequence != u64::MAX
}

pub open spec fn watermark_magic() -> Seq<u8> {
    seq![0x42u8, 0x4cu8, 0x4fu8, 0x50u8, 0x57u8, 0x4du8, 0x30u8, 0x31u8]
}

/// The 40 bytes of a watermark.
pub open spec fn watermark_bytes(w: WatermarkModel) -> Seq<u8> {
    sealed(
        watermark_magic() + bytes::le16(1) + bytes::zeros(2) + w.database_id + bytes::le64(
            w.sequence,
        ),
    )
}

/// What 40 bytes say of a watermark, or the first rule that they break.
pub open spec fn watermark_of(s: Seq<u8>) -> Result<WatermarkModel, Error> {
    match frame_fault(s, 40, 40, watermark_magic()) {
        Some(reason) => Err(Error::InvalidFormat(reason)),
        None => if s[10] != 0 || s[11] != 0 {
            Err(Error::InvalidFormat(WATERMARK_RESERVED))
        } else {
            let w = WatermarkModel {
                database_id: bytes::part(s, 12, 16),
                sequence: bytes::un64(bytes::part(s, 28, 8)),
            };
            if watermark_allowed(w) {
                Ok(w)
            } else {
                Err(Error::InvalidFormat(BAD_WATERMARK))
            }
        },
    }
}

/// What a hexadecimal text says of a watermark.
pub open spec fn watermark_text(digits: Seq<u8>) -> Result<WatermarkModel, Error> {
    if digits.len() != 80 {
        Err(Error::InvalidFormat(HEX_LENGTH))
    } else if !text::hexadecimal(digits) {
        Err(Error::InvalidFormat(BAD_HEX))
    } else {
        watermark_of(text::unhex(digits))
    }
}

impl Watermark {
    pub closed spec fn view(&self) -> WatermarkModel {
        WatermarkModel { database_id: self.database_id@, sequence: self.sequence }
    }

    #[verifier::type_invariant]
    spec fn well_formed(self) -> bool {
        watermark_allowed(self.view())
    }

    /// The watermark of a sequence.
    pub fn new(database_id: [u8; 16], sequence: u64) -> (watermark: Result<Watermark, Error>)
        ensures
            ({
                let w = WatermarkModel { database_id: database_id@, sequence };
                match watermark {
                    Ok(watermark) => watermark_allowed(w) && watermark@ == w,
                    Err(e) => !watermark_allowed(w) && e == Error::InvalidFormat(BAD_WATERMARK),
                }
            }),
    {
        if is_zero(&database_id) || sequence == u64::MAX {
            return Err(Error::InvalidFormat(BAD_WATERMARK));
        }
        Ok(Watermark { database_id, sequence })
    }

    pub fn database_id(&self) -> (id: [u8; 16])
        ensures
            id@ == self@.database_id,
            watermark_allowed(self@),
    {
        proof {
            use_type_invariant(self);
        }
        self.database_id
    }

    pub fn sequence(&self) -> (sequence: u64)
        ensures
            sequence == self@.sequence,
            watermark_allowed(self@),
    {
        proof {
            use_type_invariant(self);
        }
        self.sequence
    }

    /// The 40 bytes of this watermark.
    pub fn encode(&self) -> (bytes: [u8; 40])
        ensures
            bytes@ == watermark_bytes(self@),
            watermark_allowed(self@),
    {
        broadcast use bytes::group_le;

        proof {
            use_type_invariant(self);
        }
        let mut out: Vec<u8> = Vec::new();
        let magic: [u8; 8] = [0x42, 0x4c, 0x4f, 0x50, 0x57, 0x4d, 0x30, 0x31];
        push_bytes(&mut out, magic.as_slice());
        push_u16(&mut out, 1);
        push_zeros(&mut out, 2);
        push_bytes(&mut out, self.database_id.as_slice());
        push_u64(&mut out, self.sequence);
        assert(out@ =~= watermark_magic() + bytes::le16(1) + bytes::zeros(2) + self@.database_id
            + bytes::le64(self@.sequence));
        let crc: u32 = crc32c(out.as_slice());
        push_u32(&mut out, crc);
        let mut bytes: [u8; 40] = [0; 40];
        let mut i: usize = 0;
        while i < 40
            invariant
                i <= 40,
                out@.len() == 40,
                forall|k: int| 0 <= k < i ==> bytes@[k] == out@[k],
            decreases 40 - i,
        {
            bytes[i] = out[i];
            i += 1;
        }
        assert(bytes@ =~= out@);
        bytes
    }

    /// Read a watermark.
    pub fn decode(bytes: &[u8]) -> (watermark: Result<Watermark, Error>)
        ensures
            match watermark {
                Ok(watermark) => watermark_of(bytes@) == Ok::<WatermarkModel, Error>(watermark@),
                Err(e) => watermark_of(bytes@) == Err::<WatermarkModel, Error>(e),
            },
    {
        let magic: [u8; 8] = [0x42, 0x4c, 0x4f, 0x50, 0x57, 0x4d, 0x30, 0x31];
        assert(magic@ =~= watermark_magic());
        if let Err(reason) = check_frame(bytes, 40, 40, &magic) {
            return Err(Error::InvalidFormat(reason));
        }
        if bytes[10] != 0 || bytes[11] != 0 {
            return Err(Error::InvalidFormat(WATERMARK_RESERVED));
        }
        Watermark::new(sixteen_at(bytes, 12), read_u64(bytes, 28))
    }

    /// The 40 bytes as 80 lower-case hexadecimal digits.
    pub fn to_hex(&self) -> (text: String)
        ensures
            text@ == text::hex(watermark_bytes(self@)),
            watermark_allowed(self@),
    {
        let bytes: [u8; 40] = self.encode();
        to_hex(bytes.as_slice())
    }

    /// Read a watermark from hexadecimal digits.
    pub fn from_hex(text: &str) -> (watermark: Result<Watermark, Error>)
        ensures
            match watermark {
                Ok(watermark) => watermark_text(encode_utf8(text@)) == Ok::<WatermarkModel, Error>(
                    watermark@,
                ),
                Err(e) => watermark_text(encode_utf8(text@)) == Err::<WatermarkModel, Error>(e),
            },
    {
        let digits = text.as_bytes();
        if digits.len() != 80 {
            return Err(Error::InvalidFormat(HEX_LENGTH));
        }
        match from_hex(digits) {
            None => Err(Error::InvalidFormat(BAD_HEX)),
            Some(bytes) => Watermark::decode(bytes.as_slice()),
        }
    }
}

/// The bytes of a watermark are read back as that watermark.
pub proof fn watermarks_are_read_back(w: WatermarkModel)
    requires
        watermark_allowed(w),
    ensures
        watermark_bytes(w).len() == 40,
        watermark_of(watermark_bytes(w)) == Ok::<WatermarkModel, Error>(w),
{
    broadcast use bytes::group_le;

    let head = watermark_magic() + bytes::le16(1) + bytes::zeros(2) + w.database_id + bytes::le64(
        w.sequence,
    );
    assert(bytes::part(head, 0, 8) =~= watermark_magic());
    assert(bytes::part(head, 8, 2) =~= bytes::le16(1));
    lemma_sealed(head, 40, 40, watermark_magic());
    let s = watermark_bytes(w);
    assert(bytes::part(s, 12, 16) =~= w.database_id);
    assert(bytes::part(s, 28, 8) =~= bytes::le64(w.sequence));
    assert(watermark_of(s)->Ok_0 =~= w);
}

/// The hexadecimal text of a watermark has 80 digits and is read back as that
/// watermark.
pub proof fn watermark_texts_are_read_back(w: WatermarkModel)
    requires
        watermark_allowed(w),
    ensures
        text::hex(watermark_bytes(w)).len() == 80,
        watermark_text(encode_utf8(text::hex(watermark_bytes(w)))) == Ok::<WatermarkModel, Error>(w),
{
    watermarks_are_read_back(w);
    text::hexadecimal_text_is_read_back(watermark_bytes(w));
}

/// Only the bytes of a watermark are read as that watermark.
pub proof fn read_watermarks_are_canonical(s: Seq<u8>, w: WatermarkModel)
    requires
        watermark_of(s) == Ok::<WatermarkModel, Error>(w),
    ensures
        watermark_allowed(w),
        s == watermark_bytes(w),
{
    broadcast use bytes::group_le;

    lemma_unsealed(s, 40, 40, watermark_magic());
    assert(bytes::le64(w.sequence) == bytes::part(s, 28, 8));
    assert(bytes::part(s, 10, 2) =~= bytes::zeros(2));
    assert(s.subrange(0, 36) =~= bytes::part(s, 0, 8) + bytes::part(s, 8, 2) + bytes::part(s, 10, 2)
        + bytes::part(s, 12, 16) + bytes::part(s, 28, 8));
}

} // verus!
