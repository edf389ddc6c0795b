//! Wire format: a fixed 12-byte header followed by a payload of TLV fields.
//!
//! Multi-byte header fields and TLV lengths are big-endian.
use vstd::prelude::*;

verus! {

/// The four bytes every frame starts with: ASCII `RBQ1`.
pub const MAGIC: [u8; 4] = [0x52, 0x42, 0x51, 0x31];

/// The only protocol version understood.
pub const VERSION: u8 = 1;

/// Length in bytes of an encoded header.
pub const HEADER_LEN: usize = 12;

pub open spec fn magic_bytes() -> Seq<u8> {
    seq![0x52u8, 0x42u8, 0x51u8, 0x31u8]
}

/// Kinds of message, each carried on the wire as one byte.
#[derive(Debug, Clone, Copy, PartialEq, Eq, Structural)]
pub enum MessageType {
    JobPush,
    JobAck,
    JobResult,
    JobStatus,
    AiQuery,
    AiResponse,
    Control,
}

/// The byte that stands for a message type on the wire.
pub open spec fn type_code(t: MessageType) -> u8 {
    match t {
        MessageType::JobPush => 0x01,
        MessageType::JobAck => 0x02,
        MessageType::JobResult => 0x03,
        MessageType::JobStatus => 0x04,
        MessageType::AiQuery => 0x10,
        MessageType::AiResponse => 0x11,
        MessageType::Control => 0x20,
    }
}

/// The message type a byte stands for, if any.
pub open spec fn type_of_code(b: u8) -> Option<MessageType> {
    if b == 0x01 {
        Some(MessageType::JobPush)
    } else if b == 0x02 {
        Some(MessageType::JobAck)
    } else if b == 0x03 {
        Some(MessageType::JobResult)
    } else if b == 0x04 {
        Some(MessageType::JobStatus)
    } else if b == 0x10 {
        Some(MessageType::AiQuery)
    } else if b == 0x11 {
        Some(MessageType::AiResponse)
    } else if b == 0x20 {
        Some(MessageType::Control)
    } else {
        None
    }
}

pub proof fn lemma_type_code_inverse(t: MessageType)
    ensures
        type_of_code(type_code(t)) == Some(t),
{
}

impl MessageType {
    pub fn from_u8(v: u8) -> (r: Option<MessageType>)
        ensures
            r == type_of_code(v),
    {
        match v {
            0x01 => Some(MessageType::JobPush),
            0x02 => Some(MessageType::JobAck),
            0x03 => Some(MessageType::JobResult),
            0x04 => Some(MessageType::JobStatus),
            0x10 => Some(MessageType::AiQuery),
            0x11 => Some(MessageType::AiResponse),
            0x20 => Some(MessageType::Control),
            _ => None,
        }
    }

    pub fn to_u8(&self) -> (r: u8)
        ensures
            r == type_code(*self),
    {
        match self {
            MessageType::JobPush => 0x01,
            MessageType::JobAck => 0x02,
            MessageType::JobResult => 0x03,
            MessageType::JobStatus => 0x04,
            MessageType::AiQuery => 0x10,
            MessageType::AiResponse => 0x11,
            MessageType::Control => 0x20,
        }
    }
}

/// Why a byte sequence is not a frame.
#[derive(Debug, Clone, Copy, PartialEq, Eq, Structural)]
pub enum ProtocolError {
    /// Fewer than 12 bytes are available.
    ShortHeader,
    /// The first four bytes are not `RBQ1`.
    BadMagic,
    /// The version byte is not 1.
    WrongVersion,
    /// The type byte names no message type.
    UnknownType,
    /// Fewer bytes than the header announces follow it.
    ShortPayload,
    /// The payload ends inside a TLV.
    ShortTlv,
}

/// Mathematical value of a header.
pub ghost struct HeaderModel {
    pub magic: Seq<u8>,
    pub version: u8,
    pub msg_type: MessageType,
    pub flags: u16,
    pub payload_len: u32,
}

#[derive(Debug, Clone, Copy, PartialEq, Eq)]
pub struct Header {
    pub magic: [u8; 4],
    pub version: u8,
    pub msg_type: MessageType,
    pub flags: u16,
    pub payload_len: u32,
}

impl View for Header {
    type V = HeaderModel;

    open spec fn view(&self) -> HeaderModel {
        HeaderModel {
            magic: self.magic@,
            version: self.version,
            msg_type: self.msg_type,
            flags: self.flags,
            payload_len: self.payload_len,
        }
    }
}

/// Big-endian bytes of a 16-bit value.
pub open spec fn be16(x: u16) -> Seq<u8> {
    seq![(x / 0x100) as u8, (x % 0x100) as u8]
}

/// Big-endian bytes of a 32-bit value.
pub open spec fn be32(x: u32) -> Seq<u8> {
    seq![
        (x / 0x1000000) as u8,
        ((x / 0x10000) % 0x100) as u8,
        ((x / 0x100) % 0x100) as u8,
        (x % 0x100) as u8,
    ]
}

/// The 16-bit value read big-endian at offset `i`.
pub open spec fn be16_at(s: Seq<u8>, i: int) -> u16 {
    (s[i] * 0x100 + s[i + 1]) as u16
}

/// The 32-bit value read big-endian at offset `i`.
pub open spec fn be32_at(s: Seq<u8>, i: int) -> u32 {
    (s[i] * 0x1000000 + s[i + 1] * 0x10000 + s[i + 2] * 0x100 + s[i + 3]) as u32
}

/// The 12 bytes that encode a header.
pub open spec fn header_bytes(h: HeaderModel) -> Seq<u8> {
    h.magic + seq![h.version, type_code(h.msg_type)] + be16(h.flags) + be32(h.payload_len)
}

/// The first reason, in the order they are checked, why `s` does not start with a
/// valid header; `None` when it does.
pub open spec fn header_error(s: Seq<u8>) -> Option<ProtocolError> {
    if s.len() < 12 {
        Some(ProtocolError::ShortHeader)
    } else if s.subrange(0, 4) != magic_bytes() {
        Some(ProtocolError::BadMagic)
    } else if s[4] != VERSION {
        Some(ProtocolError::WrongVersion)
    } else if type_of_code(s[5]) is None {
        Some(ProtocolError::UnknownType)
    } else {
        None
    }
}

/// The header read from the first 12 bytes of `s`.
pub open spec fn header_of(s: Seq<u8>) -> HeaderModel {
    HeaderModel {
        magic: s.subrange(0, 4),
        version: s[4],
        msg_type: match type_of_code(s[5]) {
            Some(t) => t,
            None => MessageType::Control,
        },
        flags: be16_at(s, 6),
        payload_len: be32_at(s, 8),
    }
}

impl Header {
    /// Appends the 12 header bytes to `buf`.
    pub fn encode(&self, buf: &mut Vec<u8>)
        ensures
            final(buf)@ == old(buf)@ + header_bytes(self@),
    {
        buf.push(self.magic[0]);
        buf.push(self.magic[1]);
        buf.push(self.magic[2]);
        buf.push(self.magic[3]);
        buf.push(self.version);
        buf.push(self.msg_type.to_u8());
        buf.push((self.flags / 0x100) as u8);
        buf.push((self.flags % 0x100) as u8);
        buf.push((self.payload_len / 0x1000000) as u8);
        buf.push(((self.payload_len / 0x10000) % 0x100) as u8);
        buf.push(((self.payload_len / 0x100) % 0x100) as u8);
        buf.push((self.payload_len % 0x100) as u8);
        assert(final(buf)@ =~= old(buf)@ + header_bytes(self@));
    }

    /// Reads a header from the first 12 bytes of `buf`.
    pub fn decode(buf: &[u8]) -> (r: Result<Header, ProtocolError>)
        ensures
            match r {
                Ok(h) => header_error(buf@) is None && h@ == header_of(buf@),
                Err(e) => header_error(buf@) == Some(e),
            },
    {
        if buf.len() < HEADER_LEN {
            return Err(ProtocolError::ShortHeader);
        }
        if buf[0] != MAGIC[0] || buf[1] != MAGIC[1] || buf[2] != MAGIC[2] || buf[3] != MAGIC[3] {
            assert(buf@.subrange(0, 4) != magic_bytes()) by {
                if buf@.subrange(0, 4) == magic_bytes() {
                    assert(buf@.subrange(0, 4)[0] == buf@[0]);
                    assert(buf@.subrange(0, 4)[1] == buf@[1]);
                    assert(buf@.subrange(0, 4)[2] == buf@[2]);
                    assert(buf@.subrange(0, 4)[3] == buf@[3]);
                }
            }
            return Err(ProtocolError::BadMagic);
        }
        assert(buf@.subrange(0, 4) =~= magic_bytes());
        if buf[4] != VERSION {
            return Err(ProtocolError::WrongVersion);
        }
        let msg_type = match MessageType::from_u8(buf[5]) {
            Some(t) => t,
            None => return Err(ProtocolError::UnknownType),
        };
        let flags: u16 = (buf[6] as u16) * 0x100 + buf[7] as u16;
        let payload_len: u32 = (buf[8] as u32) * 0x1000000 + (buf[9] as u32) * 0x10000
            + (buf[10] as u32) * 0x100 + buf[11] as u32;
        let h = Header { magic: [buf[0], buf[1], buf[2], buf[3]], version: buf[4], msg_type, flags, payload_len };
        assert(h.magic@ =~= buf@.subrange(0, 4));
        Ok(h)
    }
}

/// Mathematical value of a TLV field.
pub ghost struct TlvModel {
    pub tag: u8,
    pub value: Seq<u8>,
}

/// A tag-length-value field of a message payload.
#[derive(Debug, Clone, PartialEq, Eq)]
pub struct Tlv {
    pub tag: u8,
    pub value: Vec<u8>,
}

impl View for Tlv {
    type V = TlvModel;

    open spec fn view(&self) -> TlvModel {
        TlvModel { tag: self.tag, value: self.value@ }
    }
}

/// The models of a sequence of TLV fields.
pub open spec fn tlvs_view(v: Seq<Tlv>) -> Seq<TlvModel> {
    v.map_values(|t: Tlv| t@)
}

/// Largest value length a TLV can announce.
pub const MAX_TLV_VALUE: usize = 0xffff;

/// The bytes that encode one TLV field.
pub open spec fn tlv_bytes(t: TlvModel) -> Seq<u8> {
    seq![t.tag] + be16(t.value.len() as u16) + t.value
}

/// The bytes that encode a sequence of TLV fields, in order.
pub open spec fn tlvs_bytes(ts: Seq<TlvModel>) -> Seq<u8>
    decreases ts.len(),
{
    if ts.len() == 0 {
        Seq::empty()
    } else {
        tlv_bytes(ts[0]) + tlvs_bytes(ts.drop_first())
    }
}

/// Every value is short enough for its 2-byte length.
pub open spec fn tlvs_fit(ts: Seq<TlvModel>) -> bool {
    forall|i: int| 0 <= i < ts.len() ==> #[trigger] ts[i].value.len() <= MAX_TLV_VALUE
}

/// The fields read from a whole payload, or `None` when it ends inside a field.
pub open spec fn parse_tlvs(s: Seq<u8>) -> Option<Seq<TlvModel>>
    decreases s.len(),
{
    if s.len() == 0 {
        Some(Seq::empty())
    } else if s.len() < 3 {
        None
    } else {
        let len = be16_at(s, 1) as int;
        if s.len() < 3 + len {
            None
        } else {
            match parse_tlvs(s.subrange(3 + len, s.len() as int)) {
                Some(rest) => Some(
                    seq![TlvModel { tag: s[0], value: s.subrange(3, 3 + len) }] + rest,
                ),
                None => None,
            }
        }
    }
}

pub open spec fn prepend_fields(
    acc: Seq<TlvModel>,
    rest: Option<Seq<TlvModel>>,
) -> Option<Seq<TlvModel>> {
    match rest {
        Some(r) => Some(acc + r),
        None => None,
    }
}

pub proof fn lemma_tlvs_bytes_push(ts: Seq<TlvModel>, t: TlvModel)
    ensures
        tlvs_bytes(ts.push(t)) == tlvs_bytes(ts) + tlv_bytes(t),
    decreases ts.len(),
{
    if ts.len() == 0 {
        let one = ts.push(t);
        assert(one.drop_first() =~= Seq::<TlvModel>::empty());
        assert(one[0] == t);
        assert(tlvs_bytes(one.drop_first()) == Seq::<u8>::empty());
        assert(tlvs_bytes(ts) == Seq::<u8>::empty());
        assert(tlvs_bytes(one) =~= tlvs_bytes(ts) + tlv_bytes(t));
    } else {
        lemma_tlvs_bytes_push(ts.drop_first(), t);
        assert(ts.push(t).drop_first() =~= ts.drop_first().push(t));
        assert(tlvs_bytes(ts.push(t)) =~= tlvs_bytes(ts) + tlv_bytes(t));
    }
}

pub proof fn lemma_be16_round_trip(x: u16)
    ensures
        be16_at(be16(x), 0) == x,
{
}

pub proof fn lemma_be32_round_trip(x: u32)
    ensures
        be32_at(be32(x), 0) == x,
{
}

/// Reading back the bytes of well-sized fields gives the same fields.
pub proof fn lemma_parse_tlvs_bytes(ts: Seq<TlvModel>)
    requires
        tlvs_fit(ts),
    ensures
        parse_tlvs(tlvs_bytes(ts)) == Some(ts),
    decreases ts.len(),
{
    if ts.len() > 0 {
        let t = ts[0];
        let rest = ts.drop_first();
        assert(tlvs_fit(rest)) by {
            assert forall|i: int| 0 <= i < rest.len() implies #[trigger] rest[i].value.len()
                <= MAX_TLV_VALUE by {
                assert(rest[i] == ts[i + 1]);
            }
        }
        lemma_parse_tlvs_bytes(rest);
        let s = tlvs_bytes(ts);
        let len = t.value.len() as int;
        assert(t.value.len() <= MAX_TLV_VALUE);
        lemma_be16_round_trip(len as u16);
        assert(s =~= tlv_bytes(t) + tlvs_bytes(rest));
        assert(be16_at(s, 1) == be16_at(be16(len as u16), 0));
        assert(s.subrange(3, 3 + len) =~= t.value);
        assert(s.subrange(3 + len, s.len() as int) =~= tlvs_bytes(rest));
        assert(seq![TlvModel { tag: s[0], value: s.subrange(3, 3 + len) }] + rest =~= ts);
    }
}

/// Fields read from a payload fit their lengths and encode back to it.
pub proof fn lemma_parse_tlvs_inverse(s: Seq<u8>)
    requires
        parse_tlvs(s) is Some,
    ensures
        tlvs_fit(parse_tlvs(s)->Some_0),
        tlvs_bytes(parse_tlvs(s)->Some_0) == s,
    decreases s.len(),
{
    if s.len() > 0 {
        let len = be16_at(s, 1) as int;
        let tail = s.subrange(3 + len, s.len() as int);
        lemma_parse_tlvs_inverse(tail);
        let ts = parse_tlvs(s)->Some_0;
        let rest = parse_tlvs(tail)->Some_0;
        let t = TlvModel { tag: s[0], value: s.subrange(3, 3 + len) };
        assert(ts == seq![t] + rest);
        assert(ts.drop_first() =~= rest);
        assert(ts[0] == t);
        assert(be16(len as u16) =~= s.subrange(1, 3));
        assert(tlv_bytes(t) =~= s.subrange(0, 3 + len));
        assert(tlvs_bytes(ts) =~= s);
        assert forall|i: int| 0 <= i < ts.len() implies #[trigger] ts[i].value.len()
            <= MAX_TLV_VALUE by {
            if i > 0 {
                assert(ts[i] == rest[i - 1]);
            }
        }
    }
}

impl Tlv {
    /// Appends the encoded field to `buf`.
    pub fn encode(&self, buf: &mut Vec<u8>)
        requires
            self.value@.len() <= MAX_TLV_VALUE,
        ensures
            final(buf)@ == old(buf)@ + tlv_bytes(self@),
    {
        let len = self.value.len() as u16;
        buf.push(self.tag);
        buf.push((len / 0x100) as u8);
        buf.push((len % 0x100) as u8);
        let ghost start = buf@;
        let mut i: usize = 0;
        while i < self.value.len()
            invariant
                i <= self.value@.len(),
                buf@ == start + self.value@.subrange(0, i as int),
            decreases self.value@.len() - i,
        {
            buf.push(self.value[i]);
            i += 1;
            assert(buf@ =~= start + self.value@.subrange(0, i as int));
        }
        assert(self.value@.subrange(0, i as int) =~= self.value@);
        assert(buf@ =~= old(buf)@ + tlv_bytes(self@));
    }

    /// Reads a whole payload as a sequence of fields.
    pub fn decode(buf: &[u8]) -> (r: Result<Vec<Tlv>, ProtocolError>)
        ensures
            match r {
                Ok(v) => parse_tlvs(buf@) == Some(tlvs_view(v@)),
                Err(e) => e == ProtocolError::ShortTlv && parse_tlvs(buf@) is None,
            },
    {
        let mut fields: Vec<Tlv> = Vec::new();
        let mut off: usize = 0;
        let n = buf.len();
        proof {
            assert(buf@.subrange(0, buf@.len() as int) =~= buf@);
            match parse_tlvs(buf@) {
                Some(r) => {
                    assert(tlvs_view(fields@) + r =~= r);
                },
                None => {},
            }
        }
        while off < buf.len()
            invariant
                off <= buf@.len(),
                n == buf@.len(),
                parse_tlvs(buf@) == prepend_fields(
                    tlvs_view(fields@),
                    parse_tlvs(buf@.subrange(off as int, buf@.len() as int)),
                ),
            decreases buf@.len() - off,
        {
            let ghost s = buf@.subrange(off as int, buf@.len() as int);
            if buf.len() - off < 3 {
                return Err(ProtocolError::ShortTlv);
            }
            let tag = buf[off];
            let len = (buf[off + 1] as usize) * 0x100 + buf[off + 2] as usize;
            assert(len == be16_at(s, 1));
            if buf.len() - off - 3 < len {
                return Err(ProtocolError::ShortTlv);
            }
            let mut value: Vec<u8> = Vec::new();
            let mut j: usize = 0;
            while j < len
                invariant
                    j <= len,
                    n == buf@.len(),
                    off + 3 + len <= n,
                    value@ == buf@.subrange(off + 3, off + 3 + j),
                decreases len - j,
            {
                value.push(buf[off + 3 + j]);
                j += 1;
                assert(value@ =~= buf@.subrange(off + 3, off + 3 + j));
            }
            let ghost old_fields = tlvs_view(fields@);
            let t = Tlv { tag, value };
            assert(t@ == TlvModel { tag: s[0], value: s.subrange(3, 3 + len) }) by {
                assert(s.subrange(3, 3 + len) =~= buf@.subrange(off + 3, off + 3 + len));
            }
            fields.push(t);
            assert(tlvs_view(fields@) =~= old_fields.push(t@));
            let ghost next = off + 3 + len;
            assert(s.subrange(3 + len, s.len() as int) =~= buf@.subrange(next, buf@.len() as int));
            proof {
                match parse_tlvs(buf@.subrange(next, buf@.len() as int)) {
                    Some(r) => {
                        assert(old_fields + (seq![t@] + r) =~= old_fields.push(t@) + r);
                    },
                    None => {},
                }
            }
            off = off + 3 + len;
        }
        assert(buf@.subrange(off as int, buf@.len() as int) =~= Seq::<u8>::empty());
        assert(tlvs_view(fields@) + Seq::<TlvModel>::empty() =~= tlvs_view(fields@));
        Ok(fields)
    }
}

/// Mathematical value of a message.
pub ghost struct MessageModel {
    pub header: HeaderModel,
    pub tlvs: Seq<TlvModel>,
}

/// A header and its ordered TLV fields.
#[derive(Debug, Clone)]
pub struct Message {
    pub header: Header,
    pub tlvs: Vec<Tlv>,
}

impl View for Message {
    type V = MessageModel;

    open spec fn view(&self) -> MessageModel {
        MessageModel { header: self.header@, tlvs: tlvs_view(self.tlvs@) }
    }
}

/// The message fits the wire format: each value fits a 2-byte length and the
/// payload fits a 4-byte length.
pub open spec fn encodable(m: MessageModel) -> bool {
    tlvs_fit(m.tlvs) && tlvs_bytes(m.tlvs).len() <= u32::MAX
}

/// The header carries the magic bytes and the supported version.
pub open spec fn valid_header(h: HeaderModel) -> bool {
    h.magic == magic_bytes() && h.version == VERSION
}

/// The message can be encoded, decodes back, and its encoding's length fits
/// the 4-byte lengths of the log and snapshot files.
pub open spec fn storable(m: MessageModel) -> bool {
    encodable(m) && valid_header(m.header) && 12 + tlvs_bytes(m.tlvs).len() <= u32::MAX
}

/// The message as encoding sees it: its payload length is the size of its fields.
pub open spec fn normalized(m: MessageModel) -> MessageModel {
    MessageModel {
        header: HeaderModel { payload_len: tlvs_bytes(m.tlvs).len() as u32, ..m.header },
        tlvs: m.tlvs,
    }
}

/// The bytes that encode a message.
pub open spec fn message_bytes(m: MessageModel) -> Seq<u8> {
    header_bytes(normalized(m).header) + tlvs_bytes(m.tlvs)
}

/// The payload that the header at the start of `s` announces.
pub open spec fn payload_of(s: Seq<u8>) -> Seq<u8> {
    s.subrange(12, 12 + be32_at(s, 8))
}

/// The first reason, in the order they are checked, why `s` does not start with
/// a message; `None` when it does.
pub open spec fn message_error(s: Seq<u8>) -> Option<ProtocolError> {
    if header_error(s) is Some {
        header_error(s)
    } else if s.len() < 12 + be32_at(s, 8) {
        Some(ProtocolError::ShortPayload)
    } else if parse_tlvs(payload_of(s)) is None {
        Some(ProtocolError::ShortTlv)
    } else {
        None
    }
}

/// The message at the start of `s`, where `message_error(s)` is `None`.
pub open spec fn message_of(s: Seq<u8>) -> MessageModel {
    MessageModel {
        header: header_of(s),
        tlvs: match parse_tlvs(payload_of(s)) {
            Some(ts) => ts,
            None => Seq::empty(),
        },
    }
}

/// Decoding the encoding of a message whose header is valid gives the message
/// back with its payload length recomputed, whatever bytes follow it.
pub proof fn lemma_round_trip(m: MessageModel, rest: Seq<u8>)
    requires
        encodable(m),
        valid_header(m.header),
    ensures
        message_error(message_bytes(m) + rest) is None,
        message_of(message_bytes(m) + rest) == normalized(m),
        payload_of(message_bytes(m) + rest) == tlvs_bytes(m.tlvs),
{
    let n = normalized(m);
    let p = tlvs_bytes(m.tlvs);
    let s = message_bytes(m) + rest;
    lemma_parse_tlvs_bytes(m.tlvs);
    lemma_be16_round_trip(n.header.flags);
    lemma_be32_round_trip(n.header.payload_len);
    lemma_type_code_inverse(n.header.msg_type);
    let hb = header_bytes(n.header);
    assert(s =~= hb + p + rest);
    assert(s.subrange(0, 4) =~= magic_bytes());
    assert(be16_at(s, 6) == be16_at(be16(n.header.flags), 0));
    assert(be32_at(s, 8) == be32_at(be32(n.header.payload_len), 0));
    assert(payload_of(s) =~= p);
    assert(header_of(s).magic =~= n.header.magic);
}

/// The message is storable and already carries its own payload length.
pub open spec fn stored_form(m: MessageModel) -> bool {
    storable(m) && normalized(m) == m
}

/// A message decoded from bytes whose length fits 4 bytes is in stored form.
pub proof fn lemma_decoded_stored(d: Seq<u8>)
    requires
        message_error(d) is None,
        d.len() <= u32::MAX,
    ensures
        stored_form(message_of(d)),
{
    let p = payload_of(d);
    lemma_parse_tlvs_inverse(p);
    assert(d.subrange(0, 4) == magic_bytes());
    let m = message_of(d);
    assert(p.len() == be32_at(d, 8));
    assert(normalized(m).header =~= m.header);
}

pub proof fn lemma_message_bytes_len(m: MessageModel)
    requires
        valid_header(m.header),
    ensures
        message_bytes(m).len() == 12 + tlvs_bytes(m.tlvs).len(),
{
    assert(magic_bytes().len() == 4);
}

/// Bytes whose magic, version or type byte is wrong are refused with that reason.
pub proof fn lemma_rejection(s: Seq<u8>)
    requires
        s.len() >= 12,
    ensures
        s.subrange(0, 4) != magic_bytes() ==> message_error(s) == Some(ProtocolError::BadMagic),
        s.subrange(0, 4) == magic_bytes() && s[4] != VERSION ==> message_error(s) == Some(
            ProtocolError::WrongVersion,
        ),
        s.subrange(0, 4) == magic_bytes() && s[4] == VERSION && type_of_code(s[5]) is None
            ==> message_error(s) == Some(ProtocolError::UnknownType),
{
}

pub proof fn lemma_tlvs_bytes_concat(a: Seq<TlvModel>, b: Seq<TlvModel>)
    ensures
        tlvs_bytes(a + b) == tlvs_bytes(a) + tlvs_bytes(b),
    decreases a.len(),
{
    if a.len() == 0 {
        assert(a + b =~= b);
        assert(tlvs_bytes(a) + tlvs_bytes(b) =~= tlvs_bytes(b));
    } else {
        lemma_tlvs_bytes_concat(a.drop_first(), b);
        assert((a + b).drop_first() =~= a.drop_first() + b);
        assert(tlvs_bytes(a + b) =~= tlvs_bytes(a) + tlvs_bytes(b));
    }
}

impl Message {
    /// Whether the message is storable: valid magic and version, every value
    /// within a 2-byte length, and an encoding whose length fits 4 bytes.
    pub fn is_storable(&self) -> (r: bool)
        ensures
            r == storable(self@),
    {
        if self.header.magic[0] != MAGIC[0] || self.header.magic[1] != MAGIC[1]
            || self.header.magic[2] != MAGIC[2] || self.header.magic[3] != MAGIC[3] {
            assert(self@.header.magic != magic_bytes()) by {
                if self@.header.magic == magic_bytes() {
                    assert(self.header.magic@[0] == magic_bytes()[0]);
                    assert(self.header.magic@[1] == magic_bytes()[1]);
                    assert(self.header.magic@[2] == magic_bytes()[2]);
                    assert(self.header.magic@[3] == magic_bytes()[3]);
                }
            }
            return false;
        }
        assert(self.header.magic@ =~= magic_bytes());
        if self.header.version != VERSION {
            return false;
        }
        let ghost ts = tlvs_view(self.tlvs@);
        let mut total: u64 = 12;
        let mut i: usize = 0;
        while i < self.tlvs.len()
            invariant
                i <= self.tlvs@.len(),
                ts == tlvs_view(self.tlvs@),
                tlvs_fit(ts.take(i as int)),
                total == 12 + tlvs_bytes(ts.take(i as int)).len(),
                total <= u32::MAX,
            decreases self.tlvs@.len() - i,
        {
            let len = self.tlvs[i].value.len();
            assert(ts[i as int] == self.tlvs@[i as int]@);
            if len > MAX_TLV_VALUE {
                assert(ts[i as int].value.len() > MAX_TLV_VALUE);
                assert(!tlvs_fit(ts));
                return false;
            }
            proof {
                lemma_tlvs_bytes_push(ts.take(i as int), ts[i as int]);
                assert(ts.take(i + 1) =~= ts.take(i as int).push(ts[i as int]));
            }
            total = total + 3 + len as u64;
            if total > u32::MAX as u64 {
                proof {
                    let head = ts.take(i + 1);
                    lemma_tlvs_bytes_concat(head, ts.skip(i + 1));
                    assert(head + ts.skip(i + 1) =~= ts);
                }
                return false;
            }
            i += 1;
        }
        assert(ts.take(i as int) =~= ts);
        true
    }

    /// Encodes the header, with its payload length set to the size of the
    /// fields, followed by the fields.
    pub fn encode(&self) -> (r: Vec<u8>)
        requires
            encodable(self@),
        ensures
            r@ == message_bytes(self@),
    {
        let ghost ts = tlvs_view(self.tlvs@);
        let mut payload: Vec<u8> = Vec::new();
        let mut i: usize = 0;
        while i < self.tlvs.len()
            invariant
                i <= self.tlvs@.len(),
                ts == tlvs_view(self.tlvs@),
                tlvs_fit(ts),
                payload@ == tlvs_bytes(ts.take(i as int)),
            decreases self.tlvs@.len() - i,
        {
            assert(ts[i as int] == self.tlvs@[i as int]@);
            assert(ts[i as int].value.len() <= MAX_TLV_VALUE);
            self.tlvs[i].encode(&mut payload);
            proof {
                lemma_tlvs_bytes_push(ts.take(i as int), ts[i as int]);
                assert(ts.take(i + 1) =~= ts.take(i as int).push(ts[i as int]));
            }
            i += 1;
        }
        assert(ts.take(i as int) =~= ts);
        let header = Header {
            magic: self.header.magic,
            version: self.header.version,
            msg_type: self.header.msg_type,
            flags: self.header.flags,
            payload_len: payload.len() as u32,
        };
        let mut buf: Vec<u8> = Vec::new();
        header.encode(&mut buf);
        buf.append(&mut payload);
        assert(header@ == normalized(self@).header);
        assert(buf@ =~= message_bytes(self@));
        buf
    }

    /// Reads one message from the start of `buf`; bytes after it are left alone.
    pub fn decode(buf: &[u8]) -> (r: Result<Message, ProtocolError>)
        ensures
            match r {
                Ok(m) => message_error(buf@) is None && m@ == message_of(buf@),
                Err(e) => message_error(buf@) == Some(e),
            },
    {
        let header = match Header::decode(buf) {
            Ok(h) => h,
            Err(e) => return Err(e),
        };
        let len = header.payload_len as usize;
        if buf.len() - HEADER_LEN < len {
            return Err(ProtocolError::ShortPayload);
        }
        let payload = &buf[HEADER_LEN..HEADER_LEN + len];
        assert(payload@ == payload_of(buf@));
        let tlvs = match Tlv::decode(payload) {
            Ok(t) => t,
            Err(e) => return Err(e),
        };
        Ok(Message { header, tlvs })
    }
}

} // verus!
