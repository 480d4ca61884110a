//! The BIER header: twelve bytes of sub-byte fields, a bitstring whose size
//! the BSL field codes, then an opaque payload.
use vstd::prelude::*;

verus! {

/// A BIER header with its bitstring and payload. Field widths, in bits:
/// `bift_id` 20, `tc` 3, `s` 1, `ttl` 8, `nibble` 4, `version` 4, `bsl` 4,
/// `entropy` 20, `oam` 2, `rsv` 2, `dscp4` 4 (the upper bits of the DSCP),
/// `dscp2` 2 (its lower bits), `proto` 6, `bfir_id` 16. The bitstring is a
/// sequence of 32-bit words.
#[derive(Debug)]
pub struct Bier {
    pub bift_id: u32,
    pub tc: u8,
    pub s: u8,
    pub ttl: u8,
    pub nibble: u8,
    pub version: u8,
    pub bsl: u8,
    pub entropy: u32,
    pub oam: u8,
    pub rsv: u8,
    pub dscp4: u8,
    pub dscp2: u8,
    pub proto: u8,
    pub bfir_id: u16,
    pub bitstring: Vec<u32>,
    pub payload: Vec<u8>,
}

/// Why a header could not be encoded or decoded.
#[derive(PartialEq, Eq, Debug, Clone, Copy)]
pub enum CodecError {
    /// The buffer is shorter than the header and its bitstring.
    TruncatedHeader,
    /// A field holds a value wider than the field.
    FieldOverflow,
    /// The BSL field codes no bitstring length.
    UnsupportedBSL,
    /// The bitstring does not have the number of words that its BSL codes.
    BitStringLength,
}

/// The number of bytes before the bitstring.
pub const HEADER_LEN: usize = 12;

/// Every field fits its width.
pub open spec fn fields_in_range(h: &Bier) -> bool {
    &&& h.bift_id < 0x10_0000
    &&& h.tc < 8
    &&& h.s < 2
    &&& h.nibble < 16
    &&& h.version < 16
    &&& h.bsl < 16
    &&& h.entropy < 0x10_0000
    &&& h.oam < 4
    &&& h.rsv < 4
    &&& h.dscp4 < 16
    &&& h.dscp2 < 4
    &&& h.proto < 64
}

/// The number of 32-bit words of the bitstring that BSL `bsl` codes: BSL
/// `k` in 1..=7 codes a bitstring of 2^(k+5) bits; other codes are unused.
pub open spec fn bitstring_words(bsl: u8) -> Option<nat> {
    match bsl {
        1 => Some(2),
        2 => Some(4),
        3 => Some(8),
        4 => Some(16),
        5 => Some(32),
        6 => Some(64),
        7 => Some(128),
        _ => None,
    }
}

/// The six-bit DSCP of its two parts.
pub open spec fn dscp_of(dscp4: u8, dscp2: u8) -> int {
    dscp4 * 4 + dscp2
}

/// The twelve bytes before the bitstring, most significant bit first.
pub open spec fn header_bytes(h: &Bier) -> Seq<u8> {
    seq![
        (h.bift_id >> 12u32) as u8,
        ((h.bift_id >> 4u32) & 0xffu32) as u8,
        (((h.bift_id & 0xfu32) << 4u32) | ((h.tc as u32) << 1u32) | (h.s as u32)) as u8,
        h.ttl,
        (((h.nibble as u32) << 4u32) | (h.version as u32)) as u8,
        (((h.bsl as u32) << 4u32) | (h.entropy >> 16u32)) as u8,
        ((h.entropy >> 8u32) & 0xffu32) as u8,
        (h.entropy & 0xffu32) as u8,
        (((h.oam as u32) << 6u32) | ((h.rsv as u32) << 4u32) | (h.dscp4 as u32)) as u8,
        (((h.dscp2 as u32) << 6u32) | (h.proto as u32)) as u8,
        (h.bfir_id >> 8u16) as u8,
        (h.bfir_id & 0xffu16) as u8,
    ]
}

/// Byte `j` (0 to 3, most significant first) of word `w`.
pub open spec fn word_byte(w: u32, j: int) -> u8 {
    if j == 0 {
        (w >> 24u32) as u8
    } else if j == 1 {
        ((w >> 16u32) & 0xffu32) as u8
    } else if j == 2 {
        ((w >> 8u32) & 0xffu32) as u8
    } else {
        (w & 0xffu32) as u8
    }
}

/// The words of a bitstring as bytes, each most significant byte first.
pub open spec fn words_bytes(ws: Seq<u32>) -> Seq<u8> {
    Seq::new(4 * ws.len(), |j: int| word_byte(ws[j / 4], j % 4))
}

/// The bytes of a header: its fixed fields, its bitstring, its payload.
pub open spec fn encoding(h: &Bier) -> Seq<u8> {
    header_bytes(h) + words_bytes(h.bitstring@) + h.payload@
}

/// The word whose bytes start at `i`, most significant first.
pub open spec fn word_at(b: Seq<u8>, i: int) -> u32 {
    ((b[i] as u32) << 24u32) | ((b[i + 1] as u32) << 16u32) | ((b[i + 2] as u32) << 8u32) | (b[i + 3] as u32)
}

/// The header that bytes `b` hold, field by field; `b` holds at least the
/// twelve fixed bytes and the bitstring that they code.
pub open spec fn decoded(h: &Bier, b: Seq<u8>) -> bool {
    &&& h.bift_id == ((b[0] as u32) << 12u32) | ((b[1] as u32) << 4u32) | ((b[2] as u32) >> 4u32)
    &&& h.tc == ((b[2] >> 1u8) & 7u8)
    &&& h.s == (b[2] & 1u8)
    &&& h.ttl == b[3]
    &&& h.nibble == (b[4] >> 4u8)
    &&& h.version == (b[4] & 0xfu8)
    &&& h.bsl == (b[5] >> 4u8)
    &&& h.entropy == (((b[5] & 0xfu8) as u32) << 16u32) | ((b[6] as u32) << 8u32) | (b[7] as u32)
    &&& h.oam == (b[8] >> 6u8)
    &&& h.rsv == ((b[8] >> 4u8) & 3u8)
    &&& h.dscp4 == (b[8] & 0xfu8)
    &&& h.dscp2 == (b[9] >> 6u8)
    &&& h.proto == (b[9] & 0x3fu8)
    &&& h.bfir_id == ((b[10] as u16) << 8u16) | (b[11] as u16)
    &&& bitstring_words(h.bsl) matches Some(w) && h.bitstring@ == Seq::new(
        w,
        |i: int| word_at(b, 12 + 4 * i),
    ) && h.payload@ == b.subrange(12 + 4 * w as int, b.len() as int)
}

impl Bier {
    /// The six-bit DSCP: the upper four bits, then the lower two.
    pub fn get_dscp(&self) -> (r: u8)
        requires
            self.dscp4 < 16,
            self.dscp2 < 4,
        ensures
            r == dscp_of(self.dscp4, self.dscp2),
    {
        self.dscp4 * 4 + self.dscp2
    }

    /// Sets the six-bit DSCP: its upper four bits in `dscp4`, its lower two
    /// in `dscp2`.
    pub fn set_dscp(&mut self, dscp: u8)
        requires
            dscp < 64,
        ensures
            final(self).dscp4 == dscp / 4,
            final(self).dscp2 == dscp % 4,
            dscp_of(final(self).dscp4, final(self).dscp2) == dscp,
            final(self).bift_id == old(self).bift_id,
            final(self).tc == old(self).tc,
            final(self).s == old(self).s,
            final(self).ttl == old(self).ttl,
            final(self).nibble == old(self).nibble,
            final(self).version == old(self).version,
            final(self).bsl == old(self).bsl,
            final(self).entropy == old(self).entropy,
            final(self).oam == old(self).oam,
            final(self).rsv == old(self).rsv,
            final(self).proto == old(self).proto,
            final(self).bfir_id == old(self).bfir_id,
            final(self).bitstring@ == old(self).bitstring@,
            final(self).payload@ == old(self).payload@,
    {
        self.dscp4 = dscp / 4;
        self.dscp2 = dscp % 4;
    }
}

/// The number of 32-bit words of the bitstring that BSL `bsl` codes, if it
/// codes one.
pub fn bitstring_length(bsl: u8) -> (r: Option<usize>)
    ensures
        r matches Some(w) ==> bitstring_words(bsl) == Some(w as nat),
        r is None ==> bitstring_words(bsl) is None,
{
    match bsl {
        1 => Some(2),
        2 => Some(4),
        3 => Some(8),
        4 => Some(16),
        5 => Some(32),
        6 => Some(64),
        7 => Some(128),
        _ => None,
    }
}

/// Appends the bytes of `ws` to `out`.
fn push_words(out: &mut Vec<u8>, ws: &Vec<u32>)
    ensures
        final(out)@ == old(out)@ + words_bytes(ws@),
{
    let ghost start = out@;
    let mut i: usize = 0;
    while i < ws.len()
        invariant
            i <= ws.len(),
            out@ == start + words_bytes(ws@.take(i as int)),
        decreases ws.len() - i,
    {
        let w = ws[i];
        out.push((w >> 24u32) as u8);
        out.push(((w >> 16u32) & 0xffu32) as u8);
        out.push(((w >> 8u32) & 0xffu32) as u8);
        out.push((w & 0xffu32) as u8);
        proof {
            let next = words_bytes(ws@.take(i + 1));
            let prev = words_bytes(ws@.take(i as int));
            assert forall|j: int| 0 <= j < 4 * (i + 1) implies #[trigger] next[j] == (prev + seq![
                word_byte(w, 0),
                word_byte(w, 1),
                word_byte(w, 2),
                word_byte(w, 3),
            ])[j] by {
                if j < 4 * i {
                    assert(j / 4 < i);
                } else {
                    assert(j / 4 == i);
                }
            }
            assert(next =~= prev + seq![
                word_byte(w, 0),
                word_byte(w, 1),
                word_byte(w, 2),
                word_byte(w, 3),
            ]);
        }
        i = i + 1;
    }
    assert(ws@.take(ws.len() as int) =~= ws@);
}

/// Appends the bytes of `b` to `out`.
fn push_bytes(out: &mut Vec<u8>, b: &Vec<u8>)
    ensures
        final(out)@ == old(out)@ + b@,
{
    let ghost start = out@;
    let mut i: usize = 0;
    while i < b.len()
        invariant
            i <= b.len(),
            out@ == start + b@.take(i as int),
        decreases b.len() - i,
    {
        out.push(b[i]);
        assert(b@.take(i + 1) =~= b@.take(i as int).push(b[i as int]));
        i = i + 1;
    }
    assert(b@.take(b.len() as int) =~= b@);
}

/// The bytes of a header: the twelve fixed bytes, the bitstring and the
/// payload. `FieldOverflow` when a field is wider than its width; else
/// `UnsupportedBSL` when its BSL codes no bitstring length; else
/// `BitStringLength` when the bitstring does not have the length coded.
pub fn encode(h: &Bier) -> (r: Result<Vec<u8>, CodecError>)
    ensures
        !fields_in_range(h) ==> r == Err::<Vec<u8>, CodecError>(CodecError::FieldOverflow),
        fields_in_range(h) && bitstring_words(h.bsl) is None ==> r == Err::<Vec<u8>, CodecError>(
            CodecError::UnsupportedBSL,
        ),
        fields_in_range(h) && bitstring_words(h.bsl) is Some && h.bitstring.len() != bitstring_words(h.bsl).unwrap() ==> r
            == Err::<Vec<u8>, CodecError>(CodecError::BitStringLength),
        fields_in_range(h) && bitstring_words(h.bsl) == Some(h.bitstring.len() as nat) ==> (r matches Ok(
            b,
        ) && b@ == encoding(h)),
{
    if !(h.bift_id < 0x10_0000 && h.tc < 8 && h.s < 2 && h.nibble < 16 && h.version < 16 && h.bsl
        < 16 && h.entropy < 0x10_0000 && h.oam < 4 && h.rsv < 4 && h.dscp4 < 16 && h.dscp2 < 4
        && h.proto < 64) {
        return Err(CodecError::FieldOverflow);
    }
    let words = match bitstring_length(h.bsl) {
        Some(w) => w,
        None => return Err(CodecError::UnsupportedBSL),
    };
    if h.bitstring.len() != words {
        return Err(CodecError::BitStringLength);
    }
    let mut out: Vec<u8> = Vec::new();
    out.push((h.bift_id >> 12u32) as u8);
    out.push(((h.bift_id >> 4u32) & 0xffu32) as u8);
    out.push((((h.bift_id & 0xfu32) << 4u32) | ((h.tc as u32) << 1u32) | (h.s as u32)) as u8);
    out.push(h.ttl);
    out.push((((h.nibble as u32) << 4u32) | (h.version as u32)) as u8);
    out.push((((h.bsl as u32) << 4u32) | (h.entropy >> 16u32)) as u8);
    out.push(((h.entropy >> 8u32) & 0xffu32) as u8);
    out.push((h.entropy & 0xffu32) as u8);
    out.push((((h.oam as u32) << 6u32) | ((h.rsv as u32) << 4u32) | (h.dscp4 as u32)) as u8);
    out.push((((h.dscp2 as u32) << 6u32) | (h.proto as u32)) as u8);
    out.push((h.bfir_id >> 8u16) as u8);
    out.push((h.bfir_id & 0xffu16) as u8);
    assert(out@ =~= header_bytes(h));
    push_words(&mut out, &h.bitstring);
    push_bytes(&mut out, &h.payload);
    Ok(out)
}

/// The header that `buf` holds. `TruncatedHeader` when `buf` is shorter
/// than the twelve fixed bytes; else `UnsupportedBSL` when its BSL codes no
/// bitstring length; else `TruncatedHeader` when it is shorter than the
/// fixed bytes and the bitstring. The input is only read.
pub fn decode(buf: &[u8]) -> (r: Result<Bier, CodecError>)
    ensures
        buf.len() < HEADER_LEN ==> r == Err::<Bier, CodecError>(CodecError::TruncatedHeader),
        buf.len() >= HEADER_LEN && bitstring_words(buf[5] >> 4u8) is None ==> r == Err::<
            Bier,
            CodecError,
        >(CodecError::UnsupportedBSL),
        buf.len() >= HEADER_LEN && bitstring_words(buf[5] >> 4u8) is Some && buf.len()
            < HEADER_LEN + 4 * bitstring_words(buf[5] >> 4u8).unwrap() ==> r == Err::<Bier, CodecError>(CodecError::TruncatedHeader),
        buf.len() >= HEADER_LEN && bitstring_words(buf[5] >> 4u8) is Some && buf.len()
            >= HEADER_LEN + 4 * bitstring_words(buf[5] >> 4u8).unwrap() ==> (r matches Ok(h) && decoded(&h, buf@) && fields_in_range(&h)),
{
    if buf.len() < HEADER_LEN {
        return Err(CodecError::TruncatedHeader);
    }
    let bsl = buf[5] >> 4u8;
    let words = match bitstring_length(bsl) {
        Some(w) => w,
        None => return Err(CodecError::UnsupportedBSL),
    };
    if buf.len() - HEADER_LEN < 4 * words {
        return Err(CodecError::TruncatedHeader);
    }
    let mut bitstring: Vec<u32> = Vec::new();
    let mut i: usize = 0;
    while i < words
        invariant
            words <= 128,
            buf.len() >= HEADER_LEN + 4 * words,
            i <= words,
            bitstring@ == Seq::new(i as nat, |k: int| word_at(buf@, 12 + 4 * k)),
        decreases words - i,
    {
        let at = HEADER_LEN + 4 * i;
        let w = ((buf[at] as u32) << 24u32) | ((buf[at + 1] as u32) << 16u32) | ((buf[at + 2] as u32)
            << 8u32) | (buf[at + 3] as u32);
        bitstring.push(w);
        assert(bitstring@ =~= Seq::new((i + 1) as nat, |k: int| word_at(buf@, 12 + 4 * k)));
        i = i + 1;
    }
    let mut payload: Vec<u8> = Vec::new();
    let start = HEADER_LEN + 4 * words;
    let mut j: usize = start;
    while j < buf.len()
        invariant
            start <= j <= buf.len(),
            payload@ == buf@.subrange(start as int, j as int),
        decreases buf.len() - j,
    {
        payload.push(buf[j]);
        assert(payload@ =~= buf@.subrange(start as int, j + 1));
        j = j + 1;
    }
    let b0 = buf[0];
    let b1 = buf[1];
    let b2 = buf[2];
    let b4 = buf[4];
    let b5 = buf[5];
    let b8 = buf[8];
    let b9 = buf[9];
    let h = Bier {
        bift_id: ((b0 as u32) << 12u32) | ((b1 as u32) << 4u32) | ((b2 as u32) >> 4u32),
        tc: (b2 >> 1u8) & 7u8,
        s: b2 & 1u8,
        ttl: buf[3],
        nibble: b4 >> 4u8,
        version: b4 & 0xfu8,
        bsl,
        entropy: (((b5 & 0xfu8) as u32) << 16u32) | ((buf[6] as u32) << 8u32) | (buf[7] as u32),
        oam: b8 >> 6u8,
        rsv: (b8 >> 4u8) & 3u8,
        dscp4: b8 & 0xfu8,
        dscp2: b9 >> 6u8,
        proto: b9 & 0x3fu8,
        bfir_id: ((buf[10] as u16) << 8u16) | (buf[11] as u16),
        bitstring,
        payload,
    };
    proof {
        lemma_decoded_fields_fit(b0, b1, b2, b4, b5, buf[6], buf[7], b8, b9);
    }
    Ok(h)
}

/// Fields read back from bytes fit their widths.
proof fn lemma_decoded_fields_fit(b0: u8, b1: u8, b2: u8, b4: u8, b5: u8, b6: u8, b7: u8, b8: u8, b9: u8)
    by (bit_vector)
    ensures
        (((b0 as u32) << 12u32) | ((b1 as u32) << 4u32) | ((b2 as u32) >> 4u32)) < 0x10_0000,
        ((b2 >> 1u8) & 7u8) < 8,
        (b2 & 1u8) < 2,
        (b4 >> 4u8) < 16,
        (b4 & 0xfu8) < 16,
        (b5 >> 4u8) < 16,
        ((((b5 & 0xfu8) as u32) << 16u32) | ((b6 as u32) << 8u32) | (b7 as u32)) < 0x10_0000,
        (b8 >> 6u8) < 4,
        ((b8 >> 4u8) & 3u8) < 4,
        (b8 & 0xfu8) < 16,
        (b9 >> 6u8) < 4,
        (b9 & 0x3fu8) < 64,
{
}

proof fn lemma_bift_bytes(bift: u32, tc: u8, s: u8)
    by (bit_vector)
    requires
        bift < 0x10_0000,
        tc < 8,
        s < 2,
    ensures
        ((((bift >> 12u32) as u8) as u32) << 12u32) | (((((bift >> 4u32) & 0xffu32) as u8) as u32) << 4u32)
            | (((((bift & 0xfu32) << 4u32) | ((tc as u32) << 1u32) | (s as u32)) as u8) as u32 >> 4u32)
            == bift,
        (((((bift & 0xfu32) << 4u32) | ((tc as u32) << 1u32) | (s as u32)) as u8) >> 1u8) & 7u8 == tc,
        ((((bift & 0xfu32) << 4u32) | ((tc as u32) << 1u32) | (s as u32)) as u8) & 1u8 == s,
{
}

proof fn lemma_nibble_byte(nibble: u8, version: u8)
    by (bit_vector)
    requires
        nibble < 16,
        version < 16,
    ensures
        ((((nibble as u32) << 4u32) | (version as u32)) as u8) >> 4u8 == nibble,
        ((((nibble as u32) << 4u32) | (version as u32)) as u8) & 0xfu8 == version,
{
}

proof fn lemma_entropy_bytes(bsl: u8, entropy: u32)
    by (bit_vector)
    requires
        bsl < 16,
        entropy < 0x10_0000,
    ensures
        ((((bsl as u32) << 4u32) | (entropy >> 16u32)) as u8) >> 4u8 == bsl,
        (((((((bsl as u32) << 4u32) | (entropy >> 16u32)) as u8) & 0xfu8) as u32) << 16u32) | (((((
        entropy >> 8u32) & 0xffu32) as u8) as u32) << 8u32) | (((entropy & 0xffu32) as u8) as u32)
            == entropy,
{
}

proof fn lemma_dscp_bytes(oam: u8, rsv: u8, dscp4: u8, dscp2: u8, proto: u8)
    by (bit_vector)
    requires
        oam < 4,
        rsv < 4,
        dscp4 < 16,
        dscp2 < 4,
        proto < 64,
    ensures
        ((((oam as u32) << 6u32) | ((rsv as u32) << 4u32) | (dscp4 as u32)) as u8) >> 6u8 == oam,
        (((((oam as u32) << 6u32) | ((rsv as u32) << 4u32) | (dscp4 as u32)) as u8) >> 4u8) & 3u8 == rsv,
        ((((oam as u32) << 6u32) | ((rsv as u32) << 4u32) | (dscp4 as u32)) as u8) & 0xfu8 == dscp4,
        ((((dscp2 as u32) << 6u32) | (proto as u32)) as u8) >> 6u8 == dscp2,
        ((((dscp2 as u32) << 6u32) | (proto as u32)) as u8) & 0x3fu8 == proto,
{
}

proof fn lemma_bfir_bytes(bfir: u16)
    by (bit_vector)
    ensures
        ((((bfir >> 8u16) as u8) as u16) << 8u16) | (((bfir & 0xffu16) as u8) as u16) == bfir,
{
}

proof fn lemma_word_bytes(w: u32)
    by (bit_vector)
    ensures
        ((((w >> 24u32) as u8) as u32) << 24u32) | (((((w >> 16u32) & 0xffu32) as u8) as u32) << 16u32)
            | (((((w >> 8u32) & 0xffu32) as u8) as u32) << 8u32) | (((w & 0xffu32) as u8) as u32) == w,
{
}

/// Encoding a header whose fields fit and whose bitstring has the length
/// that its BSL codes, then decoding the bytes, gives back every field, the
/// bitstring word for word and the payload: the bytes are long enough and
/// carry the BSL, so decoding succeeds, and any header they decode to is
/// the one encoded.
pub proof fn lemma_round_trip(h: Bier, h2: Bier)
    requires
        fields_in_range(&h),
        bitstring_words(h.bsl) == Some(h.bitstring.len() as nat),
    ensures
        encoding(&h).len() >= HEADER_LEN + 4 * h.bitstring.len(),
        encoding(&h)[5] >> 4u8 == h.bsl,
        decoded(&h2, encoding(&h)) ==> {
            &&& h2.bift_id == h.bift_id
            &&& h2.tc == h.tc
            &&& h2.s == h.s
            &&& h2.ttl == h.ttl
            &&& h2.nibble == h.nibble
            &&& h2.version == h.version
            &&& h2.bsl == h.bsl
            &&& h2.entropy == h.entropy
            &&& h2.oam == h.oam
            &&& h2.rsv == h.rsv
            &&& h2.dscp4 == h.dscp4
            &&& h2.dscp2 == h.dscp2
            &&& h2.proto == h.proto
            &&& h2.bfir_id == h.bfir_id
            &&& h2.bitstring@ == h.bitstring@
            &&& h2.payload@ == h.payload@
        },
{
    let e = encoding(&h);
    let n = h.bitstring.len() as int;
    lemma_bift_bytes(h.bift_id, h.tc, h.s);
    lemma_nibble_byte(h.nibble, h.version);
    lemma_entropy_bytes(h.bsl, h.entropy);
    lemma_dscp_bytes(h.oam, h.rsv, h.dscp4, h.dscp2, h.proto);
    lemma_bfir_bytes(h.bfir_id);
    assert(e.len() == 12 + 4 * n + h.payload.len());
    assert forall|i: int| 0 <= i < 12 implies #[trigger] e[i] == header_bytes(&h)[i] by {}
    if decoded(&h2, e) {
        assert(h2.bsl == h.bsl);
        assert forall|i: int| 0 <= i < n implies #[trigger] h2.bitstring@[i] == h.bitstring@[i] by {
            let w = h.bitstring@[i];
            assert(words_bytes(h.bitstring@)[4 * i] == word_byte(w, 0));
            assert(words_bytes(h.bitstring@)[4 * i + 1] == word_byte(w, 1));
            assert(words_bytes(h.bitstring@)[4 * i + 2] == word_byte(w, 2));
            assert(words_bytes(h.bitstring@)[4 * i + 3] == word_byte(w, 3));
            assert(e[12 + 4 * i] == word_byte(w, 0));
            assert(e[12 + 4 * i + 1] == word_byte(w, 1));
            assert(e[12 + 4 * i + 2] == word_byte(w, 2));
            assert(e[12 + 4 * i + 3] == word_byte(w, 3));
            lemma_word_bytes(w);
        }
        assert(h2.bitstring@ =~= h.bitstring@);
        assert(h2.payload@ =~= h.payload@);
    }
}

/// The DSCP of the header held in bytes `b`: the low four bits of byte 8,
/// then the high two bits of byte 9.
pub open spec fn dscp_at(b: Seq<u8>) -> int {
    dscp_of(b[8] & 0xfu8, b[9] >> 6u8)
}

/// A BIER header read in place from a buffer of at least twelve bytes.
pub struct BierPacket<'a> {
    packet: &'a [u8],
}

impl<'a> BierPacket<'a> {
    /// The bytes read.
    pub closed spec fn bytes(&self) -> Seq<u8> {
        self.packet@
    }

    /// A view of `packet`, when it holds the twelve fixed bytes.
    pub fn new(packet: &'a [u8]) -> (r: Option<BierPacket<'a>>)
        ensures
            packet.len() < HEADER_LEN ==> r is None,
            packet.len() >= HEADER_LEN ==> (r matches Some(p) && p.bytes() == packet@),
    {
        if packet.len() < HEADER_LEN {
            None
        } else {
            Some(BierPacket { packet })
        }
    }

    /// The six-bit DSCP.
    pub fn get_dscp(&self) -> (r: u8)
        requires
            self.bytes().len() >= HEADER_LEN,
        ensures
            r == dscp_at(self.bytes()),
    {
        let high = self.packet[8] & 0xfu8;
        let low = self.packet[9] >> 6u8;
        proof {
            lemma_dscp_parts(self.packet@[8], self.packet@[9]);
        }
        high * 4 + low
    }
}

/// A BIER header written in place in a buffer of at least twelve bytes.
pub struct MutableBierPacket {
    buffer: Vec<u8>,
}

impl MutableBierPacket {
    /// The bytes held.
    pub closed spec fn bytes(&self) -> Seq<u8> {
        self.buffer@
    }

    /// A view of `buffer`, when it holds the twelve fixed bytes.
    pub fn new(buffer: Vec<u8>) -> (r: Option<MutableBierPacket>)
        ensures
            buffer.len() < HEADER_LEN ==> r is None,
            buffer.len() >= HEADER_LEN ==> (r matches Some(p) && p.bytes() == buffer@),
    {
        if buffer.len() < HEADER_LEN {
            None
        } else {
            Some(MutableBierPacket { buffer })
        }
    }

    /// The bytes held.
    pub fn into_bytes(self) -> (r: Vec<u8>)
        ensures
            r@ == self.bytes(),
    {
        self.buffer
    }

    /// Writes the six-bit DSCP as one unit: its upper four bits in the low
    /// bits of byte 8, its lower two in the high bits of byte 9. Every other
    /// bit is kept.
    pub fn set_dscp(&mut self, dscp: u8)
        requires
            old(self).bytes().len() >= HEADER_LEN,
            dscp < 64,
        ensures
            final(self).bytes().len() == old(self).bytes().len(),
            dscp_at(final(self).bytes()) == dscp,
            final(self).bytes()[8] & 0xf0u8 == old(self).bytes()[8] & 0xf0u8,
            final(self).bytes()[9] & 0x3fu8 == old(self).bytes()[9] & 0x3fu8,
            forall|i: int|
                0 <= i < old(self).bytes().len() && i != 8 && i != 9 ==> final(self).bytes()[i] == old(
                    self,
                ).bytes()[i],
    {
        let b8 = self.buffer[8];
        let b9 = self.buffer[9];
        let n8 = (b8 & 0xf0u8) | (dscp >> 2u8);
        let n9 = (b9 & 0x3fu8) | ((dscp & 3u8) << 6u8);
        proof {
            lemma_set_dscp_bytes(b8, b9, dscp);
            lemma_dscp_parts(n8, n9);
        }
        self.buffer.set(8, n8);
        self.buffer.set(9, n9);
    }

    /// The six-bit DSCP.
    pub fn get_dscp(&mut self) -> (r: u8)
        requires
            old(self).bytes().len() >= HEADER_LEN,
        ensures
            final(self).bytes() == old(self).bytes(),
            r == dscp_at(old(self).bytes()),
    {
        let high = self.buffer[8] & 0xfu8;
        let low = self.buffer[9] >> 6u8;
        proof {
            lemma_dscp_parts(self.buffer@[8], self.buffer@[9]);
        }
        high * 4 + low
    }
}

proof fn lemma_dscp_parts(b8: u8, b9: u8)
    by (bit_vector)
    ensures
        b8 & 0xfu8 < 16,
        b9 >> 6u8 < 4,
{
}

proof fn lemma_set_dscp_bytes(b8: u8, b9: u8, dscp: u8)
    by (bit_vector)
    requires
        dscp < 64,
    ensures
        (((b8 & 0xf0u8) | (dscp >> 2u8)) & 0xfu8) * 4 + (((b9 & 0x3fu8) | ((dscp & 3u8) << 6u8)) >> 6u8) == dscp,
        ((b8 & 0xf0u8) | (dscp >> 2u8)) & 0xf0u8 == b8 & 0xf0u8,
        ((b9 & 0x3fu8) | ((dscp & 3u8) << 6u8)) & 0x3fu8 == b9 & 0x3fu8,
{
}

} // verus!
