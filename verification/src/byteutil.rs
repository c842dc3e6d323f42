use vstd::prelude::*;
use crate::text_util::{
    decimal, digits, hex, padded, push_char, push_decimal, push_hex, push_padded, push_signed,
    push_str, signed_decimal,
};

verus! {

/// `256` to the power `k`.
pub open spec fn pow256(k: nat) -> nat
    decreases k,
{
    if k == 0 {
        1
    } else {
        256 * pow256((k - 1) as nat)
    }
}

/// The number whose little-endian bytes are `s` (first byte least significant).
pub open spec fn le_value(s: Seq<u8>) -> nat
    decreases s.len(),
{
    if s.len() == 0 {
        0
    } else {
        s[0] as nat + 256 * le_value(s.drop_first())
    }
}

/// The number whose big-endian bytes are `s` (last byte least significant).
pub open spec fn be_value(s: Seq<u8>) -> nat
    decreases s.len(),
{
    if s.len() == 0 {
        0
    } else {
        be_value(s.drop_last()) * 256 + s.last() as nat
    }
}

pub proof fn lemma_le_value_bound(s: Seq<u8>)
    ensures
        le_value(s) < pow256(s.len()),
    decreases s.len(),
{
    if s.len() > 0 {
        lemma_le_value_bound(s.drop_first());
    }
}

pub proof fn lemma_be_value_bound(s: Seq<u8>)
    ensures
        be_value(s) < pow256(s.len()),
    decreases s.len(),
{
    if s.len() > 0 {
        lemma_be_value_bound(s.drop_last());
    }
}

/// Reading `data` little-endian into a `size`-byte integer: the first `size` bytes, the
/// missing high bytes taken as zero.
pub open spec fn le_prefix_value(data: Seq<u8>, size: nat) -> nat {
    le_value(data.take(if data.len() < size { data.len() as int } else { size as int }))
}

/// Reading `data` big-endian into a `size`-byte integer: the last `size` bytes, the missing
/// high bytes taken as zero.
pub open spec fn be_suffix_value(data: Seq<u8>, size: nat) -> nat {
    if data.len() >= size {
        be_value(data.subrange(data.len() - size, data.len() as int))
    } else {
        be_value(data)
    }
}

/// The byte order a view reads its numbers in.
#[derive(Debug, PartialEq, Eq, Structural, Clone, Copy)]
pub enum Endian {
    Little,
    Big,
}

/// The value of a `size`-byte unsigned integer read from `data` in byte order `endian`.
pub open spec fn unsigned_value(data: Seq<u8>, size: nat, endian: Endian) -> nat {
    match endian {
        Endian::Little => le_prefix_value(data, size),
        Endian::Big => be_suffix_value(data, size),
    }
}

/// Two's complement: the signed value of the unsigned pattern `u` of a width whose sign bit
/// is worth `half`.
pub open spec fn twos_complement(u: int, half: int) -> int {
    if u >= half {
        u - 2 * half
    } else {
        u
    }
}

/// Little-endian value of the `size` bytes of `s` from `from` on.
fn read_le(s: &[u8], from: usize, size: usize) -> (r: u64)
    requires
        size <= 8,
        from + size <= s@.len(),
    ensures
        r == le_value(s@.subrange(from as int, from + size)),
{
    let total = s.len();
    let mut v: u64 = 0;
    let mut i: usize = size;
    while i > 0
        invariant
            i <= size <= 8,
            from + size <= s@.len(),
            total == s@.len(),
            v == le_value(s@.subrange(from + i, from + size)),
        decreases i,
    {
        proof {
            lemma_le_value_bound(s@.subrange(from + i, from + size));
            lemma_pow256_small((size - i) as nat);
        }
        i = i - 1;
        let b = s[from + i];
        proof {
            let sub = s@.subrange(from + i, from + size);
            assert(sub.drop_first() =~= s@.subrange(from + i + 1, from + size));
        }
        v = b as u64 + 256 * v;
    }
    v
}

/// Big-endian value of the bytes of `s` in `[from, to)`.
fn read_be(s: &[u8], from: usize, to: usize) -> (r: u64)
    requires
        from <= to <= s@.len(),
        to - from <= 8,
    ensures
        r == be_value(s@.subrange(from as int, to as int)),
{
    let mut v: u64 = 0;
    let mut i: usize = from;
    while i < to
        invariant
            from <= i <= to <= s@.len(),
            to - from <= 8,
            v == be_value(s@.subrange(from as int, i as int)),
        decreases to - i,
    {
        proof {
            lemma_be_value_bound(s@.subrange(from as int, i as int));
            lemma_pow256_small((i - from) as nat);
        }
        let b = s[i];
        proof {
            let sub = s@.subrange(from as int, i + 1);
            assert(sub.drop_last() =~= s@.subrange(from as int, i as int));
        }
        v = v * 256 + b as u64;
        i = i + 1;
    }
    v
}

pub proof fn lemma_pow256_small(k: nat)
    requires
        k < 8,
    ensures
        pow256(k) <= 0x100000000000000,
        pow256(k) * 256 <= 0x10000000000000000,
{
    reveal_with_fuel(pow256, 9);
    assert(pow256(0) == 1);
    if k > 0 {
        assert(pow256(k) <= pow256(7)) by {
            lemma_pow256_monotone(k, 7);
        }
    }
}

proof fn lemma_pow256_monotone(a: nat, b: nat)
    requires
        a <= b,
    ensures
        pow256(a) <= pow256(b),
    decreases b,
{
    if a < b {
        lemma_pow256_monotone(a, (b - 1) as nat);
    }
}

/// An unsigned value of `size` bytes read from `data` in byte order `endian`.
fn read_unsigned(data: &[u8], size: usize, endian: Endian) -> (r: u64)
    requires
        1 <= size <= 8,
    ensures
        r == unsigned_value(data@, size as nat, endian),
        r < pow256(size as nat),
{
    let len = data.len();
    match endian {
        Endian::Little => {
            let k = if len < size { len } else { size };
            let r = read_le(data, 0, k);
            proof {
                assert(data@.subrange(0, k as int) =~= data@.take(k as int));
                lemma_le_value_bound(data@.take(k as int));
                lemma_pow256_monotone(k as nat, size as nat);
            }
            r
        },
        Endian::Big => {
            if len >= size {
                let r = read_be(data, len - size, len);
                proof {
                    lemma_be_value_bound(data@.subrange(len - size, len as int));
                }
                r
            } else {
                let r = read_be(data, 0, len);
                proof {
                    assert(data@.subrange(0, len as int) =~= data@);
                    lemma_be_value_bound(data@);
                    lemma_pow256_monotone(len as nat, size as nat);
                }
                r
            }
        },
    }
}


/// A `u32` reinterpreted as `i32` is its two's complement value.
pub proof fn lemma_i32_bits_pub(u: u32)
    ensures
        (u as i32) as int == twos_complement(u as int, 0x8000_0000),
{
    lemma_i32_bits(u);
}

proof fn lemma_i16_bits(u: u16)
    ensures
        (u as i16) as int == twos_complement(u as int, 0x8000),
{
    assert(u >= 0x8000 ==> (u as i16) as int == u as int - 0x10000) by (bit_vector);
    assert(u < 0x8000 ==> (u as i16) as int == u as int) by (bit_vector);
}

proof fn lemma_i32_bits(u: u32)
    ensures
        (u as i32) as int == twos_complement(u as int, 0x8000_0000),
{
    assert(u >= 0x8000_0000 ==> (u as i32) as int == u as int - 0x1_0000_0000) by (bit_vector);
    assert(u < 0x8000_0000 ==> (u as i32) as int == u as int) by (bit_vector);
}

proof fn lemma_i64_bits(u: u64)
    ensures
        (u as i64) as int == twos_complement(u as int, 0x8000_0000_0000_0000),
{
    assert(u >= 0x8000_0000_0000_0000 ==> (u as i64) as int == u as int
        - 0x1_0000_0000_0000_0000) by (bit_vector);
    assert(u < 0x8000_0000_0000_0000 ==> (u as i64) as int == u as int) by (bit_vector);
}

proof fn lemma_sign_extend_24(u: u32)
    ensures
        ((((u as i32) << 8u32) >> 8u32) as int) == twos_complement((u % 0x100_0000) as int, 0x80_0000),
{
    assert((u & 0xFF_FFFF) == u % 0x100_0000) by (bit_vector);
    assert((u & 0xFF_FFFF) >= 0x80_0000 ==> (((u as i32) << 8u32) >> 8u32) as int == (u
        & 0xFF_FFFF) as int - 0x100_0000) by (bit_vector);
    assert((u & 0xFF_FFFF) < 0x80_0000 ==> (((u as i32) << 8u32) >> 8u32) as int == (u
        & 0xFF_FFFF) as int) by (bit_vector);
}


/// What `std::ascii::escape_default` makes of a byte: `\t`, `\r`, `\n`, `\'`, `\"` and `\\`
/// for those six, printable ASCII as itself, anything else as `\x` and two lowercase hex
/// digits.
pub open spec fn escaped_byte(b: u8) -> Seq<char> {
    if b == 9 {
        seq!['\\', 't']
    } else if b == 13 {
        seq!['\\', 'r']
    } else if b == 10 {
        seq!['\\', 'n']
    } else if b == 39 {
        seq!['\\', '\'']
    } else if b == 34 {
        seq!['\\', '"']
    } else if b == 92 {
        seq!['\\', '\\']
    } else if 0x20 <= b < 0x7f {
        seq![b as char]
    } else {
        seq!['\\', 'x'] + hex(b as nat, 2, false)
    }
}

/// The escaped text of a byte string, byte by byte.
pub open spec fn escaped_bytes(s: Seq<u8>) -> Seq<char>
    decreases s.len(),
{
    if s.len() == 0 {
        Seq::empty()
    } else {
        escaped_bytes(s.drop_last()) + escaped_byte(s.last())
    }
}

fn push_escaped_byte(out: &mut String, b: u8)
    ensures
        final(out)@ == old(out)@ + escaped_byte(b),
{
    if b == 9 {
        push_str(out, "\\t");
    } else if b == 13 {
        push_str(out, "\\r");
    } else if b == 10 {
        push_str(out, "\\n");
    } else if b == 39 {
        push_str(out, "\\'");
    } else if b == 34 {
        push_str(out, "\\\"");
    } else if b == 92 {
        push_str(out, "\\\\");
    } else if 0x20 <= b && b < 0x7f {
        push_char(out, b as char);
    } else {
        push_str(out, "\\x");
        push_hex(out, b as u64, 2, false);
    }
    proof {
        reveal_strlit("\\t");
        reveal_strlit("\\r");
        reveal_strlit("\\n");
        reveal_strlit("\\'");
        reveal_strlit("\\\"");
        reveal_strlit("\\\\");
        reveal_strlit("\\x");
        assert(out@ =~= old(out)@ + escaped_byte(b));
    }
}

/// The kinds of PostgreSQL varlena header.
#[derive(Debug, PartialEq, Eq, Structural, Clone, Copy)]
pub enum VarlenaType {
    ShortInline,
    ToastPointer,
    FourByteUncompressed,
    FourByteCompressed,
    Unknown,
}

/// The name of a varlena kind, as `Debug` writes it.
pub open spec fn varlena_type_name(t: VarlenaType) -> Seq<char> {
    match t {
        VarlenaType::ShortInline => "ShortInline"@,
        VarlenaType::ToastPointer => "ToastPointer"@,
        VarlenaType::FourByteUncompressed => "FourByteUncompressed"@,
        VarlenaType::FourByteCompressed => "FourByteCompressed"@,
        VarlenaType::Unknown => "Unknown"@,
    }
}

/// A varlena header: its kind and the length it records.
#[derive(Debug, PartialEq, Eq, Structural, Clone, Copy)]
pub struct VarlenaData(pub VarlenaType, pub u32);

impl VarlenaData {
    /// `kind,length`, as the header is shown.
    pub fn to_text(&self) -> (r: String)
        ensures
            r@ == varlena_type_name(self.0) + ","@ + decimal(self.1 as nat),
    {
        let mut s = String::new();
        match self.0 {
            VarlenaType::ShortInline => push_str(&mut s, "ShortInline"),
            VarlenaType::ToastPointer => push_str(&mut s, "ToastPointer"),
            VarlenaType::FourByteUncompressed => push_str(&mut s, "FourByteUncompressed"),
            VarlenaType::FourByteCompressed => push_str(&mut s, "FourByteCompressed"),
            VarlenaType::Unknown => push_str(&mut s, "Unknown"),
        }
        push_str(&mut s, ",");
        push_decimal(&mut s, self.1 as u64);
        s
    }
}

/// The header that `data` starts with. A low bit of 1 marks a one-byte header (exactly
/// `0x01` being a TOAST pointer, else a short inline value whose length is the upper seven
/// bits); otherwise the first four bytes, little-endian, hold the length shifted left by
/// two, and bit 4 of the first byte marks compression.
pub open spec fn varlena_header(data: Seq<u8>) -> Option<VarlenaData> {
    if data.len() == 0 {
        None
    } else if data[0] % 2 == 1 {
        if data[0] == 1 {
            Some(VarlenaData(VarlenaType::ToastPointer, 2))
        } else {
            Some(VarlenaData(VarlenaType::ShortInline, (data[0] / 2) as u32))
        }
    } else if data.len() < 4 {
        None
    } else {
        let total = (le_value(data.take(4)) / 4) as u32;
        if (data[0] / 16) % 2 == 1 {
            Some(VarlenaData(VarlenaType::FourByteCompressed, total))
        } else {
            Some(VarlenaData(VarlenaType::FourByteUncompressed, total))
        }
    }
}

pub fn parse_varlena_header(data: &[u8]) -> (r: Option<VarlenaData>)
    ensures
        r == varlena_header(data@),
{
    if data.len() == 0 {
        return None;
    }
    let hdr = data[0];
    proof {
        assert(hdr & 1 == hdr % 2) by (bit_vector);
        assert(hdr >> 1 == hdr / 2) by (bit_vector);
        assert((hdr & 0x10) != 0 <==> (hdr / 16) % 2 == 1) by (bit_vector);
    }
    if hdr & 0x01 == 1 {
        if hdr == 0x01 {
            Some(VarlenaData(VarlenaType::ToastPointer, 2))
        } else {
            let payload_len = (hdr >> 1) as u32;
            Some(VarlenaData(VarlenaType::ShortInline, payload_len))
        }
    } else {
        if data.len() < 4 {
            return None;
        }
        let hdr_le = read_le(data, 0, 4);
        proof {
            assert(data@.subrange(0, 4) =~= data@.take(4));
            lemma_le_value_bound(data@.take(4));
            reveal_with_fuel(pow256, 5);
        }
        let word = hdr_le as u32;
        proof {
            assert(word >> 2 == word / 4) by (bit_vector);
        }
        let total_len = word >> 2;
        if (data[0] & 0x10) != 0 {
            Some(VarlenaData(VarlenaType::FourByteCompressed, total_len))
        } else {
            Some(VarlenaData(VarlenaType::FourByteUncompressed, total_len))
        }
    }
}

/// A run of bytes read as numbers of several widths in a chosen byte order.
pub struct ByteView {
    data: Vec<u8>,
    endian: Endian,
}

impl ByteView {
    pub closed spec fn bytes(&self) -> Seq<u8> {
        self.data@
    }

    pub closed spec fn order(&self) -> Endian {
        self.endian
    }

    pub fn new(data: Vec<u8>, endian: Endian) -> (r: ByteView)
        ensures
            r.bytes() == data@,
            r.order() == endian,
    {
        ByteView { data, endian: endian }
    }

    pub fn get_data(&self) -> (r: &[u8])
        ensures
            r@ == self.bytes(),
    {
        self.data.as_slice()
    }

    /// The first byte as eight binary digits (`00000000` when there is none).
    pub fn to_binary_8bit(&self) -> (r: String)
        ensures
            self.bytes().len() == 0 ==> r@ == "00000000"@,
            self.bytes().len() > 0 ==> r@ == padded(digits(self.bytes()[0] as nat, 2, false), 8),
    {
        let mut s = String::new();
        if self.data.len() == 0 {
            push_str(&mut s, "00000000");
            proof {
                reveal_strlit("00000000");
            }
            return s;
        }
        push_padded(&mut s, self.data[0] as u64, 2, 8, false);
        s
    }

    pub fn len(&self) -> (r: usize)
        ensures
            r == self.bytes().len(),
    {
        self.data.len()
    }

    /// The first byte, or 0 when there is none.
    pub fn to_u8(&self) -> (r: u8)
        ensures
            r == (if self.bytes().len() > 0 { self.bytes()[0] } else { 0 }),
    {
        if self.data.len() > 0 {
            self.data[0]
        } else {
            0
        }
    }

    pub fn to_u16(&self) -> (r: u16)
        ensures
            r == unsigned_value(self.bytes(), 2, self.order()),
    {
        let v = read_unsigned(self.data.as_slice(), 2, self.endian);
        proof {
            reveal_with_fuel(pow256, 3);
        }
        v as u16
    }

    pub fn to_i16(&self) -> (r: i16)
        ensures
            r == twos_complement(unsigned_value(self.bytes(), 2, self.order()) as int, 0x8000),
    {
        let u = self.to_u16();
        proof {
            lemma_i16_bits(u);
        }
        u as i16
    }

    /// Reads four bytes, as `to_u32`.
    pub fn to_u24(&self) -> (r: u32)
        ensures
            r == unsigned_value(self.bytes(), 4, self.order()),
    {
        self.to_u32()
    }

    /// The low 24 bits of `to_u24`, sign-extended.
    pub fn to_i24(&self) -> (r: i32)
        ensures
            r == twos_complement(
                (unsigned_value(self.bytes(), 4, self.order()) % 0x100_0000) as int,
                0x80_0000,
            ),
    {
        let u = self.to_u24();
        proof {
            lemma_sign_extend_24(u);
        }
        ((u as i32) << 8u32) >> 8u32
    }

    pub fn to_u32(&self) -> (r: u32)
        ensures
            r == unsigned_value(self.bytes(), 4, self.order()),
    {
        let v = read_unsigned(self.data.as_slice(), 4, self.endian);
        proof {
            reveal_with_fuel(pow256, 5);
        }
        v as u32
    }

    pub fn to_i32(&self) -> (r: i32)
        ensures
            r == twos_complement(unsigned_value(self.bytes(), 4, self.order()) as int, 0x8000_0000),
    {
        let u = self.to_u32();
        proof {
            lemma_i32_bits(u);
        }
        u as i32
    }

    /// The first six bytes as a little-endian number (missing bytes read as zero), whatever
    /// the view's byte order.
    pub fn to_u48(&self) -> (r: u64)
        ensures
            r == le_prefix_value(self.bytes(), 6),
    {
        read_unsigned(self.data.as_slice(), 6, Endian::Little)
    }

    pub fn to_u64(&self) -> (r: u64)
        ensures
            r == unsigned_value(self.bytes(), 8, self.order()),
    {
        read_unsigned(self.data.as_slice(), 8, self.endian)
    }

    pub fn to_i64(&self) -> (r: i64)
        ensures
            r == twos_complement(
                unsigned_value(self.bytes(), 8, self.order()) as int,
                0x8000_0000_0000_0000,
            ),
    {
        let u = self.to_u64();
        proof {
            lemma_i64_bits(u);
        }
        u as i64
    }

    /// Every byte escaped as `std::ascii::escape_default` does, one after another.
    pub fn to_str(&self) -> (r: String)
        ensures
            r@ == escaped_bytes(self.bytes()),
    {
        let mut s = String::new();
        let mut i: usize = 0;
        while i < self.data.len()
            invariant
                i <= self.data@.len(),
                s@ == escaped_bytes(self.data@.take(i as int)),
            decreases self.data@.len() - i,
        {
            proof {
                assert(self.data@.take(i + 1).drop_last() =~= self.data@.take(i as int));
            }
            push_escaped_byte(&mut s, self.data[i]);
            i = i + 1;
        }
        proof {
            assert(self.data@.take(i as int) =~= self.data@);
        }
        s
    }

    /// The varlena header the bytes start with, or `(Unknown, 0)` when there is none.
    pub fn to_varlena(&self) -> (r: VarlenaData)
        ensures
            r == (match varlena_header(self.bytes()) {
                Some(v) => v,
                None => VarlenaData(VarlenaType::Unknown, 0),
            }),
    {
        match parse_varlena_header(self.data.as_slice()) {
            Some(v) => v,
            None => VarlenaData(VarlenaType::Unknown, 0),
        }
    }
}

/// The compression method named by the top two bits of `va_extinfo`.
pub open spec fn compression_name(method: nat, unknown: Seq<char>) -> Seq<char> {
    if method == 0 {
        "PGLZ"@
    } else if method == 1 {
        "LZ4"@
    } else {
        unknown
    }
}

/// The report on an eight-byte `va_rawsize`/`va_extinfo` pair.
pub open spec fn va_extinfo_report(buf: Seq<u8>) -> Seq<char> {
    let rawsize = twos_complement(le_value(buf.take(4)) as int, 0x8000_0000);
    let extinfo = le_value(buf.subrange(4, 8));
    let method = extinfo / 0x4000_0000;
    "va_rawsize = "@ + signed_decimal(rawsize) + "\nva_extinfo raw = 0x"@ + hex(extinfo, 8, true)
        + "\nextsize = "@ + decimal(extinfo % 0x4000_0000) + "\ncompression method = "@
        + compression_name(method, "unknown"@) + " (id="@ + decimal(method) + ")"@
}

/// Reads `va_rawsize` and `va_extinfo` (little-endian) from the first eight bytes and
/// reports them with the external size and compression method that `va_extinfo` holds.
pub fn format_va_extinfo(buf: &[u8]) -> (r: String)
    ensures
        buf@.len() < 8 ==> r@ == "buf < 8"@,
        buf@.len() >= 8 ==> r@ == va_extinfo_report(buf@),
{
    if buf.len() < 8 {
        return String::from_str("buf < 8");
    }
    let raw = read_le(buf, 0, 4);
    let extinfo = read_le(buf, 4, 4);
    proof {
        assert(buf@.subrange(0, 4) =~= buf@.take(4));
        lemma_le_value_bound(buf@.take(4));
        lemma_le_value_bound(buf@.subrange(4, 8));
        reveal_with_fuel(pow256, 5);
        lemma_i32_bits(raw as u32);
    }
    let va_rawsize = (raw as u32) as i32;
    let ext = extinfo as u32;
    proof {
        assert(ext & 0x3FFF_FFFF == ext % 0x4000_0000) by (bit_vector);
        assert(ext >> 30u32 == ext / 0x4000_0000) by (bit_vector);
    }
    let extsize = ext & 0x3FFF_FFFF;
    let method = ext >> 30u32;
    let mut s = String::new();
    push_str(&mut s, "va_rawsize = ");
    push_signed(&mut s, va_rawsize as i64);
    push_str(&mut s, "\nva_extinfo raw = 0x");
    push_hex(&mut s, ext as u64, 8, true);
    push_str(&mut s, "\nextsize = ");
    push_decimal(&mut s, extsize as u64);
    push_str(&mut s, "\ncompression method = ");
    if method == 0 {
        push_str(&mut s, "PGLZ");
    } else if method == 1 {
        push_str(&mut s, "LZ4");
    } else {
        push_str(&mut s, "unknown");
    }
    push_str(&mut s, " (id=");
    push_decimal(&mut s, method as u64);
    push_str(&mut s, ")");
    proof {
        assert(s@ =~= va_extinfo_report(buf@));
    }
    s
}

} // verus!
