use vstd::prelude::*;
use crate::byteutil::{compression_name, le_value, lemma_le_value_bound, pow256, twos_complement, ByteView};
use crate::text_util::{
    bool_text, decimal, hex, push_bool, push_decimal, push_hex, push_signed, push_str,
    signed_decimal,
};

verus! {

/// Little-endian value of the `size` bytes of `b` from `from` on.
pub open spec fn le_at(b: Seq<u8>, from: int, size: int) -> nat {
    le_value(b.subrange(from, from + size))
}

fn read_le_at(b: &[u8], from: usize, size: usize) -> (r: u64)
    requires
        1 <= size <= 8,
        from + size <= b@.len(),
    ensures
        r == le_at(b@, from as int, size as int),
        r < pow256(size as nat),
{
    let total = b.len();
    let mut v: u64 = 0;
    let mut i: usize = size;
    while i > 0
        invariant
            i <= size <= 8,
            from + size <= b@.len(),
            total == b@.len(),
            v == le_value(b@.subrange(from + i, from + size)),
            v < pow256((size - i) as nat),
        decreases i,
    {
        proof {
            crate::byteutil::lemma_pow256_small((size - i) as nat);
        }
        i = i - 1;
        let x = b[from + i];
        proof {
            let sub = b@.subrange(from + i, from + size);
            assert(sub.drop_first() =~= b@.subrange(from + i + 1, from + size));
        }
        v = x as u64 + 256 * v;
    }
    v
}

/// The header at the start of a PostgreSQL heap page.
#[derive(Debug, Clone, Copy)]
pub struct PageHeaderData {
    pub pd_lsn: u64,
    pub pd_checksum: u16,
    pub pd_flags: u16,
    pub pd_lower: u16,
    pub pd_upper: u16,
    pub pd_special: u16,
    pub pd_pagesize_version: u16,
    pub pd_prune_xid: u32,
}

/// A page's line pointers are the 4-byte `ItemIdData` entries between its 24-byte header
/// and `pd_lower`: the item count is how many whole entries fit there (none when `pd_lower`
/// does not pass the header).
pub proof fn lemma_item_count_layout(lower: u16)
    ensures
        lower <= 24 ==> item_count_of(lower) == 0,
        lower > 24 ==> 24 + 4 * item_count_of(lower) <= lower < 24 + 4 * (item_count_of(lower) + 1),
{
}

/// Number of line pointers: the bytes between the 24-byte header and `pd_lower`, four per
/// pointer.
pub open spec fn item_count_of(lower: u16) -> nat {
    if lower <= 24 {
        0
    } else {
        ((lower - 24) / 4) as nat
    }
}

/// The page size: the high byte of `pd_pagesize_version`, in place.
pub open spec fn page_size_of(v: u16) -> nat {
    (v / 256 * 256) as nat
}

/// The layout version: the low byte of `pd_pagesize_version`.
pub open spec fn layout_version_of(v: u16) -> u8 {
    (v % 256) as u8
}

pub open spec fn page_header_text(h: PageHeaderData) -> Seq<char> {
    "PageHeaderData {\n  pd_lsn:           0x"@ + hex(h.pd_lsn as nat, 16, false)
        + "\n  checksum:         "@ + decimal(h.pd_checksum as nat)
        + "\n  flags:            0x"@ + hex(h.pd_flags as nat, 4, false)
        + "\n  lower:            "@ + decimal(h.pd_lower as nat)
        + "\n  upper:            "@ + decimal(h.pd_upper as nat)
        + "\n  special:          "@ + decimal(h.pd_special as nat)
        + "\n  pagesize:         "@ + decimal(page_size_of(h.pd_pagesize_version)) + " bytes"@
        + "\n  layout_version:   "@ + decimal(layout_version_of(h.pd_pagesize_version) as nat)
        + "\n  prune_xid:        "@ + decimal(h.pd_prune_xid as nat)
        + "\n  item_count:       "@ + decimal(item_count_of(h.pd_lower)) + "\n}"@
}

impl PageHeaderData {
    pub fn item_count(&self) -> (r: usize)
        ensures
            r == item_count_of(self.pd_lower),
    {
        let header_size: usize = 24;
        if (self.pd_lower as usize) <= header_size {
            0
        } else {
            ((self.pd_lower as usize) - header_size) / 4
        }
    }

    pub fn page_size(&self) -> (r: usize)
        ensures
            r == page_size_of(self.pd_pagesize_version),
    {
        let v = self.pd_pagesize_version;
        proof {
            assert(v & 0xFF00 == v / 256 * 256) by (bit_vector);
        }
        (v & 0xFF00) as usize
    }

    pub fn layout_version(&self) -> (r: u8)
        ensures
            r == layout_version_of(self.pd_pagesize_version),
    {
        let v = self.pd_pagesize_version;
        proof {
            assert(v & 0x00FF == v % 256) by (bit_vector);
        }
        (v & 0x00FF) as u8
    }

    /// The header, field by field, one per line.
    pub fn to_text(&self) -> (r: String)
        ensures
            r@ == page_header_text(*self),
    {
        let mut s = String::new();
        push_str(&mut s, "PageHeaderData {\n  pd_lsn:           0x");
        push_hex(&mut s, self.pd_lsn, 16, false);
        push_str(&mut s, "\n  checksum:         ");
        push_decimal(&mut s, self.pd_checksum as u64);
        push_str(&mut s, "\n  flags:            0x");
        push_hex(&mut s, self.pd_flags as u64, 4, false);
        push_str(&mut s, "\n  lower:            ");
        push_decimal(&mut s, self.pd_lower as u64);
        push_str(&mut s, "\n  upper:            ");
        push_decimal(&mut s, self.pd_upper as u64);
        push_str(&mut s, "\n  special:          ");
        push_decimal(&mut s, self.pd_special as u64);
        push_str(&mut s, "\n  pagesize:         ");
        push_decimal(&mut s, self.page_size() as u64);
        push_str(&mut s, " bytes");
        push_str(&mut s, "\n  layout_version:   ");
        push_decimal(&mut s, self.layout_version() as u64);
        push_str(&mut s, "\n  prune_xid:        ");
        push_decimal(&mut s, self.pd_prune_xid as u64);
        push_str(&mut s, "\n  item_count:       ");
        push_decimal(&mut s, self.item_count() as u64);
        push_str(&mut s, "\n}");
        proof {
            assert(s@ =~= page_header_text(*self));
        }
        s
    }
}

/// The page header that the first 24 bytes of `b` hold, all fields little-endian.
pub open spec fn page_header_of(b: Seq<u8>) -> PageHeaderData {
    PageHeaderData {
        pd_lsn: le_at(b, 0, 8) as u64,
        pd_checksum: le_at(b, 8, 2) as u16,
        pd_flags: le_at(b, 10, 2) as u16,
        pd_lower: le_at(b, 12, 2) as u16,
        pd_upper: le_at(b, 14, 2) as u16,
        pd_special: le_at(b, 16, 2) as u16,
        pd_pagesize_version: le_at(b, 18, 2) as u16,
        pd_prune_xid: le_at(b, 20, 4) as u32,
    }
}

/// Decodes the page header at the start of the bytes and shows it.
pub fn parse_pg_page_header(b: &ByteView) -> (r: String)
    ensures
        b.bytes().len() < 24 ==> r@ == "pg_page_header < 24"@,
        b.bytes().len() >= 24 ==> r@ == page_header_text(page_header_of(b.bytes())),
{
    let buf = b.get_data();
    if buf.len() < 24 {
        return String::from_str("pg_page_header < 24");
    }
    proof {
        reveal_with_fuel(pow256, 9);
    }
    let p = PageHeaderData {
        pd_lsn: read_le_at(buf, 0, 8),
        pd_checksum: read_le_at(buf, 8, 2) as u16,
        pd_flags: read_le_at(buf, 10, 2) as u16,
        pd_lower: read_le_at(buf, 12, 2) as u16,
        pd_upper: read_le_at(buf, 14, 2) as u16,
        pd_special: read_le_at(buf, 16, 2) as u16,
        pd_pagesize_version: read_le_at(buf, 18, 2) as u16,
        pd_prune_xid: read_le_at(buf, 20, 4) as u32,
    };
    p.to_text()
}

/// A line pointer: where a tuple lies in the page, how long it is, and its state.
#[derive(Debug, Clone, Copy)]
pub struct ItemIdData {
    pub lp_off: u16,
    pub lp_flags: u8,
    pub lp_len: u16,
}

/// The name of a line pointer's state.
pub open spec fn item_flags_name(flags: u8) -> Seq<char> {
    if flags == 0 {
        "LP_UNUSED"@
    } else if flags == 1 {
        "LP_NORMAL"@
    } else if flags == 2 {
        "LP_REDIRECT"@
    } else if flags == 3 {
        "LP_DEAD"@
    } else {
        "UNKNOWN"@
    }
}

pub open spec fn item_id_text(item: ItemIdData) -> Seq<char> {
    "ItemIdData { off: "@ + decimal(item.lp_off as nat) + ", len: "@ + decimal(
        item.lp_len as nat,
    ) + ", flags: "@ + decimal(item.lp_flags as nat) + " ("@ + item_flags_name(item.lp_flags)
        + ") }"@
}

impl ItemIdData {
    pub fn to_text(&self) -> (r: String)
        ensures
            r@ == item_id_text(*self),
    {
        let mut s = String::new();
        push_str(&mut s, "ItemIdData { off: ");
        push_decimal(&mut s, self.lp_off as u64);
        push_str(&mut s, ", len: ");
        push_decimal(&mut s, self.lp_len as u64);
        push_str(&mut s, ", flags: ");
        push_decimal(&mut s, self.lp_flags as u64);
        push_str(&mut s, " (");
        if self.lp_flags == 0 {
            push_str(&mut s, "LP_UNUSED");
        } else if self.lp_flags == 1 {
            push_str(&mut s, "LP_NORMAL");
        } else if self.lp_flags == 2 {
            push_str(&mut s, "LP_REDIRECT");
        } else if self.lp_flags == 3 {
            push_str(&mut s, "LP_DEAD");
        } else {
            push_str(&mut s, "UNKNOWN");
        }
        push_str(&mut s, ") }");
        proof {
            assert(s@ =~= item_id_text(*self));
        }
        s
    }
}

/// The line pointer packed in a little-endian 32-bit word: offset in bits 0-14, state in
/// bits 15-16, length in bits 17-31.
pub open spec fn item_id_of(raw: nat) -> ItemIdData {
    ItemIdData {
        lp_off: (raw % 0x8000) as u16,
        lp_flags: ((raw / 0x8000) % 4) as u8,
        lp_len: ((raw / 0x20000) % 0x8000) as u16,
    }
}

/// The texts of the first `n` line pointers of `bytes` (four little-endian bytes each), one
/// per line.
pub open spec fn item_ids_text(bytes: Seq<u8>, n: nat) -> Seq<char>
    decreases n,
{
    if n == 0 {
        Seq::empty()
    } else if n == 1 {
        item_id_text(item_id_of(le_at(bytes, 0, 4)))
    } else {
        item_ids_text(bytes, (n - 1) as nat) + "\n"@ + item_id_text(item_id_of(le_at(bytes, 4 * (n - 1), 4)))
    }
}

/// Decodes the line pointer in four bytes at `from` of `buf`.
fn item_id_at(buf: &[u8], from: usize) -> (r: ItemIdData)
    requires
        from + 4 <= buf@.len(),
    ensures
        r == item_id_of(le_at(buf@, from as int, 4)),
{
    proof {
        reveal_with_fuel(pow256, 5);
    }
    let raw = read_le_at(buf, from, 4) as u32;
    proof {
        assert(raw & 0x7FFF == raw % 0x8000) by (bit_vector);
        assert((raw >> 15u32) & 0x3 == (raw / 0x8000) % 4) by (bit_vector);
        assert((raw >> 17u32) & 0x7FFF == (raw / 0x20000) % 0x8000) by (bit_vector);
    }
    ItemIdData {
        lp_off: (raw & 0x7FFF) as u16,
        lp_flags: ((raw >> 15u32) & 0x3) as u8,
        lp_len: ((raw >> 17u32) & 0x7FFF) as u16,
    }
}

/// Reads every line pointer of the view in turn (four bytes each; a shorter tail is left
/// out) and shows each decoded, one per line.
pub fn format_item_ids(b: &ByteView) -> (r: String)
    ensures
        b.bytes().len() < 4 ==> r@ == "item_ids < 4"@,
        b.bytes().len() >= 4 ==> r@ == item_ids_text(b.bytes(), b.bytes().len() / 4),
{
    let buf = b.get_data();
    if buf.len() < 4 {
        return String::from_str("item_ids < 4");
    }
    let count = buf.len() / 4;
    let mut s = String::new();
    let mut k: usize = 0;
    while k < count
        invariant
            count == buf@.len() / 4,
            buf@ == b.bytes(),
            k <= count,
            s@ == item_ids_text(buf@, k as nat),
        decreases count - k,
    {
        if k > 0 {
            push_str(&mut s, "\n");
        }
        assert(4 * k + 4 <= buf@.len());
        assert(buf@.len() == buf.len());
        let item = item_id_at(buf, 4 * k);
        let t = item.to_text();
        push_str(&mut s, t.as_str());
        k = k + 1;
    }
    s
}


/// The decoded fixed part of a heap tuple header.
#[derive(Debug, Clone, Copy)]
pub struct HeapTupleHeader {
    pub xmin: u32,
    pub xmax: u32,
    pub cid_or_xvac: u32,
    pub t_ctid_block: u32,
    pub t_ctid_index: u16,
    pub infomask2: u16,
    pub infomask: u16,
    pub t_hoff: u8,
    pub has_nulls: bool,
    pub null_bitmap_bytes: usize,
}

/// The `t_infomask` bits that are reported by name, in the order they are listed.
pub open spec fn infomask_bit(k: nat) -> u16 {
    if k == 0 {
        0x0001
    } else if k == 1 {
        0x0002
    } else if k == 2 {
        0x0004
    } else if k == 3 {
        0x0008
    } else if k == 4 {
        0x0100
    } else if k == 5 {
        0x0200
    } else if k == 6 {
        0x0400
    } else if k == 7 {
        0x0800
    } else {
        0x2000
    }
}

pub open spec fn infomask_name(k: nat) -> Seq<char> {
    if k == 0 {
        "HASNULL"@
    } else if k == 1 {
        "HASVARWIDTH"@
    } else if k == 2 {
        "HASEXTERNAL"@
    } else if k == 3 {
        "HASOID"@
    } else if k == 4 {
        "XMIN_COMMITTED"@
    } else if k == 5 {
        "XMIN_INVALID"@
    } else if k == 6 {
        "XMAX_COMMITTED"@
    } else if k == 7 {
        "XMAX_INVALID"@
    } else {
        "UPDATED"@
    }
}

/// The names of the set bits from the `k`-th on, quoted and separated by `, ` (no separator
/// before the first one when `first`).
pub open spec fn infomask_names_from(mask: u16, k: nat, first: bool) -> Seq<char>
    decreases 9 - k,
{
    if k >= 9 {
        Seq::empty()
    } else if mask & infomask_bit(k) != 0 {
        (if first { Seq::empty() } else { ", "@ }) + "\""@ + infomask_name(k) + "\""@
            + infomask_names_from(mask, k + 1, false)
    } else {
        infomask_names_from(mask, k + 1, first)
    }
}

/// The names, quoted and separated by `, `, of the entries of `table` from the `k`-th on
/// whose bit is set in `mask` (no separator before the first one when `first`).
pub open spec fn flags_listed(mask: u16, table: Seq<(u16, Seq<char>)>, k: int, first: bool) -> Seq<char>
    decreases table.len() - k,
{
    if k < 0 || k >= table.len() {
        Seq::empty()
    } else if mask & table[k].0 != 0 {
        (if first { Seq::empty() } else { ", "@ }) + "\""@ + table[k].1 + "\""@ + flags_listed(mask, table, k + 1, false)
    } else {
        flags_listed(mask, table, k + 1, first)
    }
}

/// The flags line of a heap tuple report names each set bit of `t_infomask` by its
/// PostgreSQL name, in this order: 0x0001 HASNULL, 0x0002 HASVARWIDTH, 0x0004 HASEXTERNAL,
/// 0x0008 HASOID, 0x0100 XMIN_COMMITTED, 0x0200 XMIN_INVALID, 0x0400 XMAX_COMMITTED,
/// 0x0800 XMAX_INVALID, 0x2000 UPDATED.
pub proof fn lemma_infomask_flag_names(mask: u16)
    ensures
        infomask_flags_text(mask) == "["@ + flags_listed(
            mask,
            seq![
                (0x0001u16, "HASNULL"@),
                (0x0002u16, "HASVARWIDTH"@),
                (0x0004u16, "HASEXTERNAL"@),
                (0x0008u16, "HASOID"@),
                (0x0100u16, "XMIN_COMMITTED"@),
                (0x0200u16, "XMIN_INVALID"@),
                (0x0400u16, "XMAX_COMMITTED"@),
                (0x0800u16, "XMAX_INVALID"@),
                (0x2000u16, "UPDATED"@),
            ],
            0,
            true,
        ) + "]"@,
{
    let table: Seq<(u16, Seq<char>)> = seq![
        (0x0001u16, "HASNULL"@),
        (0x0002u16, "HASVARWIDTH"@),
        (0x0004u16, "HASEXTERNAL"@),
        (0x0008u16, "HASOID"@),
        (0x0100u16, "XMIN_COMMITTED"@),
        (0x0200u16, "XMIN_INVALID"@),
        (0x0400u16, "XMAX_COMMITTED"@),
        (0x0800u16, "XMAX_INVALID"@),
        (0x2000u16, "UPDATED"@),
    ];
    assert forall|k: nat| k < 9 implies #[trigger] table[k as int] == (infomask_bit(k), infomask_name(k)) by {
        if k == 0 {
        } else if k == 1 {
        } else if k == 2 {
        } else if k == 3 {
        } else if k == 4 {
        } else if k == 5 {
        } else if k == 6 {
        } else if k == 7 {
        } else {
        }
    }
    lemma_flags_from(mask, table, 0);
}

proof fn lemma_flags_from(mask: u16, table: Seq<(u16, Seq<char>)>, k: nat)
    requires
        table.len() == 9,
        k <= 9,
        forall|j: nat| j < 9 ==> #[trigger] table[j as int] == (infomask_bit(j), infomask_name(j)),
    ensures
        forall|f: bool| #[trigger] infomask_names_from(mask, k, f) == flags_listed(mask, table, k as int, f),
    decreases 9 - k,
{
    if k < 9 {
        lemma_flags_from(mask, table, k + 1);
        assert(table[k as int] == (infomask_bit(k), infomask_name(k)));
        assert forall|f: bool| #[trigger] infomask_names_from(mask, k, f) == flags_listed(mask, table, k as int, f) by {
            assert(infomask_names_from(mask, k + 1, false) == flags_listed(mask, table, (k + 1) as int, false));
            assert(infomask_names_from(mask, k + 1, f) == flags_listed(mask, table, (k + 1) as int, f));
        }
    }
}

/// The set bits of `t_infomask`, as a debug-printed list of names.
pub open spec fn infomask_flags_text(mask: u16) -> Seq<char> {
    "["@ + infomask_names_from(mask, 0, true) + "]"@
}

pub open spec fn heap_tuple_text(h: HeapTupleHeader) -> Seq<char> {
    "HeapTupleHeader {\n"@ + "  xmin: "@ + decimal(h.xmin as nat) + "\n"@ + "  xmax: "@ + decimal(
        h.xmax as nat,
    ) + "\n"@ + "  cid_or_xvac: "@ + decimal(h.cid_or_xvac as nat) + "\n"@ + "  ctid: (block "@
        + decimal(h.t_ctid_block as nat) + ", index "@ + decimal(h.t_ctid_index as nat) + ")\n"@
        + "  infomask2: 0x"@ + hex(h.infomask2 as nat, 4, false) + "\n"@
        + "    → natts (列数): "@ + decimal((h.infomask2 & 0x07ff) as nat) + "\n"@
        + "    → HOT_UPDATED flag: "@ + bool_text(h.infomask2 & 0x4000 != 0) + "\n"@
        + "    → HEAP_ONLY_TUPLE flag: "@ + bool_text(h.infomask2 & 0x8000 != 0) + "\n"@
        + "  infomask:  0x"@ + hex(h.infomask as nat, 4, false) + "\n"@ + "    → flags: "@
        + infomask_flags_text(h.infomask) + "\n"@ + "  t_hoff: "@ + decimal(h.t_hoff as nat)
        + " bytes\n"@ + "  has_nulls: "@ + bool_text(h.has_nulls) + "\n"@
        + "  null_bitmap_bytes: "@ + decimal(h.null_bitmap_bytes as nat) + "\n"@ + "}"@
}

fn infomask_entry(k: u64) -> (r: (u16, &'static str))
    requires
        k < 9,
    ensures
        r.0 == infomask_bit(k as nat),
        r.1@ == infomask_name(k as nat),
{
    if k == 0 {
        (0x0001, "HASNULL")
    } else if k == 1 {
        (0x0002, "HASVARWIDTH")
    } else if k == 2 {
        (0x0004, "HASEXTERNAL")
    } else if k == 3 {
        (0x0008, "HASOID")
    } else if k == 4 {
        (0x0100, "XMIN_COMMITTED")
    } else if k == 5 {
        (0x0200, "XMIN_INVALID")
    } else if k == 6 {
        (0x0400, "XMAX_COMMITTED")
    } else if k == 7 {
        (0x0800, "XMAX_INVALID")
    } else {
        (0x2000, "UPDATED")
    }
}

fn push_infomask_flags(s: &mut String, mask: u16)
    ensures
        final(s)@ == old(s)@ + infomask_flags_text(mask),
{
    push_str(s, "[");
    let ghost base = s@;
    let mut first = true;
    let mut k: u64 = 0;
    while k < 9
        invariant
            k <= 9,
            s@ + infomask_names_from(mask, k as nat, first) == base + infomask_names_from(
                mask,
                0,
                true,
            ),
        decreases 9 - k,
    {
        let (bit, name) = infomask_entry(k);
        let ghost before = s@;
        if mask & bit != 0 {
            if !first {
                push_str(s, ", ");
            }
            push_str(s, "\"");
            push_str(s, name);
            push_str(s, "\"");
            proof {
                assert(s@ + infomask_names_from(mask, (k + 1) as nat, false) =~= before
                    + infomask_names_from(mask, k as nat, first));
            }
            first = false;
        }
        k = k + 1;
    }
    push_str(s, "]");
    proof {
        assert(s@ =~= old(s)@ + infomask_flags_text(mask));
    }
}

impl HeapTupleHeader {
    pub fn to_text(&self) -> (r: String)
        ensures
            r@ == heap_tuple_text(*self),
    {
        let mut s = String::new();
        push_str(&mut s, "HeapTupleHeader {\n");
        push_str(&mut s, "  xmin: ");
        push_decimal(&mut s, self.xmin as u64);
        push_str(&mut s, "\n");
        push_str(&mut s, "  xmax: ");
        push_decimal(&mut s, self.xmax as u64);
        push_str(&mut s, "\n");
        push_str(&mut s, "  cid_or_xvac: ");
        push_decimal(&mut s, self.cid_or_xvac as u64);
        push_str(&mut s, "\n");
        push_str(&mut s, "  ctid: (block ");
        push_decimal(&mut s, self.t_ctid_block as u64);
        push_str(&mut s, ", index ");
        push_decimal(&mut s, self.t_ctid_index as u64);
        push_str(&mut s, ")\n");
        push_str(&mut s, "  infomask2: 0x");
        push_hex(&mut s, self.infomask2 as u64, 4, false);
        push_str(&mut s, "\n");
        let natts = self.infomask2 & 0x07ff;
        let hot = (self.infomask2 & 0x4000) != 0;
        let heap_only = (self.infomask2 & 0x8000) != 0;
        push_str(&mut s, "    → natts (列数): ");
        push_decimal(&mut s, natts as u64);
        push_str(&mut s, "\n");
        push_str(&mut s, "    → HOT_UPDATED flag: ");
        push_bool(&mut s, hot);
        push_str(&mut s, "\n");
        push_str(&mut s, "    → HEAP_ONLY_TUPLE flag: ");
        push_bool(&mut s, heap_only);
        push_str(&mut s, "\n");
        push_str(&mut s, "  infomask:  0x");
        push_hex(&mut s, self.infomask as u64, 4, false);
        push_str(&mut s, "\n");
        push_str(&mut s, "    → flags: ");
        push_infomask_flags(&mut s, self.infomask);
        push_str(&mut s, "\n");
        push_str(&mut s, "  t_hoff: ");
        push_decimal(&mut s, self.t_hoff as u64);
        push_str(&mut s, " bytes\n");
        push_str(&mut s, "  has_nulls: ");
        push_bool(&mut s, self.has_nulls);
        push_str(&mut s, "\n");
        push_str(&mut s, "  null_bitmap_bytes: ");
        push_decimal(&mut s, self.null_bitmap_bytes as u64);
        push_str(&mut s, "\n");
        push_str(&mut s, "}");
        proof {
            assert(s@ =~= heap_tuple_text(*self));
        }
        s
    }
}

/// The heap tuple header in the first 23 bytes of `b` (little-endian fields), with the
/// null-bitmap size derived from `t_infomask` and the attribute count in `t_infomask2`.
pub open spec fn heap_tuple_of(b: Seq<u8>) -> HeapTupleHeader {
    let infomask2 = le_at(b, 18, 2) as u16;
    let infomask = le_at(b, 20, 2) as u16;
    let has_nulls = infomask & 0x0001 != 0;
    HeapTupleHeader {
        xmin: le_at(b, 0, 4) as u32,
        xmax: le_at(b, 4, 4) as u32,
        cid_or_xvac: le_at(b, 8, 4) as u32,
        t_ctid_block: le_at(b, 12, 4) as u32,
        t_ctid_index: le_at(b, 16, 2) as u16,
        infomask2,
        infomask,
        t_hoff: b[22],
        has_nulls,
        null_bitmap_bytes: if has_nulls {
            (((infomask2 & 0x07ff) + 7) / 8) as usize
        } else {
            0
        },
    }
}

/// Decodes the heap tuple header at the start of the bytes and shows it.
pub fn parse_heap_tuple_header(b: &ByteView) -> (r: String)
    ensures
        b.bytes().len() < 23 ==> r@ == "heap_tuple_header < 23"@,
        b.bytes().len() >= 23 ==> r@ == heap_tuple_text(heap_tuple_of(b.bytes())),
{
    let buf = b.get_data();
    if buf.len() < 23 {
        return String::from_str("heap_tuple_header < 23");
    }
    proof {
        reveal_with_fuel(pow256, 5);
    }
    let infomask2 = read_le_at(buf, 18, 2) as u16;
    let infomask = read_le_at(buf, 20, 2) as u16;
    let has_nulls = (infomask & 0x0001) != 0;
    let natts = infomask2 & 0x07ff;
    proof {
        assert(natts <= 0x7ff) by (bit_vector)
            requires
                natts == infomask2 & 0x07ff,
        ;
    }
    let null_bitmap_bytes = if has_nulls {
        ((natts as usize) + 7) / 8
    } else {
        0
    };
    let h = HeapTupleHeader {
        xmin: read_le_at(buf, 0, 4) as u32,
        xmax: read_le_at(buf, 4, 4) as u32,
        cid_or_xvac: read_le_at(buf, 8, 4) as u32,
        t_ctid_block: read_le_at(buf, 12, 4) as u32,
        t_ctid_index: read_le_at(buf, 16, 2) as u16,
        infomask2,
        infomask,
        t_hoff: buf[22],
        has_nulls,
        null_bitmap_bytes,
    };
    h.to_text()
}

/// The report on a four-byte `va_extinfo`.
pub open spec fn va_extinfo_text(extinfo: nat) -> Seq<char> {
    "va_extinfo raw = 0x"@ + hex(extinfo, 8, true) + "\nextsize = "@ + decimal(
        extinfo % 0x4000_0000,
    ) + "\ncompression method = "@ + compression_name(extinfo / 0x4000_0000, "unknown"@)
        + " (id="@ + decimal(extinfo / 0x4000_0000) + ")"@
}

/// Reads `va_extinfo` (little-endian) from the first four bytes and reports the external
/// size and compression method it holds.
pub fn format_va_extinfo(b: &ByteView) -> (r: String)
    ensures
        b.bytes().len() < 4 ==> r@ == "buf < 4"@,
        b.bytes().len() >= 4 ==> r@ == va_extinfo_text(le_at(b.bytes(), 0, 4)),
{
    let buf = b.get_data();
    if buf.len() < 4 {
        return String::from_str("buf < 4");
    }
    proof {
        reveal_with_fuel(pow256, 5);
    }
    let extinfo = read_le_at(buf, 0, 4) as u32;
    proof {
        assert(extinfo & 0x3FFF_FFFF == extinfo % 0x4000_0000) by (bit_vector);
        assert(extinfo >> 30u32 == extinfo / 0x4000_0000) by (bit_vector);
    }
    let extsize = extinfo & 0x3FFF_FFFF;
    let method = extinfo >> 30u32;
    let mut s = String::new();
    push_str(&mut s, "va_extinfo raw = 0x");
    push_hex(&mut s, extinfo as u64, 8, true);
    push_str(&mut s, "\nextsize = ");
    push_decimal(&mut s, extsize as u64);
    push_str(&mut s, "\ncompression method = ");
    if method == 0 {
        push_str(&mut s, "PGLZ");
    } else if method == 1 {
        push_str(&mut s, "LZ4");
    } else {
        push_str(&mut s, "unknown");
    }
    push_str(&mut s, " (id=");
    push_decimal(&mut s, method as u64);
    push_str(&mut s, ")");
    proof {
        assert(s@ =~= va_extinfo_text(le_at(b.bytes(), 0, 4)));
    }
    s
}

/// The pointer that a TOAST `varatt_external` datum holds.
#[derive(Debug, Clone, Copy)]
pub struct VarattExternal {
    va_rawsize: i32,
    va_extinfo: u32,
    va_extsize: u32,
    compression_method: &'static str,
    va_valueid: u32,
    va_toastrelid: u32,
}

/// The report on a TOAST pointer with the given fields.
pub open spec fn varatt_external_text(
    rawsize: int,
    extinfo: nat,
    valueid: nat,
    toastrelid: nat,
) -> Seq<char> {
    "va_rawsize = "@ + signed_decimal(rawsize) + "\nva_extinfo = 0x"@ + hex(extinfo, 8, true)
        + "\nva_extsize = "@ + decimal(extinfo % 0x4000_0000) + "\ncompression method = "@
        + compression_name(extinfo / 0x4000_0000, "UNKNOWN"@) + " (id="@ + decimal(
        extinfo / 0x4000_0000,
    ) + ")\nva_valueid (chunk_id) = "@ + decimal(valueid) + "\nva_toastrelid = "@ + decimal(
        toastrelid,
    )
}

impl VarattExternal {
    pub closed spec fn well_formed(&self) -> bool {
        &&& self.va_extsize == self.va_extinfo % 0x4000_0000
        &&& self.compression_method@ == compression_name(
            (self.va_extinfo / 0x4000_0000) as nat,
            "UNKNOWN"@,
        )
    }

    pub closed spec fn text(&self) -> Seq<char> {
        varatt_external_text(
            self.va_rawsize as int,
            self.va_extinfo as nat,
            self.va_valueid as nat,
            self.va_toastrelid as nat,
        )
    }

    pub fn to_text(&self) -> (r: String)
        requires
            self.well_formed(),
        ensures
            r@ == self.text(),
    {
        let mut s = String::new();
        push_str(&mut s, "va_rawsize = ");
        push_signed(&mut s, self.va_rawsize as i64);
        push_str(&mut s, "\nva_extinfo = 0x");
        push_hex(&mut s, self.va_extinfo as u64, 8, true);
        push_str(&mut s, "\nva_extsize = ");
        push_decimal(&mut s, self.va_extsize as u64);
        push_str(&mut s, "\ncompression method = ");
        push_str(&mut s, self.compression_method);
        push_str(&mut s, " (id=");
        let ext = self.va_extinfo;
        proof {
            assert(ext >> 30u32 == ext / 0x4000_0000) by (bit_vector);
        }
        push_decimal(&mut s, (ext >> 30u32) as u64);
        push_str(&mut s, ")\nva_valueid (chunk_id) = ");
        push_decimal(&mut s, self.va_valueid as u64);
        push_str(&mut s, "\nva_toastrelid = ");
        push_decimal(&mut s, self.va_toastrelid as u64);
        proof {
            assert(s@ =~= self.text());
        }
        s
    }
}

/// Decodes the TOAST pointer datum (a `0x01` header, tag 18, then the 16-byte
/// `varatt_external`) and reports it.
pub fn format_varatt_external(b: &ByteView) -> (r: String)
    ensures
        b.bytes().len() < 18 ==> r@ == "buf < 18"@,
        b.bytes().len() >= 18 && (b.bytes()[0] != 1 || b.bytes()[1] != 18) ==> r@
            == "is varattrib_1b_e"@,
        b.bytes().len() >= 18 && b.bytes()[0] == 1 && b.bytes()[1] == 18 ==> r@
            == varatt_external_text(
            twos_complement(le_at(b.bytes(), 2, 4) as int, 0x8000_0000),
            le_at(b.bytes(), 6, 4),
            le_at(b.bytes(), 10, 4),
            le_at(b.bytes(), 14, 4),
        ),
{
    let attr = b.get_data();
    if attr.len() < 18 {
        return String::from_str("buf < 18");
    }
    let header = attr[0];
    let tag = attr[1];
    if header != 0x01 || tag != 18 {
        return String::from_str("is varattrib_1b_e");
    }
    proof {
        reveal_with_fuel(pow256, 5);
    }
    let raw = read_le_at(attr, 2, 4) as u32;
    proof {
        crate::byteutil::lemma_i32_bits_pub(raw);
    }
    let rawsize = raw as i32;
    let extinfo = read_le_at(attr, 6, 4) as u32;
    let valueid = read_le_at(attr, 10, 4) as u32;
    let toastrelid = read_le_at(attr, 14, 4) as u32;
    proof {
        assert(extinfo & 0x3FFF_FFFF == extinfo % 0x4000_0000) by (bit_vector);
        assert(extinfo >> 30u32 == extinfo / 0x4000_0000) by (bit_vector);
    }
    let extsize = extinfo & 0x3FFF_FFFF;
    let method_id = extinfo >> 30u32;
    let compression_method = if method_id == 0 {
        "PGLZ"
    } else if method_id == 1 {
        "LZ4"
    } else {
        "UNKNOWN"
    };
    let v = VarattExternal {
        va_rawsize: rawsize,
        va_extinfo: extinfo,
        va_extsize: extsize,
        compression_method,
        va_valueid: valueid,
        va_toastrelid: toastrelid,
    };
    v.to_text()
}

} // verus!
