use chappie::byteutil::{self, parse_varlena_header, ByteView, Endian, VarlenaData, VarlenaType};
use chappie::pg::{
    format_item_ids, format_va_extinfo, format_varatt_external, parse_heap_tuple_header,
    parse_pg_page_header, HeapTupleHeader, ItemIdData, PageHeaderData,
};

fn view(bytes: &[u8]) -> ByteView {
    ByteView::new(bytes.to_vec(), Endian::Little)
}

#[test]
fn test_to_u16() {
    let data = vec![0x34, 0x12];
    let bv = ByteView::new(data, Endian::Little);
    assert_eq!(bv.to_u16(), 0x1234);

    let data = vec![0x34, 0x12];
    let bv = ByteView::new(data, Endian::Big);
    assert_eq!(bv.to_u16(), 0x3412);
}

#[test]
fn test_to_varlena() {
    let data = vec![0x19];
    let bv = ByteView::new(data, Endian::Little);
    println!("bv: {:?}", bv.to_varlena());
    assert_eq!(bv.to_varlena(), VarlenaData(VarlenaType::ShortInline, 12));
    assert_eq!(bv.to_varlena().to_text(), "ShortInline,12");
}

#[test]
fn byte_view_widths_and_signs() {
    let le = view(&[0xff, 0xff, 0xff, 0x7f, 0x01, 0x02, 0x03, 0x04, 0x05]);
    assert_eq!(le.to_u8(), 0xff);
    assert_eq!(le.to_i16(), -1);
    assert_eq!(le.to_u32(), 0x7fff_ffff);
    assert_eq!(le.to_i32(), 0x7fff_ffff);
    assert_eq!(le.to_u24(), 0x7fff_ffff);
    assert_eq!(le.to_i24(), -1);
    assert_eq!(le.to_u48(), 0x0201_7fff_ffff);
    assert_eq!(le.to_u64(), 0x0403_0201_7fff_ffff);
    let be = ByteView::new(vec![0x80, 0x00], Endian::Big);
    assert_eq!(be.to_i16(), i16::MIN);
    assert_eq!(be.to_u32(), 0x8000);
    let short = ByteView::new(vec![0x01], Endian::Big);
    assert_eq!(short.to_u64(), 1);
    let neg = ByteView::new(vec![0xff; 8], Endian::Big);
    assert_eq!(neg.to_i64(), -1);
    let empty = view(&[]);
    assert_eq!(empty.to_u8(), 0);
    assert_eq!(empty.to_u16(), 0);
    assert_eq!(empty.len(), 0);
    assert_eq!(empty.to_binary_8bit(), "00000000");
    assert_eq!(view(&[5]).to_binary_8bit(), "00000101");
    assert_eq!(view(&[5]).get_data(), &[5]);
}

#[test]
fn byte_view_to_str_escapes_like_std() {
    let bytes = [b'a', b'\n', b'\t', b'\\', b'\'', b'"', 0x00, 0x7f, 0xff, b' '];
    let expected: String = bytes
        .iter()
        .flat_map(|&b| std::ascii::escape_default(b))
        .map(|b| b as char)
        .collect();
    assert_eq!(view(&bytes).to_str(), expected);
}

#[test]
fn varlena_headers_of_each_kind() {
    assert_eq!(parse_varlena_header(&[]), None);
    assert_eq!(parse_varlena_header(&[0x01, 18]), Some(VarlenaData(VarlenaType::ToastPointer, 2)));
    assert_eq!(parse_varlena_header(&[0x0b]), Some(VarlenaData(VarlenaType::ShortInline, 5)));
    assert_eq!(parse_varlena_header(&[0x40, 0x00]), None);
    assert_eq!(
        parse_varlena_header(&[0x40, 0x01, 0x00, 0x00]),
        Some(VarlenaData(VarlenaType::FourByteUncompressed, 0x50))
    );
    assert_eq!(
        parse_varlena_header(&[0x50, 0x00, 0x00, 0x00]),
        Some(VarlenaData(VarlenaType::FourByteCompressed, 0x14))
    );
    assert_eq!(view(&[0x40]).to_varlena(), VarlenaData(VarlenaType::Unknown, 0));
}

#[test]
fn byteutil_format_va_extinfo_reports_fields() {
    assert_eq!(byteutil::format_va_extinfo(&[1, 2, 3]), "buf < 8");
    let buf = [0xfe, 0xff, 0xff, 0xff, 0x10, 0x00, 0x00, 0x40];
    let extinfo = u32::from_le_bytes([0x10, 0x00, 0x00, 0x40]);
    let expected = format!(
        "va_rawsize = {}\nva_extinfo raw = 0x{:08X}\nextsize = {}\ncompression method = {} (id={})",
        -2,
        extinfo,
        extinfo & ((1 << 30) - 1),
        "LZ4",
        extinfo >> 30
    );
    assert_eq!(byteutil::format_va_extinfo(&buf), expected);
}

fn page_header_expected(p: &PageHeaderData) -> String {
    format!(
        "PageHeaderData {{\n  pd_lsn:           0x{:016x}\n  checksum:         {}\n  flags:            0x{:04x}\n  lower:            {}\n  upper:            {}\n  special:          {}\n  pagesize:         {} bytes\n  layout_version:   {}\n  prune_xid:        {}\n  item_count:       {}\n}}",
        p.pd_lsn,
        p.pd_checksum,
        p.pd_flags,
        p.pd_lower,
        p.pd_upper,
        p.pd_special,
        p.page_size(),
        p.layout_version(),
        p.pd_prune_xid,
        p.item_count(),
    )
}

#[test]
fn page_header_is_decoded_and_shown() {
    assert_eq!(parse_pg_page_header(&view(&[0u8; 23])), "pg_page_header < 24");
    let mut bytes = vec![0u8; 24];
    bytes[0..8].copy_from_slice(&0x0000_0001_0203_0405u64.to_le_bytes());
    bytes[8..10].copy_from_slice(&7u16.to_le_bytes());
    bytes[10..12].copy_from_slice(&0x0004u16.to_le_bytes());
    bytes[12..14].copy_from_slice(&40u16.to_le_bytes());
    bytes[14..16].copy_from_slice(&8000u16.to_le_bytes());
    bytes[16..18].copy_from_slice(&8192u16.to_le_bytes());
    bytes[18..20].copy_from_slice(&0x2004u16.to_le_bytes());
    bytes[20..24].copy_from_slice(&99u32.to_le_bytes());
    let p = PageHeaderData {
        pd_lsn: 0x0000_0001_0203_0405,
        pd_checksum: 7,
        pd_flags: 4,
        pd_lower: 40,
        pd_upper: 8000,
        pd_special: 8192,
        pd_pagesize_version: 0x2004,
        pd_prune_xid: 99,
    };
    assert_eq!(p.item_count(), 4);
    assert_eq!(p.page_size(), 0x2000);
    assert_eq!(p.layout_version(), 4);
    assert_eq!(parse_pg_page_header(&view(&bytes)), page_header_expected(&p));
    assert_eq!(p.to_text(), page_header_expected(&p));
}

#[test]
fn item_id_is_decoded_and_shown() {
    assert_eq!(format_item_ids(&view(&[1, 2])), "item_ids < 4");
    let raw: u32 = 0x005A_9F10;
    let item = ItemIdData {
        lp_off: (raw & 0x7FFF) as u16,
        lp_flags: ((raw >> 15) & 0x3) as u8,
        lp_len: ((raw >> 17) & 0x7FFF) as u16,
    };
    let desc = match item.lp_flags {
        0 => "LP_UNUSED",
        1 => "LP_NORMAL",
        2 => "LP_REDIRECT",
        3 => "LP_DEAD",
        _ => "UNKNOWN",
    };
    let expected = format!(
        "ItemIdData {{ off: {}, len: {}, flags: {} ({}) }}",
        item.lp_off, item.lp_len, item.lp_flags, desc
    );
    assert_eq!(format_item_ids(&view(&raw.to_le_bytes())), expected);
    assert_eq!(item.to_text(), expected);
}

fn heap_expected(h: &HeapTupleHeader) -> String {
    let mut flags = Vec::new();
    for (mask, name) in [
        (0x0001, "HASNULL"),
        (0x0002, "HASVARWIDTH"),
        (0x0004, "HASEXTERNAL"),
        (0x0008, "HASOID"),
        (0x0100, "XMIN_COMMITTED"),
        (0x0200, "XMIN_INVALID"),
        (0x0400, "XMAX_COMMITTED"),
        (0x0800, "XMAX_INVALID"),
        (0x2000, "UPDATED"),
    ] {
        if h.infomask & mask != 0 {
            flags.push(name);
        }
    }
    let mut s = String::new();
    s.push_str("HeapTupleHeader {\n");
    s.push_str(&format!("  xmin: {}\n", h.xmin));
    s.push_str(&format!("  xmax: {}\n", h.xmax));
    s.push_str(&format!("  cid_or_xvac: {}\n", h.cid_or_xvac));
    s.push_str(&format!("  ctid: (block {}, index {})\n", h.t_ctid_block, h.t_ctid_index));
    s.push_str(&format!("  infomask2: 0x{:04x}\n", h.infomask2));
    s.push_str(&format!("    → natts (列数): {}\n", h.infomask2 & 0x07ff));
    s.push_str(&format!("    → HOT_UPDATED flag: {}\n", (h.infomask2 & 0x4000) != 0));
    s.push_str(&format!("    → HEAP_ONLY_TUPLE flag: {}\n", (h.infomask2 & 0x8000) != 0));
    s.push_str(&format!("  infomask:  0x{:04x}\n", h.infomask));
    s.push_str(&format!("    → flags: {:?}\n", flags));
    s.push_str(&format!("  t_hoff: {} bytes\n", h.t_hoff));
    s.push_str(&format!("  has_nulls: {}\n", h.has_nulls));
    s.push_str(&format!("  null_bitmap_bytes: {}\n", h.null_bitmap_bytes));
    s.push_str("}");
    s
}

#[test]
fn heap_tuple_header_is_decoded_and_shown() {
    assert_eq!(parse_heap_tuple_header(&view(&[0u8; 22])), "heap_tuple_header < 23");
    let mut bytes = vec![0u8; 23];
    bytes[0..4].copy_from_slice(&700u32.to_le_bytes());
    bytes[4..8].copy_from_slice(&0u32.to_le_bytes());
    bytes[8..12].copy_from_slice(&3u32.to_le_bytes());
    bytes[12..16].copy_from_slice(&12u32.to_le_bytes());
    bytes[16..18].copy_from_slice(&5u16.to_le_bytes());
    bytes[18..20].copy_from_slice(&0x4009u16.to_le_bytes());
    bytes[20..22].copy_from_slice(&0x0903u16.to_le_bytes());
    bytes[22] = 24;
    let h = HeapTupleHeader {
        xmin: 700,
        xmax: 0,
        cid_or_xvac: 3,
        t_ctid_block: 12,
        t_ctid_index: 5,
        infomask2: 0x4009,
        infomask: 0x0903,
        t_hoff: 24,
        has_nulls: true,
        null_bitmap_bytes: 2,
    };
    assert_eq!(parse_heap_tuple_header(&view(&bytes)), heap_expected(&h));
    let none = HeapTupleHeader { infomask: 0, has_nulls: false, null_bitmap_bytes: 0, ..h };
    assert_eq!(none.to_text(), heap_expected(&none));
}

#[test]
fn pg_va_extinfo_and_varatt_external() {
    assert_eq!(format_va_extinfo(&view(&[0, 0])), "buf < 4");
    let extinfo: u32 = 0x8000_0123;
    let expected = format!(
        "va_extinfo raw = 0x{:08X}\nextsize = {}\ncompression method = {} (id={})",
        extinfo,
        extinfo & ((1 << 30) - 1),
        "unknown",
        extinfo >> 30
    );
    assert_eq!(format_va_extinfo(&view(&extinfo.to_le_bytes())), expected);

    assert_eq!(format_varatt_external(&view(&[1u8; 17])), "buf < 18");
    let mut datum = vec![0x01u8, 18];
    datum.extend_from_slice(&(-5i32).to_le_bytes());
    datum.extend_from_slice(&0x4000_0010u32.to_le_bytes());
    datum.extend_from_slice(&77u32.to_le_bytes());
    datum.extend_from_slice(&16384u32.to_le_bytes());
    let expected = format!(
        "va_rawsize = {}\nva_extinfo = 0x{:08X}\nva_extsize = {}\ncompression method = {} (id={})\nva_valueid (chunk_id) = {}\nva_toastrelid = {}",
        -5, 0x4000_0010u32, 0x10, "LZ4", 1, 77, 16384
    );
    assert_eq!(format_varatt_external(&view(&datum)), expected);
    datum[1] = 17;
    assert_eq!(format_varatt_external(&view(&datum)), "is varattrib_1b_e");
}

#[test]
fn every_line_pointer_is_read_in_turn() {
    let words: [u32; 3] = [0x005A_9F10, 0x0003_1234, 0xFFFF_FFFF];
    let mut bytes: Vec<u8> = Vec::new();
    for w in words.iter() {
        bytes.extend_from_slice(&w.to_le_bytes());
    }
    bytes.push(7);
    let lines: Vec<String> = words
        .iter()
        .map(|raw| {
            let item = ItemIdData {
                lp_off: (raw & 0x7FFF) as u16,
                lp_flags: ((raw >> 15) & 0x3) as u8,
                lp_len: ((raw >> 17) & 0x7FFF) as u16,
            };
            item.to_text()
        })
        .collect();
    assert_eq!(format_item_ids(&view(&bytes)), lines.join("\n"));
}
