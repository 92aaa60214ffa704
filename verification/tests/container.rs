//! Tests for metadata blocks, field parsing and the container parser.

use notepdf::container::{page_table, parse_notebook, parse_page_key};
use notepdf::metadata::{parse_metadata_block, MetadataMap};
use notepdf::text::parse_u64;
use notepdf::NoteError;

fn block(content: &[u8]) -> Vec<u8> {
    let mut out = (content.len() as u32).to_le_bytes().to_vec();
    out.extend_from_slice(content);
    out
}

#[test]
fn metadata_block_scans_tags_in_order() {
    let mut data = vec![0u8];
    data.extend(block(b"<A:1><B:two><C:>"));
    let map = parse_metadata_block(&data, 1).unwrap();
    assert_eq!(map.get("A"), Some("1".to_string()));
    assert_eq!(map.get("B"), Some("two".to_string()));
    assert_eq!(map.get("C"), Some("".to_string()));
    assert_eq!(map.get("D"), None);
}

#[test]
fn metadata_duplicate_key_last_wins() {
    let mut data = vec![0u8];
    data.extend(block(b"<K:first><K:second>"));
    let map = parse_metadata_block(&data, 1).unwrap();
    assert_eq!(map.get("K"), Some("second".to_string()));
}

#[test]
fn metadata_empty_key_is_skipped() {
    let mut data = vec![0u8];
    data.extend(block(b"<:lost><REAL:yes>"));
    let map = parse_metadata_block(&data, 1).unwrap();
    assert_eq!(map.get(""), None);
    assert_eq!(map.get("REAL"), Some("yes".to_string()));
}

#[test]
fn metadata_values_may_hold_odd_characters() {
    let mut data = vec![0u8];
    data.extend(block(b"<A:x<y:z><B:1,2,3>"));
    let map = parse_metadata_block(&data, 1).unwrap();
    assert_eq!(map.get("A"), Some("x<y:z".to_string()));
    assert_eq!(map.get("B"), Some("1,2,3".to_string()));
}

#[test]
fn metadata_null_address_is_empty_map() {
    let data = vec![0u8; 8];
    let map = parse_metadata_block(&data, 0).unwrap();
    assert_eq!(map.get("ANY"), None);
}

#[test]
fn metadata_block_overrun_is_malformed() {
    // Length field promises 100 bytes that are not there.
    let mut data = vec![0u8];
    data.extend((100u32).to_le_bytes());
    data.extend(b"short");
    assert_eq!(parse_metadata_block(&data, 1), Err(NoteError::MalformedBlock));
    // Address beyond the end of the file.
    assert_eq!(parse_metadata_block(&data, 1000), Err(NoteError::MalformedBlock));
}

#[test]
fn metadata_invalid_utf8_is_malformed() {
    let mut data = vec![0u8];
    data.extend(block(&[b'<', b'A', 0xff, 0xfe, b':', b'1', b'>']));
    assert_eq!(parse_metadata_block(&data, 1), Err(NoteError::MalformedBlock));
}

#[test]
fn parse_u64_accepts_digits_only() {
    assert_eq!(parse_u64("0"), Some(0));
    assert_eq!(parse_u64("42"), Some(42));
    assert_eq!(parse_u64("18446744073709551615"), Some(u64::MAX));
    assert_eq!(parse_u64("18446744073709551616"), None);
    assert_eq!(parse_u64(""), None);
    assert_eq!(parse_u64("12a"), None);
    assert_eq!(parse_u64("-3"), None);
}

#[test]
fn page_keys_need_a_numeric_suffix() {
    assert_eq!(parse_page_key(&"PAGE1".to_string()), Some(1));
    assert_eq!(parse_page_key(&"PAGE10".to_string()), Some(10));
    assert_eq!(parse_page_key(&"PAGE".to_string()), None);
    assert_eq!(parse_page_key(&"PAGEX".to_string()), None);
    assert_eq!(parse_page_key(&"BGLAYER".to_string()), None);
}

#[test]
fn page_order_is_numeric_not_lexical() {
    let footer = MetadataMap {
        entries: vec![
            ("PAGE2".to_string(), "200".to_string()),
            ("PAGE10".to_string(), "1000".to_string()),
            ("PAGE1".to_string(), "100".to_string()),
        ],
    };
    let table = page_table(&footer).unwrap();
    let addrs: Vec<u64> = table.iter().map(|r| r.1).collect();
    assert_eq!(addrs, vec![100, 200, 1000]);
}

#[test]
fn page_value_must_parse_as_address() {
    let footer = MetadataMap {
        entries: vec![("PAGE1".to_string(), "not-a-number".to_string())],
    };
    assert_eq!(page_table(&footer), Err(NoteError::InvalidAddress));
}

#[test]
fn shadowed_page_binding_is_ignored() {
    // The earlier PAGE1 value does not even need to parse: the later
    // binding wins before parsing.
    let footer = MetadataMap {
        entries: vec![
            ("PAGE1".to_string(), "bogus".to_string()),
            ("PAGE1".to_string(), "64".to_string()),
        ],
    };
    let table = page_table(&footer).unwrap();
    assert_eq!(table, vec![(1, 64)]);
}

#[test]
fn truncated_file_is_rejected() {
    assert_eq!(parse_notebook(&[0u8; 10]), Err(NoteError::TruncatedFile));
}

// Builds a minimal container whose footer holds the given tags and returns
// the full file bytes.
fn container_with_footer(footer_tags: &[u8]) -> Vec<u8> {
    let mut data = Vec::new();
    data.extend(b"note");
    data.extend(b"SN_FILE_VER_20200001");
    let footer_addr = data.len() as u32;
    data.extend(block(footer_tags));
    data.extend(footer_addr.to_le_bytes());
    data
}

#[test]
fn standard_geometry_is_the_default() {
    let nb = parse_notebook(&container_with_footer(b"")).unwrap();
    assert_eq!((nb.width, nb.height), (1404, 1872));
    assert_eq!(nb.pages.len(), 0);
    assert_eq!(nb.signature, "SN_FILE_VER_20200001");
}

#[test]
fn n5_equipment_selects_high_resolution() {
    // Footer points at a feature block naming the N5 equipment.
    let mut data = Vec::new();
    data.extend(b"note");
    data.extend(b"SN_FILE_VER_20200001");
    let feature_addr = data.len();
    data.extend(block(b"<APPLY_EQUIPMENT:N5>"));
    let footer_addr = data.len() as u32;
    let footer = format!("<FILE_FEATURE:{}>", feature_addr);
    data.extend(block(footer.as_bytes()));
    data.extend(footer_addr.to_le_bytes());
    let nb = parse_notebook(&data).unwrap();
    assert_eq!((nb.width, nb.height), (1920, 2560));
}

#[test]
fn other_equipment_keeps_standard_geometry() {
    let mut data = Vec::new();
    data.extend(b"note");
    data.extend(b"SN_FILE_VER_20200001");
    let feature_addr = data.len();
    data.extend(block(b"<APPLY_EQUIPMENT:N6>"));
    let footer_addr = data.len() as u32;
    let footer = format!("<FILE_FEATURE:{}>", feature_addr);
    data.extend(block(footer.as_bytes()));
    data.extend(footer_addr.to_le_bytes());
    let nb = parse_notebook(&data).unwrap();
    assert_eq!((nb.width, nb.height), (1404, 1872));
}

#[test]
fn layer_address_must_parse() {
    // A page whose MAINLAYER value is not numeric fails the whole file.
    let mut data = Vec::new();
    data.extend(b"note");
    data.extend(b"SN_FILE_VER_20200001");
    let page_addr = data.len();
    data.extend(block(b"<MAINLAYER:abc>"));
    let footer_addr = data.len() as u32;
    let footer = format!("<PAGE1:{}>", page_addr);
    data.extend(block(footer.as_bytes()));
    data.extend(footer_addr.to_le_bytes());
    assert_eq!(parse_notebook(&data), Err(NoteError::InvalidAddress));
}

#[test]
fn layer_order_follows_layerseq() {
    let mut data = Vec::new();
    data.extend(b"note");
    data.extend(b"SN_FILE_VER_20200001");
    let layer_a = data.len();
    data.extend(block(b"<LAYERPROTOCOL:RATTA_RLE><LAYERBITMAP:0>"));
    let layer_b = data.len();
    data.extend(block(b"<LAYERPROTOCOL:PNG><LAYERBITMAP:0>"));
    let page_addr = data.len();
    let page = format!(
        "<LAYERSEQ:LAYER2,MAINLAYER><MAINLAYER:{}><LAYER2:{}>",
        layer_a, layer_b
    );
    data.extend(block(page.as_bytes()));
    let footer_addr = data.len() as u32;
    let footer = format!("<PAGE1:{}>", page_addr);
    data.extend(block(footer.as_bytes()));
    data.extend(footer_addr.to_le_bytes());
    let nb = parse_notebook(&data).unwrap();
    assert_eq!(nb.pages.len(), 1);
    let keys: Vec<&str> = nb.pages[0].layers.iter().map(|l| l.key.as_str()).collect();
    assert_eq!(keys, vec!["LAYER2", "MAINLAYER"]);
    assert_eq!(nb.pages[0].layers[0].protocol, "PNG");
    assert_eq!(nb.pages[0].layers[1].protocol, "RATTA_RLE");
}

#[test]
fn missing_bitmap_field_defaults_to_null() {
    let mut data = Vec::new();
    data.extend(b"note");
    data.extend(b"SN_FILE_VER_20200001");
    let layer_addr = data.len();
    data.extend(block(b"<LAYERPROTOCOL:RATTA_RLE><LAYERBITMAP:zap>"));
    let page_addr = data.len();
    let page = format!("<MAINLAYER:{}>", layer_addr);
    data.extend(block(page.as_bytes()));
    let footer_addr = data.len() as u32;
    let footer = format!("<PAGE1:{}>", page_addr);
    data.extend(block(footer.as_bytes()));
    data.extend(footer_addr.to_le_bytes());
    let nb = parse_notebook(&data).unwrap();
    // An unparseable LAYERBITMAP falls back to 0, not an error.
    assert_eq!(nb.pages[0].layers[0].bitmap_address, 0);
    // The default order only keeps keys the page actually binds.
    assert_eq!(nb.pages[0].layers.len(), 1);
}
