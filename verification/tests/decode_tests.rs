use metainfo::codec::{decode_node, encode_node};
use metainfo::decodeutil::Error;
use metainfo::hash::calculate_sha1_bytes;
use metainfo::metainfo::parse_metainfo;
use metainfo::node::Node;

fn key(s: &str) -> Vec<u8> {
    s.as_bytes().to_vec()
}

fn bs(s: &str) -> Node {
    Node::Bytes(s.as_bytes().to_vec())
}

fn single_file_info() -> Node {
    Node::Dict(vec![
        (key("piece length"), Node::Int(16384)),
        (key("pieces"), Node::Bytes(vec![7u8; 40])),
        (key("name"), bs("file.bin")),
        (key("length"), Node::Int(20000)),
    ])
}

fn single_file_doc() -> Node {
    Node::Dict(vec![
        (key("announce"), bs("http://tracker.example/announce")),
        (key("info"), single_file_info()),
    ])
}

#[test]
fn round_trip_nested_node() {
    let doc = Node::List(vec![
        Node::Int(-42),
        Node::Int(0),
        bs("spam"),
        Node::Dict(vec![
            (key("a"), Node::List(vec![Node::Int(1), Node::Int(2)])),
            (key("b"), Node::Bytes(vec![0u8, 255u8, 10u8])),
        ]),
    ]);
    let bytes = encode_node(&doc);
    let back = decode_node(&bytes).expect("the encoding must parse");
    assert_eq!(back, doc);
}

#[test]
fn encoding_matches_wire_format() {
    let doc = Node::Dict(vec![(key("spam"), Node::Int(42))]);
    assert_eq!(encode_node(&doc), b"d4:spami42ee".to_vec());
    let neg = Node::Int(-7);
    assert_eq!(encode_node(&neg), b"i-7e".to_vec());
    let empty = Node::Bytes(Vec::new());
    assert_eq!(encode_node(&empty), b"0:".to_vec());
}

#[test]
fn digest_is_deterministic_and_twenty_bytes() {
    let once = calculate_sha1_bytes(b"some info bytes");
    let again = calculate_sha1_bytes(b"some info bytes");
    assert_eq!(once, again);
    assert_eq!(once.len(), 20);
    let empty = calculate_sha1_bytes(b"");
    assert_eq!(empty.len(), 20);
}

#[test]
fn digest_known_answer() {
    let digest = calculate_sha1_bytes(b"abc");
    let expected: Vec<u8> = vec![
        0xa9, 0x99, 0x3e, 0x36, 0x47, 0x06, 0x81, 0x6a, 0xba, 0x3e, 0x25, 0x71, 0x78, 0x50, 0xc2,
        0x6c, 0x9c, 0xd0, 0xd8, 0x9d,
    ];
    assert_eq!(digest, expected);
}

#[test]
fn chunking_forty_bytes_gives_two_pieces() {
    let mut pieces = Vec::new();
    for i in 0..40u8 {
        pieces.push(i);
    }
    let doc = Node::Dict(vec![
        (key("announce"), bs("udp://t")),
        (
            key("info"),
            Node::Dict(vec![
                (key("piece length"), Node::Int(512)),
                (key("pieces"), Node::Bytes(pieces.clone())),
                (key("name"), bs("x")),
                (key("length"), Node::Int(1000)),
            ]),
        ),
    ]);
    let m = parse_metainfo(&encode_node(&doc)).expect("decode must succeed");
    assert_eq!(m.info.num_pieces, 2);
    assert_eq!(m.info.pieces.len(), 2);
    assert_eq!(m.info.pieces[0], pieces[..20].to_vec());
    assert_eq!(m.info.pieces[1], pieces[20..].to_vec());
}

#[test]
fn missing_announce_fails_naming_announce() {
    let doc = Node::Dict(vec![(key("info"), single_file_info())]);
    let r = parse_metainfo(&encode_node(&doc));
    assert!(matches!(r, Err(Error::DoesntContain("announce"))));
}

#[test]
fn missing_info_fails_naming_info() {
    let doc = Node::Dict(vec![(key("announce"), bs("udp://t"))]);
    let r = parse_metainfo(&encode_node(&doc));
    assert!(matches!(r, Err(Error::DoesntContain("info"))));
}

#[test]
fn missing_created_by_defaults_to_empty() {
    let m = parse_metainfo(&encode_node(&single_file_doc())).expect("decode must succeed");
    assert_eq!(m.created_by, "");
}

#[test]
fn missing_length_is_absent_not_an_error() {
    let doc = Node::Dict(vec![
        (key("announce"), bs("udp://t")),
        (
            key("info"),
            Node::Dict(vec![
                (key("piece length"), Node::Int(512)),
                (key("pieces"), Node::Bytes(vec![1u8; 20])),
                (key("name"), bs("x")),
            ]),
        ),
    ]);
    let m = parse_metainfo(&encode_node(&doc)).expect("decode must succeed");
    assert_eq!(m.info.length, None);
    assert_eq!(m.info.files, None);
}

#[test]
fn piece_length_as_byte_string_is_not_a_number() {
    let doc = Node::Dict(vec![
        (key("announce"), bs("udp://t")),
        (
            key("info"),
            Node::Dict(vec![
                (key("piece length"), bs("16384")),
                (key("pieces"), Node::Bytes(vec![1u8; 20])),
                (key("name"), bs("x")),
            ]),
        ),
    ]);
    let r = parse_metainfo(&encode_node(&doc));
    assert!(matches!(r, Err(Error::NotANumber)));
}

#[test]
fn negative_length_is_not_a_number() {
    let doc = Node::Dict(vec![
        (key("announce"), bs("udp://t")),
        (
            key("info"),
            Node::Dict(vec![
                (key("piece length"), Node::Int(512)),
                (key("pieces"), Node::Bytes(vec![1u8; 20])),
                (key("name"), bs("x")),
                (key("length"), Node::Int(-1)),
            ]),
        ),
    ]);
    let r = parse_metainfo(&encode_node(&doc));
    assert!(matches!(r, Err(Error::NotANumber)));
}

#[test]
fn end_to_end_single_file() {
    let m = parse_metainfo(&encode_node(&single_file_doc())).expect("decode must succeed");
    assert_eq!(m.announce, "http://tracker.example/announce");
    assert_eq!(m.info.piece_length, 16384);
    assert_eq!(m.info.num_pieces, 2);
    assert_eq!(m.info.name, "file.bin");
    assert_eq!(m.info.length, Some(20000));
    assert_eq!(m.info.files, None);
    assert_eq!(m.created_by, "");
    let expected_hash = calculate_sha1_bytes(&encode_node(&single_file_info()));
    assert_eq!(m.info_hash, expected_hash);
    assert_eq!(m.info_hash.len(), 20);
}

#[test]
fn multi_file_two_entries_in_order() {
    let files = Node::List(vec![
        Node::Dict(vec![
            (key("length"), Node::Int(100)),
            (key("path"), Node::List(vec![bs("dir"), bs("a.txt")])),
        ]),
        Node::Dict(vec![
            (key("length"), Node::Int(200)),
            (key("path"), Node::List(vec![bs("b.txt")])),
        ]),
    ]);
    let doc = Node::Dict(vec![
        (key("announce"), bs("udp://t")),
        (
            key("info"),
            Node::Dict(vec![
                (key("piece length"), Node::Int(512)),
                (key("pieces"), Node::Bytes(vec![9u8; 20])),
                (key("name"), bs("pack")),
                (key("files"), files),
            ]),
        ),
    ]);
    let m = parse_metainfo(&encode_node(&doc)).expect("decode must succeed");
    assert_eq!(m.info.length, None);
    let fs = m.info.files.expect("files must be present");
    assert_eq!(fs.len(), 2);
    assert_eq!(fs[0].length, 100);
    assert_eq!(fs[0].path, vec!["dir".to_string(), "a.txt".to_string()]);
    assert_eq!(fs[1].length, 200);
    assert_eq!(fs[1].path, vec!["b.txt".to_string()]);
}

#[test]
fn garbage_bytes_are_a_decoding_error() {
    let r = parse_metainfo(&b"xyz".to_vec());
    assert!(matches!(r, Err(Error::DecodingError)));
}

#[test]
fn trailing_bytes_are_a_decoding_error() {
    let r = parse_metainfo(&b"i5e0".to_vec());
    assert!(matches!(r, Err(Error::DecodingError)));
}

#[test]
fn top_level_integer_is_not_a_dict() {
    let r = parse_metainfo(&b"i5e".to_vec());
    assert!(matches!(r, Err(Error::NotADict)));
}

#[test]
fn pieces_as_integer_is_not_a_byte_string() {
    let doc = Node::Dict(vec![
        (key("announce"), bs("udp://t")),
        (
            key("info"),
            Node::Dict(vec![
                (key("piece length"), Node::Int(512)),
                (key("pieces"), Node::Int(5)),
                (key("name"), bs("x")),
            ]),
        ),
    ]);
    let r = parse_metainfo(&encode_node(&doc));
    assert!(matches!(r, Err(Error::NotAByteString)));
}

#[test]
fn invalid_utf8_announce_is_not_a_string() {
    let doc = Node::Dict(vec![
        (key("announce"), Node::Bytes(vec![0xff, 0xfe])),
        (key("info"), single_file_info()),
    ]);
    let r = parse_metainfo(&encode_node(&doc));
    assert!(matches!(r, Err(Error::NotAString)));
}

#[test]
fn non_ascii_utf8_announce_decodes() {
    let doc = Node::Dict(vec![
        (key("announce"), bs("http://trück.example/announce")),
        (key("info"), single_file_info()),
    ]);
    let m = parse_metainfo(&encode_node(&doc)).expect("decode must succeed");
    assert_eq!(m.announce, "http://trück.example/announce");
}

#[test]
fn files_as_integer_is_not_a_list() {
    let doc = Node::Dict(vec![
        (key("announce"), bs("udp://t")),
        (
            key("info"),
            Node::Dict(vec![
                (key("piece length"), Node::Int(512)),
                (key("pieces"), Node::Bytes(vec![1u8; 20])),
                (key("name"), bs("x")),
                (key("files"), Node::Int(3)),
            ]),
        ),
    ]);
    let r = parse_metainfo(&encode_node(&doc));
    assert!(matches!(r, Err(Error::NotAVec)));
}

#[test]
fn path_with_integer_element_is_not_a_list() {
    let files = Node::List(vec![Node::Dict(vec![
        (key("length"), Node::Int(100)),
        (key("path"), Node::List(vec![Node::Int(1)])),
    ])]);
    let doc = Node::Dict(vec![
        (key("announce"), bs("udp://t")),
        (
            key("info"),
            Node::Dict(vec![
                (key("piece length"), Node::Int(512)),
                (key("pieces"), Node::Bytes(vec![1u8; 20])),
                (key("name"), bs("x")),
                (key("files"), files),
            ]),
        ),
    ]);
    let r = parse_metainfo(&encode_node(&doc));
    assert!(matches!(r, Err(Error::NotAVec)));
}

#[test]
fn created_by_is_kept_when_present() {
    let doc = Node::Dict(vec![
        (key("announce"), bs("udp://t")),
        (key("created by"), bs("someone")),
        (key("info"), single_file_info()),
    ]);
    let m = parse_metainfo(&encode_node(&doc)).expect("decode must succeed");
    assert_eq!(m.created_by, "someone");
}

#[test]
fn short_final_chunk_is_kept() {
    let doc = Node::Dict(vec![
        (key("announce"), bs("udp://t")),
        (
            key("info"),
            Node::Dict(vec![
                (key("piece length"), Node::Int(512)),
                (key("pieces"), Node::Bytes(vec![3u8; 25])),
                (key("name"), bs("x")),
            ]),
        ),
    ]);
    let m = parse_metainfo(&encode_node(&doc)).expect("decode must succeed");
    assert_eq!(m.info.num_pieces, 2);
    assert_eq!(m.info.pieces[0].len(), 20);
    assert_eq!(m.info.pieces[1].len(), 5);
}

#[test]
fn layout_classification_helpers() {
    let single = parse_metainfo(&encode_node(&single_file_doc())).expect("decode must succeed");
    assert!(single.info.is_single_file());
    assert!(!single.info.is_multiple_file());
    let files = Node::List(vec![Node::Dict(vec![
        (key("length"), Node::Int(1)),
        (key("path"), Node::List(vec![bs("f")])),
    ])]);
    let doc = Node::Dict(vec![
        (key("announce"), bs("udp://t")),
        (
            key("info"),
            Node::Dict(vec![
                (key("piece length"), Node::Int(512)),
                (key("pieces"), Node::Bytes(vec![1u8; 20])),
                (key("name"), bs("x")),
                (key("files"), files),
            ]),
        ),
    ]);
    let multi = parse_metainfo(&encode_node(&doc)).expect("decode must succeed");
    assert!(multi.info.is_multiple_file());
    assert!(!multi.info.is_single_file());
}
