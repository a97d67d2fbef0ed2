use libime_history_merge::data::{History, Pool, Sentence, Word};
use libime_history_merge::data_bytes::{FORMAT_VERSION_V2, MAGIC};
use libime_history_merge::{to_bytes, BytesDeserializer, Serializer};

fn decode_word(bytes: &[u8]) -> Word {
    let mut de = BytesDeserializer::new(bytes);
    de.decode_word().unwrap()
}

fn decode_sentence(bytes: &[u8]) -> Sentence {
    let mut de = BytesDeserializer::new(bytes);
    de.decode_sentence().unwrap()
}

fn decode_pool(bytes: &[u8]) -> Pool {
    let mut de = BytesDeserializer::new(bytes);
    de.decode_pool().unwrap()
}

fn encode_word(w: &Word) -> Vec<u8> {
    let mut ser = Serializer::new();
    ser.serialize_word(w).unwrap();
    ser.into_bytes()
}

fn encode_sentence(s: &Sentence) -> Vec<u8> {
    let mut ser = Serializer::new();
    ser.serialize_sentence(s).unwrap();
    ser.into_bytes()
}

fn encode_pool(p: &Pool) -> Vec<u8> {
    let mut ser = Serializer::new();
    ser.serialize_pool(p).unwrap();
    ser.into_bytes()
}

#[test]
fn de_word() {
    let word_bytes = vec![0, 0, 0, 6, 233, 159, 179, 228, 185, 144];
    let expected_word = Word("音乐".to_string());
    assert_eq!(decode_word(&word_bytes), expected_word);
}

#[test]
fn de_sentence() {
    let sentence_bytes = vec![
        0, 0, 0, 3, 0, 0, 0, 6, 233, 159, 179, 228, 185, 144, 0, 0, 0, 6, 229, 165, 189, 229, 144,
        172, 0, 0, 0, 4, 240, 159, 142, 181,
    ];
    let expected_sentence = Sentence(vec![
        Word("音乐".to_string()),
        Word("好听".to_string()),
        Word("🎵".to_string()),
    ]);
    assert_eq!(decode_sentence(&sentence_bytes), expected_sentence);
}

#[test]
fn de_session() {
    let session_bytes = vec![
        0, 0, 0, 1, 0, 0, 0, 3, 0, 0, 0, 6, 233, 159, 179, 228, 185, 144, 0, 0, 0, 4, 240, 159,
        142, 181, 0, 0, 0, 6, 229, 165, 189, 229, 144, 172,
    ];
    let expected = Pool(vec![Sentence(vec![
        Word("音乐".to_string()),
        Word("🎵".to_string()),
        Word("好听".to_string()),
    ])]);
    assert_eq!(decode_pool(&session_bytes), expected);
}

#[test]
fn de_bytes_word() {
    let word_bytes = vec![0, 0, 0, 6, 233, 159, 179, 228, 185, 144];
    let expected_word = Word("音乐".to_string());
    assert_eq!(decode_word(&word_bytes), expected_word);
}

#[test]
fn de_bytes_sentence() {
    let sentence_bytes = vec![
        0, 0, 0, 3, 0, 0, 0, 6, 233, 159, 179, 228, 185, 144, 0, 0, 0, 6, 229, 165, 189, 229, 144,
        172, 0, 0, 0, 4, 240, 159, 142, 181,
    ];
    let expected_sentence = Sentence(vec![
        Word("音乐".to_string()),
        Word("好听".to_string()),
        Word("🎵".to_string()),
    ]);
    assert_eq!(decode_sentence(&sentence_bytes), expected_sentence);
}

#[test]
fn de_bytes_pool() {
    let pool_bytes = vec![
        0, 0, 0, 1, 0, 0, 0, 3, 0, 0, 0, 6, 233, 159, 179, 228, 185, 144, 0, 0, 0, 4, 240, 159,
        142, 181, 0, 0, 0, 6, 229, 165, 189, 229, 144, 172,
    ];
    let expected_pool = Pool(vec![Sentence(vec![
        Word("音乐".to_string()),
        Word("🎵".to_string()),
        Word("好听".to_string()),
    ])]);
    assert_eq!(decode_pool(&pool_bytes), expected_pool);
}

fn two_pool_history_bytes() -> Vec<u8> {
    vec![
        0x00, 0x0f, 0xc3, 0x15, 0x00, 0x00, 0x00, 0x02, 0, 0, 0, 2, 0, 0, 0, 1, 0, 0, 0, 6, 229,
        165, 189, 229, 144, 172, 0, 0, 0, 3, 0, 0, 0, 4, 240, 159, 142, 181, 0, 0, 0, 6, 233, 159,
        179, 228, 185, 144, 0, 0, 0, 4, 240, 159, 146, 191, 0, 0, 0, 3, 0, 0, 0, 4, 0, 0, 0, 4,
        240, 159, 142, 181, 0, 0, 0, 6, 233, 159, 179, 228, 185, 144, 0, 0, 0, 4, 240, 159, 146,
        191, 0, 0, 0, 6, 229, 165, 189, 229, 144, 172, 0, 0, 0, 1, 0, 0, 0, 6, 229, 165, 189, 229,
        144, 172, 0, 0, 0, 3, 0, 0, 0, 4, 240, 159, 142, 181, 0, 0, 0, 6, 233, 159, 179, 228, 185,
        144, 0, 0, 0, 4, 240, 159, 146, 191,
    ]
}

fn two_pool_history() -> History {
    History {
        magic: MAGIC,
        format_version: FORMAT_VERSION_V2,
        pools: vec![
            Pool(vec![
                Sentence(vec![
                    Word("🎵".to_string()),
                    Word("音乐".to_string()),
                    Word("💿".to_string()),
                ]),
                Sentence(vec![Word("好听".to_string())]),
            ]),
            Pool(vec![
                Sentence(vec![
                    Word("🎵".to_string()),
                    Word("音乐".to_string()),
                    Word("💿".to_string()),
                ]),
                Sentence(vec![Word("好听".to_string())]),
                Sentence(vec![
                    Word("🎵".to_string()),
                    Word("音乐".to_string()),
                    Word("💿".to_string()),
                    Word("好听".to_string()),
                ]),
            ]),
        ],
    }
}

#[test]
fn de_bytes_history() {
    let decoded = History::load_from_bytes(&two_pool_history_bytes()).unwrap();
    assert_eq!(decoded, two_pool_history());
}

#[test]
fn ser_history_exact_bytes() {
    // Encoding reverses each pool back to the stored oldest-first order.
    assert_eq!(to_bytes(&two_pool_history()).unwrap(), two_pool_history_bytes());
}

#[test]
fn ser_word() {
    let word = Word("音乐".to_string());
    let expected_word_bytes = vec![0, 0, 0, 6, 233, 159, 179, 228, 185, 144];
    assert_eq!(encode_word(&word), expected_word_bytes);
}

#[test]
fn ser_sentence() {
    let sentence = Sentence(vec![
        Word("音乐".to_string()),
        Word("好听".to_string()),
        Word("🎵".to_string()),
    ]);
    let expected_sentence_bytes = vec![
        0, 0, 0, 3, 0, 0, 0, 6, 233, 159, 179, 228, 185, 144, 0, 0, 0, 6, 229, 165, 189, 229, 144,
        172, 0, 0, 0, 4, 240, 159, 142, 181,
    ];
    assert_eq!(encode_sentence(&sentence), expected_sentence_bytes);
}

#[test]
fn ser_session() {
    let words = vec![
        Word("音乐".to_string()),
        Word("🎵".to_string()),
        Word("好听".to_string()),
    ];
    let sentence = Sentence(words);
    let pool = Pool(vec![sentence]);
    let expected_bytes = vec![
        0, 0, 0, 1, 0, 0, 0, 3, 0, 0, 0, 6, 233, 159, 179, 228, 185, 144, 0, 0, 0, 4, 240, 159,
        142, 181, 0, 0, 0, 6, 229, 165, 189, 229, 144, 172,
    ];
    assert_eq!(encode_pool(&pool), expected_bytes);
}

#[test]
fn lib_word() {
    let word = Word("Èü≥‰πê".to_string());
    assert_eq!(word, decode_word(&encode_word(&word)));
}

#[test]
fn lib_sentence() {
    let sentence = Sentence(vec![
        Word("Èü≥‰πê".to_string()),
        Word("Â•ΩÂê¨".to_string()),
        Word("üéµ".to_string()),
    ]);
    assert_eq!(sentence, decode_sentence(&encode_sentence(&sentence)));
}

#[test]
fn lib_pool() {
    let words = vec![
        Word("Èü≥‰πê".to_string()),
        Word("üéµ".to_string()),
        Word("Â•ΩÂê¨".to_string()),
    ];
    let sentence = Sentence(words);
    let pool = Pool(vec![sentence]);
    assert_eq!(pool, decode_pool(&encode_pool(&pool)));
}

#[test]
fn lib_history() {
    let words = vec![
        Word("üéµ".to_string()),
        Word("Èü≥‰πê".to_string()),
        Word("üíø".to_string()),
        Word("Â•ΩÂê¨".to_string()),
    ];
    let sentence = Sentence(words);
    let pool = Pool(vec![sentence]);
    let history = History { magic: MAGIC, format_version: FORMAT_VERSION_V2, pools: vec![pool] };
    assert_eq!(history, History::load_from_bytes(&to_bytes(&history).unwrap()).unwrap());
}

#[test]
fn cursor_reads_ints_and_strings() {
    let bytes = vec![0x00, 0x0f, 0xc3, 0x15, 0x2a, 0xe9, 0x9f, 0xb3, 0xe4, 0xb9, 0x90];
    let mut de = BytesDeserializer::new(&bytes);
    assert!(!de.ended());
    assert_eq!(de.parse_u32().unwrap(), 0x000fc315);
    assert_eq!(de.parse_u8().unwrap(), 0x2a);
    assert_eq!(de.parse_string(6).unwrap(), "音乐");
    assert!(de.ended());
    assert!(de.parse_u8().is_err());
    assert_eq!(de.next_exact_bytes(1).unwrap_err().message(), "Unexpected EOF");
}

#[test]
fn header_magic_mismatch_reports_expected_and_actual() {
    let mut bytes = two_pool_history_bytes();
    bytes[0] = 0x01; // alter the magic
    let err = History::load_from_bytes(&bytes).unwrap_err();
    let msg = err.message();
    assert!(msg.contains("Invalid history magic"));
    assert!(msg.contains("expected 0x000fc315"));
    assert!(msg.contains("got 0x010fc315"));
}

#[test]
fn header_unsupported_version_reports_expected_and_actual() {
    let mut bytes = two_pool_history_bytes();
    bytes[7] = 0x07; // alter the version tag
    let err = History::load_from_bytes(&bytes).unwrap_err();
    let msg = err.message();
    assert!(msg.contains("Unsupported format version"));
    assert!(msg.contains("expected 0x00000002 or 0x00000003"));
    assert!(msg.contains("got 0x00000007"));
}

#[test]
fn truncated_input_is_eof() {
    let bytes = two_pool_history_bytes();
    let err = History::load_from_bytes(&bytes[..bytes.len() - 3]).unwrap_err();
    assert_eq!(err.message(), "Unexpected EOF");
}

#[test]
fn invalid_utf8_word_is_rejected() {
    // A word of 2 bytes that are not valid UTF-8.
    let bytes = vec![0, 0, 0, 2, 0xff, 0xfe];
    let mut de = BytesDeserializer::new(&bytes);
    let err = de.decode_word().unwrap_err();
    assert!(err.message().contains("not valid UTF-8"));
}

#[test]
fn compressed_history_roundtrip() {
    // A version-3 blob: header, then a compressed block of exactly 3 pools.
    let h = History::new(vec![
        Pool(vec![
            Sentence(vec![Word("alpha".to_string()), Word("beta".to_string())]),
            Sentence(vec![Word("gamma".to_string())]),
        ]),
        Pool(vec![Sentence(vec![Word("delta".to_string())])]),
        Pool(vec![]),
    ]);
    let mut body = Vec::new();
    for p in &h.pools {
        body.extend_from_slice(&encode_pool(p));
    }
    let compressed = zstd::bulk::compress(&body, 0).unwrap();
    let mut blob = vec![0x00, 0x0f, 0xc3, 0x15, 0x00, 0x00, 0x00, 0x03];
    blob.extend_from_slice(&compressed);
    let decoded = History::load_from_bytes(&blob).unwrap();
    assert_eq!(decoded.magic, h.magic);
    assert_eq!(decoded.format_version, 0x03);
    assert_eq!(decoded.pools, h.pools);
}

#[test]
fn corrupt_compressed_block_is_rejected() {
    let mut blob = vec![0x00, 0x0f, 0xc3, 0x15, 0x00, 0x00, 0x00, 0x03];
    blob.extend_from_slice(&[1, 2, 3, 4, 5, 6, 7, 8]);
    let err = History::load_from_bytes(&blob).unwrap_err();
    assert!(err.message().contains("Deserialize Error"));
}
