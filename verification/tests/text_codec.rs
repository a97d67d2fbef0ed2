use libime_history_merge::data::{History, Pool, Sentence, Word};
use libime_history_merge::data_bytes::{FORMAT_VERSION_V2, MAGIC};
use libime_history_merge::{BytesDeserializer, TextDeserializer};

#[test]
fn coherency_word() {
    let word_bytes = vec![0, 0, 0, 6, 233, 159, 179, 228, 185, 144];
    let word_str = "音乐";
    let word = Word(word_str.to_string());
    let word_from_bytes = {
        let mut de = BytesDeserializer::new(&word_bytes);
        de.decode_word().unwrap()
    };
    let word_from_text = {
        let mut de = TextDeserializer::new(word_str.as_bytes());
        Word(de.next_word().unwrap())
    };
    assert_eq!(word, word_from_bytes);
    assert_eq!(word, word_from_text);
}

#[test]
fn coherency_sentence() {
    let sentence_bytes = vec![
        0, 0, 0, 2, 0, 0, 0, 6, 233, 159, 179, 228, 185, 144, 0, 0, 0, 6, 229, 165, 189, 229, 144,
        172,
    ];
    let sentence_str = "音乐 好听";
    let sentence = Sentence(sentence_str.split(' ').map(String::from).map(Word).collect());
    let sentence_from_bytes = {
        let mut de = BytesDeserializer::new(&sentence_bytes);
        de.decode_sentence().unwrap()
    };
    let sentence_from_text = {
        let mut de = TextDeserializer::new(sentence_str.as_bytes());
        de.next_sentence().unwrap()
    };
    assert_eq!(sentence, sentence_from_bytes);
    assert_eq!(sentence, sentence_from_text);
}

#[test]
fn text_cursor_peeks_and_pops() {
    let mut de = TextDeserializer::new(b"ab cd\nef");
    assert_eq!(de.peek_byte().unwrap(), b'a');
    assert_eq!(de.pop_until(&[b' ', b'\n']).unwrap(), b"ab");
    assert_eq!(de.next_exact_bytes(1).unwrap(), b" ");
    assert_eq!(de.next_word().unwrap(), "cd");
    assert_eq!(de.next_exact_bytes(1).unwrap(), b"\n");
    assert_eq!(de.next_word().unwrap(), "ef");
    assert!(de.ended());
    assert!(de.peek_byte().is_err());
}

#[test]
fn text_load_builds_single_pool_history() {
    let h = History::load_from_text(b"hello world\nsecond line\n").unwrap();
    assert_eq!(h.magic, MAGIC);
    assert_eq!(h.format_version, FORMAT_VERSION_V2);
    assert_eq!(h.pools.len(), 3);
    assert_eq!(
        h.pools[0],
        Pool(vec![
            Sentence(vec![Word("hello".to_string()), Word("world".to_string())]),
            Sentence(vec![Word("second".to_string()), Word("line".to_string())]),
        ])
    );
    assert!(h.pools[1].0.is_empty());
    assert!(h.pools[2].0.is_empty());
}

#[test]
fn text_load_drops_blank_lines() {
    let h = History::load_from_text(b"one\n\n\ntwo").unwrap();
    assert_eq!(
        h.pools[0],
        Pool(vec![
            Sentence(vec![Word("one".to_string())]),
            Sentence(vec![Word("two".to_string())]),
        ])
    );
}

#[test]
fn text_load_rejects_invalid_utf8() {
    let err = History::load_from_text(&[0xff, 0xfe]).unwrap_err();
    assert!(err.message().contains("not valid UTF-8"));
}

#[test]
fn load_prefers_binary_then_text() {
    // A valid binary blob loads as binary.
    let word_pool = Pool(vec![Sentence(vec![Word("w".to_string())])]);
    let h = History::new(vec![word_pool, Pool(vec![]), Pool(vec![])]);
    let blob = libime_history_merge::to_bytes(&h).unwrap();
    let loaded = History::load(&blob).unwrap();
    assert_eq!(loaded, h);

    // Plain text falls back to the text loader.
    let loaded_text = History::load(b"plain words here").unwrap();
    assert_eq!(
        loaded_text.pools[0],
        Pool(vec![Sentence(vec![
            Word("plain".to_string()),
            Word("words".to_string()),
            Word("here".to_string()),
        ])])
    );

    // Something that is neither yields the combined error.
    let err = History::load(&[0xff, 0xfe, 0xfd]).unwrap_err();
    assert!(err.message().contains("Could not load history, tried binary and plain text"));
}

#[test]
fn history_renders_as_text() {
    let h = History::new(vec![
        Pool(vec![
            Sentence(vec![Word("hello".to_string()), Word("world".to_string())]),
            Sentence(vec![Word("again".to_string())]),
        ]),
        Pool(vec![]),
        Pool(vec![Sentence(vec![Word("old".to_string())])]),
    ]);
    assert_eq!(h.to_text(), "hello world\nagain\nold");
}

#[test]
fn sentence_rendering_skips_empty_words() {
    let s = Sentence(vec![
        Word("a".to_string()),
        Word("".to_string()),
        Word("b".to_string()),
    ]);
    assert_eq!(s.to_text(), "a b");
    assert!(!s.is_empty());
    assert!(Sentence(vec![Word("".to_string())]).is_empty());
}

#[test]
fn text_then_binary_roundtrip_keeps_content() {
    // The text form is lossy of pool boundaries but keeps the sentences.
    let text = b"first line\nsecond one\n";
    let h = History::load_from_text(text).unwrap();
    let blob = libime_history_merge::to_bytes(&h).unwrap();
    let h2 = History::load_from_bytes(&blob).unwrap();
    assert_eq!(h, h2);
    assert_eq!(h2.to_text(), "first line\nsecond one");
}
