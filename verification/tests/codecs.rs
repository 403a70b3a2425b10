use lz_codecs::lz77;
use lz_codecs::lz77::LZ77Compressor;
use lz_codecs::lz78;
use lz_codecs::lz78::Token;
use lz_codecs::lz78_plain;
use lz_codecs::lz78_plain::Entry;
use lz_codecs::DecodeError;

#[test]
fn lz77_compress() {
    let lz77_compressor = LZ77Compressor::new(6, 6);
    let compressed_blocks = lz77_compressor.compress("ababcbababaa".as_bytes());

    let expected_output = vec![
        lz77::Block::Literal(97),
        lz77::Block::Literal(98),
        lz77::Block::Pair((2, 2)),
        lz77::Block::Literal(99),
        lz77::Block::Pair((3, 4)),
        lz77::Block::Pair((2, 2)),
        lz77::Block::Pair((1, 2)),
        lz77::Block::Pair((1, 1)),
    ];

    assert_eq!(expected_output, compressed_blocks);
}

#[test]
fn lz77_decompress() {
    let decompressed_bytes = lz77::decompress(&[
        lz77::Block::Literal(97),
        lz77::Block::Literal(98),
        lz77::Block::Pair((2, 2)),
        lz77::Block::Literal(99),
        lz77::Block::Pair((3, 4)),
        lz77::Block::Pair((2, 2)),
        lz77::Block::Pair((1, 2)),
        lz77::Block::Pair((1, 1)),
    ])
    .unwrap();

    assert_eq!("ababcbababaa".as_bytes(), decompressed_bytes);
}

#[test]
fn length_overflow() {
    let lz77_codec = LZ77Compressor::new(6, 6);
    let compressed_blocks = lz77_codec.compress("abaaaa".as_bytes());
    let decompressed_bytes = lz77::decompress(&compressed_blocks).unwrap();

    assert_eq!("abaaaa".as_bytes(), decompressed_bytes);
}

#[test]
fn lz78_compress() {
    let compressed_blocks = lz78::compress("ababcbababaa".as_bytes());

    let expected_output = vec![
        lz78::Block(0, None),
        lz78::Block(0, Some(Token::Literal(97))),
        lz78::Block(0, Some(Token::Literal(98))),
        lz78::Block(1, Some(Token::Literal(98))),
        lz78::Block(0, Some(Token::Literal(99))),
        lz78::Block(2, Some(Token::Literal(97))),
        lz78::Block(5, Some(Token::Literal(98))),
        lz78::Block(1, Some(Token::EOF(Some(97)))),
    ];

    assert_eq!(expected_output, compressed_blocks);
}

#[test]
fn lz78_decompress() {
    let decompressed_bytes = lz78::decompress(&[
        lz78::Block(0, None),
        lz78::Block(0, Some(Token::Literal(97))),
        lz78::Block(0, Some(Token::Literal(98))),
        lz78::Block(1, Some(Token::Literal(98))),
        lz78::Block(0, Some(Token::Literal(99))),
        lz78::Block(2, Some(Token::Literal(97))),
        lz78::Block(5, Some(Token::Literal(98))),
        lz78::Block(1, Some(Token::EOF(Some(97)))),
    ])
    .unwrap();

    assert_eq!("ababcbababaa".as_bytes(), decompressed_bytes);
}

#[test]
fn lz77_round_trip_various() {
    let inputs: Vec<&[u8]> = vec![
        b"",
        b"a",
        b"aaaaaaaa",
        b"abbax",
        b"ababa",
        b"TOBEORNOTTOBEORTOBEORNOT",
        b"mississippi river mississippi delta",
    ];
    for input in inputs {
        for (w, l) in [(1usize, 1usize), (4, 3), (6, 6), (255, 255)] {
            let blocks = lz77::compress(input, w, l);
            let decoded = lz77::decompress(&blocks).unwrap();
            assert_eq!(input, decoded);
        }
    }
}

#[test]
fn lz78_plain_round_trip_various() {
    let inputs: Vec<&[u8]> = vec![
        b"",
        b"a",
        b"aba",
        b"aaaaaaaa",
        b"ababcbababaa",
        b"TOBEORNOTTOBEORTOBEORNOT",
        b"mississippi river mississippi delta",
    ];
    for input in inputs {
        let dict = lz78_plain::compress(input);
        let decoded = lz78_plain::decompress(&dict).unwrap();
        assert_eq!(input, decoded);
    }
}

#[test]
fn lz78_round_trip_various() {
    let inputs: Vec<&[u8]> = vec![
        b"",
        b"a",
        b"aba",
        b"aaaaaaaa",
        b"ababcbababaa",
        b"TOBEORNOTTOBEORTOBEORNOT",
        b"mississippi river mississippi delta",
    ];
    for input in inputs {
        let dict = lz78::compress(input);
        let decoded = lz78::decompress(&dict).unwrap();
        assert_eq!(input, decoded);
    }
}

#[test]
fn lz77_empty_input() {
    let blocks = lz77::compress(b"", 6, 6);
    assert_eq!(blocks, Vec::<lz77::Block>::new());
    assert_eq!(lz77::decompress(&blocks).unwrap(), Vec::<u8>::new());
}

#[test]
fn lz78_plain_empty_input() {
    let dict = lz78_plain::compress(b"");
    assert_eq!(dict, vec![Entry(0, None)]);
    assert_eq!(lz78_plain::decompress(&dict).unwrap(), Vec::<u8>::new());
    assert_eq!(lz78_plain::decompress(&[]).unwrap(), Vec::<u8>::new());
}

#[test]
fn lz78_empty_input() {
    let dict = lz78::compress(b"");
    assert_eq!(dict, vec![lz78::Block(0, None)]);
    assert_eq!(lz78::decompress(&dict).unwrap(), Vec::<u8>::new());
    assert_eq!(lz78::decompress(&[]).unwrap(), Vec::<u8>::new());
}

#[test]
fn lz77_self_overlap_block() {
    // A back-reference longer than its distance replays bytes it produced
    // itself within the same copy.
    let decoded = lz77::decompress(&[lz77::Block::Literal(97), lz77::Block::Pair((3, 1))]).unwrap();
    assert_eq!(b"aaaa".as_slice(), decoded);
}

#[test]
fn lz77_self_overlap_round_trip() {
    let blocks = lz77::compress(b"abaaaa", 6, 6);
    assert_eq!(
        blocks,
        vec![
            lz77::Block::Literal(97),
            lz77::Block::Literal(98),
            lz77::Block::Pair((1, 2)),
            lz77::Block::Pair((3, 1)),
        ]
    );
    assert_eq!(lz77::decompress(&blocks).unwrap(), b"abaaaa");
}

#[test]
fn single_byte_all_codecs() {
    let blocks = lz77::compress(b"z", 1, 1);
    assert_eq!(blocks, vec![lz77::Block::Literal(122)]);
    assert_eq!(lz77::decompress(&blocks).unwrap(), b"z");

    let dict = lz78_plain::compress(b"z");
    assert_eq!(dict, vec![Entry(0, None), Entry(0, Some(122))]);
    assert_eq!(lz78_plain::decompress(&dict).unwrap(), b"z");

    let dict = lz78::compress(b"z");
    assert_eq!(
        dict,
        vec![lz78::Block(0, None), lz78::Block(0, Some(Token::EOF(Some(122))))]
    );
    assert_eq!(lz78::decompress(&dict).unwrap(), b"z");
}

#[test]
fn lz78_plain_growth_order() {
    // Dictionary growth order for an input whose last byte extends an
    // existing path, so the dictionary ends in a payload-less closing entry.
    let dict = lz78_plain::compress(b"ababcbababa");
    let expected = vec![
        Entry(0, None),
        Entry(0, Some(97)),
        Entry(0, Some(98)),
        Entry(1, Some(98)),
        Entry(0, Some(99)),
        Entry(2, Some(97)),
        Entry(5, Some(98)),
        Entry(1, None),
    ];
    assert_eq!(expected, dict);
    assert_eq!(lz78_plain::decompress(&dict).unwrap(), b"ababcbababa");
}

#[test]
fn lz78_plain_final_unmatched_byte() {
    // When the last byte fails to extend a path it starts a new entry of its
    // own, like any other byte.
    let dict = lz78_plain::compress(b"ababcbababaa");
    let expected = vec![
        Entry(0, None),
        Entry(0, Some(97)),
        Entry(0, Some(98)),
        Entry(1, Some(98)),
        Entry(0, Some(99)),
        Entry(2, Some(97)),
        Entry(5, Some(98)),
        Entry(1, Some(97)),
    ];
    assert_eq!(expected, dict);
    assert_eq!(lz78_plain::decompress(&dict).unwrap(), b"ababcbababaa");
}

#[test]
fn lz78_closing_entry_round_trip() {
    // The last byte extends an existing path, so the dictionary is closed by
    // an end token carrying no byte.
    let dict = lz78::compress(b"aba");
    assert_eq!(
        dict,
        vec![
            lz78::Block(0, None),
            lz78::Block(0, Some(Token::Literal(97))),
            lz78::Block(0, Some(Token::Literal(98))),
            lz78::Block(1, Some(Token::EOF(None))),
        ]
    );
    assert_eq!(lz78::decompress(&dict).unwrap(), b"aba");
}

#[test]
fn lz77_decompress_rejects_bad_distance() {
    let r = lz77::decompress(&[lz77::Block::Pair((1, 1))]);
    assert_eq!(r, Err(DecodeError::InvalidBackReference));

    let r = lz77::decompress(&[lz77::Block::Literal(97), lz77::Block::Pair((1, 2))]);
    assert_eq!(r, Err(DecodeError::InvalidBackReference));

    let r = lz77::decompress(&[lz77::Block::Literal(97), lz77::Block::Pair((1, 0))]);
    assert_eq!(r, Err(DecodeError::InvalidBackReference));
}

#[test]
fn lz78_plain_decompress_rejects_bad_parent() {
    let r = lz78_plain::decompress(&[Entry(0, None), Entry(1, Some(97))]);
    assert_eq!(r, Err(DecodeError::InvalidDictionaryIndex));

    let r = lz78_plain::decompress(&[Entry(0, None), Entry(7, Some(97))]);
    assert_eq!(r, Err(DecodeError::InvalidDictionaryIndex));
}

#[test]
fn lz78_decompress_rejects_bad_parent() {
    let r = lz78::decompress(&[
        lz78::Block(0, None),
        lz78::Block(1, Some(Token::Literal(97))),
    ]);
    assert_eq!(r, Err(DecodeError::InvalidDictionaryIndex));

    let r = lz78::decompress(&[
        lz78::Block(0, None),
        lz78::Block(9, Some(Token::EOF(None))),
    ]);
    assert_eq!(r, Err(DecodeError::InvalidDictionaryIndex));
}

#[test]
fn lz77_nearest_offset_preferred() {
    // At position 3 the single byte "x" matches at distance 1, but the two
    // byte run "xy" matches at distance 3: the longer match wins over the
    // nearer shorter one.
    let blocks = lz77::compress(b"xyxxy", 6, 6);
    assert_eq!(
        blocks,
        vec![
            lz77::Block::Literal(120),
            lz77::Block::Literal(121),
            lz77::Block::Pair((1, 2)),
            lz77::Block::Pair((2, 3)),
        ]
    );
    assert_eq!(lz77::decompress(&blocks).unwrap(), b"xyxxy");
}

#[test]
fn lz78_end_token_carries_byte_iff_new_entry() {
    // The final byte misses the trie, so it arrives as an end token carrying
    // the byte; no separate closing entry follows.
    let dict = lz78::compress(b"xy");
    assert_eq!(
        dict,
        vec![
            lz78::Block(0, None),
            lz78::Block(0, Some(Token::Literal(120))),
            lz78::Block(0, Some(Token::EOF(Some(121)))),
        ]
    );
    assert_eq!(lz78::decompress(&dict).unwrap(), b"xy");
}

#[test]
fn lz78_plain_closing_entry_iff_mid_path() {
    // The final byte extends an existing path, so the dictionary is closed
    // by a payload-less entry pointing at that path.
    let dict = lz78_plain::compress(b"aa");
    assert_eq!(dict, vec![Entry(0, None), Entry(0, Some(97)), Entry(1, None)]);
    assert_eq!(lz78_plain::decompress(&dict).unwrap(), b"aa");
}
