use bittorrent_core::bencode::{decode_bencoded_value, Value};
use bittorrent_core::peers::{Handshake, PeerParseError, Peers};
use bittorrent_core::torrent::{urlencode, Info, InfoParseError, Torrent};

fn sample_info() -> Info {
    Info {
        length: 12,
        name: b"test.txt".to_vec(),
        piece_length: 32768,
        pieces: (0u8..20).collect(),
    }
}

#[test]
fn peers_decode_two_entries() {
    let block = [127u8, 0, 0, 1, 0x1a, 0xe1, 10, 0, 0, 5, 0x00, 0x50];
    let peers = Peers::try_from(&block).unwrap();
    assert_eq!(peers.0.len(), 2);
    assert_eq!(peers.0[0].ip, [127, 0, 0, 1]);
    assert_eq!(peers.0[0].port, 6881);
    assert_eq!(peers.0[1].ip, [10, 0, 0, 5]);
    assert_eq!(peers.0[1].port, 80);
    assert_eq!(peers.0[0].to_string(), "127.0.0.1:6881");
    assert_eq!(peers.0[1].to_string(), "10.0.0.5:80");
}

#[test]
fn peers_decode_rejects_partial_chunk() {
    let block = [127u8, 0, 0, 1, 0x1a, 0xe1, 10];
    assert_eq!(Peers::try_from(&block), Err(PeerParseError::InvalidLength));
}

#[test]
fn peers_decode_empty_block() {
    let peers = Peers::try_from(&[]).unwrap();
    assert_eq!(peers.0.len(), 0);
}

#[test]
fn peer_display_zeroes() {
    let peers = Peers::try_from(&[0u8, 0, 0, 0, 0, 0]).unwrap();
    assert_eq!(peers.0[0].to_string(), "0.0.0.0:0");
}

#[test]
fn handshake_frame_layout() {
    let info_hash = [0u8; 20];
    let peer_id = *b"00112233445566778899";
    let frame = Handshake::new(info_hash, peer_id).encode();
    assert_eq!(frame.len(), 68);
    assert_eq!(frame[0], 19);
    assert_eq!(&frame[1..20], b"BitTorrent protocol");
    assert_eq!(&frame[20..28], &[0u8; 8]);
    assert_eq!(&frame[28..48], &info_hash);
    assert_eq!(&frame[48..68], &peer_id);
}

#[test]
fn handshake_decode_round_trip() {
    let info_hash = [7u8; 20];
    let peer_id = *b"abcdefghijklmnopqrst";
    let frame = Handshake::new(info_hash, peer_id).encode();
    let back = Handshake::decode(&frame).unwrap();
    assert_eq!(back.info_hash, info_hash);
    assert_eq!(back.peer_id, peer_id);
    assert_eq!(back.length, 19);
}

#[test]
fn handshake_decode_rejects_bad_frames() {
    let frame = Handshake::new([0u8; 20], [1u8; 20]).encode();
    assert!(Handshake::decode(&frame[..67]).is_none());
    let mut wrong_len = frame.clone();
    wrong_len[0] = 18;
    assert!(Handshake::decode(&wrong_len).is_none());
    let mut wrong_name = frame.clone();
    wrong_name[1] = b'b';
    assert!(Handshake::decode(&wrong_name).is_none());
}

#[test]
fn info_encodes_canonically() {
    let enc = sample_info().encode();
    let mut expected = b"d6:lengthi12e4:name8:test.txt12:piece lengthi32768e6:pieces20:".to_vec();
    expected.extend(0u8..20);
    expected.push(b'e');
    assert_eq!(enc, expected);
}

#[test]
fn encoded_info_decodes_back() {
    let enc = sample_info().encode();
    let (v, end) = decode_bencoded_value(&enc).unwrap();
    assert_eq!(end, enc.len());
    assert_eq!(
        v,
        Value::Dictionary(vec![
            (b"length".to_vec(), Value::Integer(12)),
            (b"name".to_vec(), Value::ByteString(b"test.txt".to_vec())),
            (b"piece length".to_vec(), Value::Integer(32768)),
            (b"pieces".to_vec(), Value::ByteString((0u8..20).collect())),
        ])
    );
}

#[test]
fn info_from_value_round_trips_encoding() {
    let info = sample_info();
    let enc = info.encode();
    let (v, end) = decode_bencoded_value(&enc).unwrap();
    assert_eq!(end, enc.len());
    assert_eq!(Info::from_value(&v).unwrap(), info);
}

#[test]
fn info_from_value_reads_any_key_order() {
    let enc = b"d4:name4:spam6:pieces0:12:piece lengthi1e6:lengthi7ee";
    let (v, _) = decode_bencoded_value(enc).unwrap();
    let info = Info::from_value(&v).unwrap();
    assert_eq!(info.length, 7);
    assert_eq!(info.name, b"spam");
    assert_eq!(info.piece_length, 1);
    assert_eq!(info.pieces, b"");
}

#[test]
fn info_from_value_names_the_failing_field() {
    let cases: Vec<(&[u8], InfoParseError)> = vec![
        (b"le", InfoParseError::NotADictionary),
        (b"i3e", InfoParseError::NotADictionary),
        (b"de", InfoParseError::MissingLength),
        (b"d6:length4:spame", InfoParseError::BadLength),
        (b"d6:lengthi-1ee", InfoParseError::BadLength),
        (b"d6:lengthi12ee", InfoParseError::MissingName),
        (b"d6:lengthi12e4:namei3ee", InfoParseError::BadName),
        (b"d6:lengthi12e4:name4:spame", InfoParseError::MissingPieceLength),
        (
            b"d6:lengthi12e4:name4:spam12:piece length2:xxe",
            InfoParseError::BadPieceLength,
        ),
        (
            b"d6:lengthi12e4:name4:spam12:piece lengthi1ee",
            InfoParseError::MissingPieces,
        ),
        (
            b"d6:lengthi12e4:name4:spam12:piece lengthi1e6:piecesi0ee",
            InfoParseError::BadPieces,
        ),
    ];
    for (input, expected) in cases {
        let (v, _) = decode_bencoded_value(input).unwrap();
        assert_eq!(Info::from_value(&v), Err(expected));
    }
}

#[test]
fn info_hash_known_value() {
    let torrent = Torrent {
        announce: String::from("http://tracker.test/a"),
        info: sample_info(),
    };
    let hash = torrent.info_hash();
    assert_eq!(
        hex::encode(hash),
        "9415fbf470b056babffa6f37d7f675d8651c57b6"
    );
}

#[test]
fn info_hash_is_deterministic_and_input_sensitive() {
    let a = Torrent {
        announce: String::from("http://one.test/"),
        info: sample_info(),
    };
    let b = Torrent {
        announce: String::from("http://two.test/"),
        info: sample_info(),
    };
    assert_eq!(a.info_hash(), b.info_hash());
    let mut altered = sample_info();
    altered.pieces[3] ^= 0x01;
    let c = Torrent {
        announce: String::from("http://one.test/"),
        info: altered,
    };
    assert_ne!(a.info_hash(), c.info_hash());
}

#[test]
fn pieces_hash_lists_each_chunk() {
    let mut info = sample_info();
    info.pieces = (0u8..40).collect();
    let torrent = Torrent {
        announce: String::from("http://tracker.test/a"),
        info,
    };
    let hashes = torrent.pieces_hash();
    assert_eq!(
        hashes,
        vec![
            String::from("000102030405060708090a0b0c0d0e0f10111213"),
            String::from("1415161718191a1b1c1d1e1f2021222324252627"),
        ]
    );
}

#[test]
fn urlencode_percent_encodes_every_byte() {
    let mut hash = [0u8; 20];
    for (i, b) in hash.iter_mut().enumerate() {
        *b = i as u8;
    }
    assert_eq!(
        urlencode(&hash),
        "%00%01%02%03%04%05%06%07%08%09%0a%0b%0c%0d%0e%0f%10%11%12%13"
    );
}
