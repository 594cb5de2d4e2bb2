//! The torrent metadata model, its canonical bencode encoding and the
//! SHA-1 info-hash derived from it.

use crate::bencode::{value_view, Value};
use sha1::Digest;
use vstd::prelude::*;
use vstd::string::StringExecFns;

verus! {

/// The `info` dictionary of a torrent file: a single file's size and name,
/// the piece size, and the concatenated 20-byte SHA-1 piece digests.
#[derive(Debug, PartialEq, Eq)]
pub struct Info {
    pub length: usize,
    pub name: Vec<u8>,
    pub piece_length: usize,
    pub pieces: Vec<u8>,
}

/// A torrent file's metadata: the tracker URL and the `info` dictionary.
#[derive(Debug, PartialEq, Eq)]
pub struct Torrent {
    pub announce: String,
    pub info: Info,
}

/// The lowercase hex character of a nibble value.
pub open spec fn hex_char(n: int) -> char {
    if n == 0 { '0' }
    else if n == 1 { '1' }
    else if n == 2 { '2' }
    else if n == 3 { '3' }
    else if n == 4 { '4' }
    else if n == 5 { '5' }
    else if n == 6 { '6' }
    else if n == 7 { '7' }
    else if n == 8 { '8' }
    else if n == 9 { '9' }
    else if n == 10 { 'a' }
    else if n == 11 { 'b' }
    else if n == 12 { 'c' }
    else if n == 13 { 'd' }
    else if n == 14 { 'e' }
    else { 'f' }
}

/// The lowercase hex text of a byte sequence: two characters per byte, high
/// nibble first, in input order.
pub open spec fn hex_of(s: Seq<u8>) -> Seq<char>
    decreases s.len(),
{
    if s.len() == 0 {
        Seq::empty()
    } else {
        hex_of(s.drop_last()) + seq![
            hex_char(s.last() as int / 16),
            hex_char(s.last() as int % 16),
        ]
    }
}

/// The 20-byte SHA-1 digest of a byte sequence. SHA-1 is computed by an
/// outside crate, so the digest is only named here, never defined.
pub uninterp spec fn sha1_of(s: Seq<u8>) -> Seq<u8>;

/// Relies on sha1::Sha1 through the digest traits: the 20-byte digest is a
/// pure function of the input bytes.
#[verifier::external_body]
fn sha1_digest(bytes: &Vec<u8>) -> (r: [u8; 20])
    ensures
        r@ == sha1_of(bytes@),
{
    let mut hasher = sha1::Sha1::new();
    hasher.update(bytes.as_slice());
    let out = hasher.finalize();
    let mut r = [0u8; 20];
    r.copy_from_slice(&out);
    r
}

/// Relies on hex::encode: lowercase hexadecimal, two digits per byte, in
/// input order.
#[verifier::external_body]
fn hex_encode(bytes: &Vec<u8>) -> (r: String)
    ensures
        r@ == hex_of(bytes@),
{
    hex::encode(bytes.as_slice())
}

/// The bytes of the key `length`.
pub open spec fn key_length() -> Seq<u8> {
    seq![0x6cu8, 0x65, 0x6e, 0x67, 0x74, 0x68]
}

/// The bytes of the key `name`.
pub open spec fn key_name() -> Seq<u8> {
    seq![0x6eu8, 0x61, 0x6d, 0x65]
}

/// The bytes of the key `piece length`.
pub open spec fn key_piece_length() -> Seq<u8> {
    seq![0x70u8, 0x69, 0x65, 0x63, 0x65, 0x20, 0x6c, 0x65, 0x6e, 0x67, 0x74, 0x68]
}

/// The bytes of the key `pieces`.
pub open spec fn key_pieces() -> Seq<u8> {
    seq![0x70u8, 0x69, 0x65, 0x63, 0x65, 0x73]
}

/// The canonical bencode encoding of an info dictionary: its four keys in
/// byte-lexicographic order, each value in canonical form. Every field
/// combination has exactly this one encoding.
pub open spec fn spec_encode_info(
    length: nat,
    name: Seq<u8>,
    piece_length: nat,
    pieces: Seq<u8>,
) -> Seq<u8> {
    seq![0x64u8] + crate::bencode::spec_encode_bytes(key_length()) + crate::bencode::spec_encode_uint(length) + crate::bencode::spec_encode_bytes(
        key_name(),
    ) + crate::bencode::spec_encode_bytes(name) + crate::bencode::spec_encode_bytes(key_piece_length()) + crate::bencode::spec_encode_uint(
        piece_length,
    ) + crate::bencode::spec_encode_bytes(key_pieces()) + crate::bencode::spec_encode_bytes(pieces) + seq![0x65u8]
}

/// Why a decoded bencode value is not a torrent's info dictionary.
#[derive(Debug, Clone, Copy, PartialEq, Eq, Structural)]
pub enum InfoParseError {
    /// The value is not a dictionary.
    NotADictionary,
    /// No `length` entry.
    MissingLength,
    /// The `length` entry is not an integer between zero and the machine's
    /// address range.
    BadLength,
    /// No `name` entry.
    MissingName,
    /// The `name` entry is not a byte-string.
    BadName,
    /// No `piece length` entry.
    MissingPieceLength,
    /// The `piece length` entry is not an integer between zero and the
    /// machine's address range.
    BadPieceLength,
    /// No `pieces` entry.
    MissingPieces,
    /// The `pieces` entry is not a byte-string.
    BadPieces,
}

/// The info record a decoded value tree denotes: a dictionary whose
/// `length` and `piece length` are machine-range integers and whose `name`
/// and `pieces` are byte-strings, the fields checked in key order.
pub open spec fn spec_info_from_value(v: crate::bencode::SpecValue) -> Result<
    (int, Seq<u8>, int, Seq<u8>),
    InfoParseError,
> {
    match v {
        crate::bencode::SpecValue::Dict(entries) => match crate::bencode::spec_lookup(
            entries,
            key_length(),
        ) {
            None => Err(InfoParseError::MissingLength),
            Some(lv) => match lv {
                crate::bencode::SpecValue::Int(length) => if 0 <= length <= usize::MAX {
                    match crate::bencode::spec_lookup(entries, key_name()) {
                        None => Err(InfoParseError::MissingName),
                        Some(nv) => match nv {
                            crate::bencode::SpecValue::Bytes(name) => match crate::bencode::spec_lookup(
                                entries,
                                key_piece_length(),
                            ) {
                                None => Err(InfoParseError::MissingPieceLength),
                                Some(pv) => match pv {
                                    crate::bencode::SpecValue::Int(piece_length) => if 0
                                        <= piece_length <= usize::MAX {
                                        match crate::bencode::spec_lookup(
                                            entries,
                                            key_pieces(),
                                        ) {
                                            None => Err(InfoParseError::MissingPieces),
                                            Some(sv) => match sv {
                                                crate::bencode::SpecValue::Bytes(pieces) => Ok(
                                                    (length, name, piece_length, pieces),
                                                ),
                                                _ => Err(InfoParseError::BadPieces),
                                            },
                                        }
                                    } else {
                                        Err(InfoParseError::BadPieceLength)
                                    },
                                    _ => Err(InfoParseError::BadPieceLength),
                                },
                            },
                            _ => Err(InfoParseError::BadName),
                        },
                    }
                } else {
                    Err(InfoParseError::BadLength)
                },
                _ => Err(InfoParseError::BadLength),
            },
        },
        _ => Err(InfoParseError::NotADictionary),
    }
}

/// The info dictionary as the generic decoder's value tree sees it.
pub open spec fn info_dict_value(
    length: nat,
    name: Seq<u8>,
    piece_length: nat,
    pieces: Seq<u8>,
) -> crate::bencode::SpecValue {
    crate::bencode::SpecValue::Dict(
        seq![
            (key_length(), crate::bencode::SpecValue::Int(length as int)),
            (key_name(), crate::bencode::SpecValue::Bytes(name)),
            (key_piece_length(), crate::bencode::SpecValue::Int(piece_length as int)),
            (key_pieces(), crate::bencode::SpecValue::Bytes(pieces)),
        ],
    )
}

/// Law: round-trip on the typed metadata path. Decoding the canonical
/// encoding of an info record succeeds, consumes every byte, and yields
/// exactly that record's dictionary — so re-encoding the same fields
/// reproduces the input byte for byte. Integer fields must fit the decoder's
/// signed 64-bit range, and the byte fields must be addressable.
#[verifier::rlimit(60)]
pub proof fn lemma_encode_decode_round_trip(
    length: nat,
    name: Seq<u8>,
    piece_length: nat,
    pieces: Seq<u8>,
)
    requires
        length <= i64::MAX,
        piece_length <= i64::MAX,
        name.len() <= usize::MAX,
        pieces.len() <= usize::MAX,
    ensures
        crate::bencode::spec_decode(spec_encode_info(length, name, piece_length, pieces), 0)
            == Ok::<(crate::bencode::SpecValue, int), crate::bencode::DecodeError>(
            (
                info_dict_value(length, name, piece_length, pieces),
                spec_encode_info(length, name, piece_length, pieces).len() as int,
            ),
        ),
{
    let s = spec_encode_info(length, name, piece_length, pieces);
    let e1 = crate::bencode::spec_encode_bytes(key_length());
    let e2 = crate::bencode::spec_encode_uint(length);
    let e3 = crate::bencode::spec_encode_bytes(key_name());
    let e4 = crate::bencode::spec_encode_bytes(name);
    let e5 = crate::bencode::spec_encode_bytes(key_piece_length());
    let e6 = crate::bencode::spec_encode_uint(piece_length);
    let e7 = crate::bencode::spec_encode_bytes(key_pieces());
    let e8 = crate::bencode::spec_encode_bytes(pieces);
    crate::digits::lemma_dec_digits_wf(key_length().len());
    crate::digits::lemma_dec_digits_wf(key_name().len());
    crate::digits::lemma_dec_digits_wf(key_piece_length().len());
    crate::digits::lemma_dec_digits_wf(key_pieces().len());
    crate::digits::lemma_dec_digits_wf(name.len());
    crate::digits::lemma_dec_digits_wf(pieces.len());
    crate::digits::lemma_dec_digits_wf(length);
    crate::digits::lemma_dec_digits_wf(piece_length);
    let p0: int = 1;
    let p1 = p0 + e1.len();
    let p2 = p1 + e2.len();
    let p3 = p2 + e3.len();
    let p4 = p3 + e4.len();
    let p5 = p4 + e5.len();
    let p6 = p5 + e6.len();
    let p7 = p6 + e7.len();
    let p8 = p7 + e8.len();
    assert(s.len() == p8 + 1);
    assert(s[0] == 0x64);
    assert(s[p8] == 0x65);
    assert(s.subrange(p0, p1) =~= e1);
    assert(s.subrange(p1, p2) =~= e2);
    assert(s.subrange(p2, p3) =~= e3);
    assert(s.subrange(p3, p4) =~= e4);
    assert(s.subrange(p4, p5) =~= e5);
    assert(s.subrange(p5, p6) =~= e6);
    assert(s.subrange(p6, p7) =~= e7);
    assert(s.subrange(p7, p8) =~= e8);
    crate::bencode::lemma_decode_bytes_at(s, p0, key_length());
    crate::bencode::lemma_decode_uint_at(s, p1, length);
    crate::bencode::lemma_decode_bytes_at(s, p2, key_name());
    crate::bencode::lemma_decode_bytes_at(s, p3, name);
    crate::bencode::lemma_decode_bytes_at(s, p4, key_piece_length());
    crate::bencode::lemma_decode_uint_at(s, p5, piece_length);
    crate::bencode::lemma_decode_bytes_at(s, p6, key_pieces());
    crate::bencode::lemma_decode_bytes_at(s, p7, pieces);
    // The four keys are pairwise distinct, so each write appends.
    assert(key_length()[0] != key_name()[0]);
    assert(key_length()[0] != key_piece_length()[0]);
    assert(key_length()[0] != key_pieces()[0]);
    assert(key_name()[0] != key_piece_length()[0]);
    assert(key_name()[0] != key_pieces()[0]);
    assert(key_piece_length()[5] != key_pieces()[5]);
    let v_length = crate::bencode::SpecValue::Int(length as int);
    let v_name = crate::bencode::SpecValue::Bytes(name);
    let v_piece_length = crate::bencode::SpecValue::Int(piece_length as int);
    let v_pieces = crate::bencode::SpecValue::Bytes(pieces);
    let acc0 = Seq::<(Seq<u8>, crate::bencode::SpecValue)>::empty();
    let acc1 = crate::bencode::dict_insert(acc0, key_length(), v_length);
    assert(acc1 =~= seq![(key_length(), v_length)]);
    crate::bencode::lemma_dict_insert_append(acc1, key_name(), v_name);
    let acc2 = crate::bencode::dict_insert(acc1, key_name(), v_name);
    assert(acc2 =~= seq![(key_length(), v_length), (key_name(), v_name)]);
    crate::bencode::lemma_dict_insert_append(acc2, key_piece_length(), v_piece_length);
    let acc3 = crate::bencode::dict_insert(acc2, key_piece_length(), v_piece_length);
    assert(acc3 =~= seq![
        (key_length(), v_length),
        (key_name(), v_name),
        (key_piece_length(), v_piece_length),
    ]);
    crate::bencode::lemma_dict_insert_append(acc3, key_pieces(), v_pieces);
    let acc4 = crate::bencode::dict_insert(acc3, key_pieces(), v_pieces);
    assert(acc4 =~= seq![
        (key_length(), v_length),
        (key_name(), v_name),
        (key_piece_length(), v_piece_length),
        (key_pieces(), v_pieces),
    ]);
    // The first byte of each key encoding is a digit, never a terminator.
    assert(s[p0] == e1[0] && e1[0] == crate::digits::dec_digits(key_length().len())[0]);
    assert(s[p2] == e3[0] && e3[0] == crate::digits::dec_digits(key_name().len())[0]);
    assert(s[p4] == e5[0] && e5[0] == crate::digits::dec_digits(key_piece_length().len())[0]);
    assert(s[p6] == e7[0] && e7[0] == crate::digits::dec_digits(key_pieces().len())[0]);
    assert(s[p0] != 0x65 && s[p2] != 0x65 && s[p4] != 0x65 && s[p6] != 0x65);
    // Walk the dictionary body from its tail back to its head.
    assert(crate::bencode::spec_decode_pairs(s, p8, acc4)
        == Ok::<(Seq<(Seq<u8>, crate::bencode::SpecValue)>, int), crate::bencode::DecodeError>(
        (acc4, p8 + 1),
    ));
    assert(crate::bencode::spec_decode_pairs(s, p6, acc3)
        == crate::bencode::spec_decode_pairs(s, p8, acc4));
    assert(crate::bencode::spec_decode_pairs(s, p4, acc2)
        == crate::bencode::spec_decode_pairs(s, p6, acc3));
    assert(crate::bencode::spec_decode_pairs(s, p2, acc1)
        == crate::bencode::spec_decode_pairs(s, p4, acc2));
    assert(crate::bencode::spec_decode_pairs(s, p0, acc0)
        == crate::bencode::spec_decode_pairs(s, p2, acc1));
    assert(crate::bencode::spec_decode(s, 0) == Ok::<
        (crate::bencode::SpecValue, int),
        crate::bencode::DecodeError,
    >((crate::bencode::SpecValue::Dict(acc4), p8 + 1)));
    assert(crate::bencode::SpecValue::Dict(acc4) =~= info_dict_value(
        length,
        name,
        piece_length,
        pieces,
    ));
}

/// Law: the info-hash is a pure function of the four info fields — two
/// metadata records whose `length`, `name`, `piece_length` and `pieces`
/// agree have the same 20-byte info-hash.
pub proof fn lemma_info_hash_deterministic(a: Torrent, b: Torrent)
    requires
        a.info.length == b.info.length,
        a.info.name@ == b.info.name@,
        a.info.piece_length == b.info.piece_length,
        a.info.pieces@ == b.info.pieces@,
    ensures
        sha1_of(
            spec_encode_info(
                a.info.length as nat,
                a.info.name@,
                a.info.piece_length as nat,
                a.info.pieces@,
            ),
        ) == sha1_of(
            spec_encode_info(
                b.info.length as nat,
                b.info.name@,
                b.info.piece_length as nat,
                b.info.pieces@,
            ),
        ),
{
}

impl Info {
    /// Serializes this record canonically; total, with no failure path.
    pub fn encode(&self) -> (r: Vec<u8>)
        ensures
            r@ == spec_encode_info(
                self.length as nat,
                self.name@,
                self.piece_length as nat,
                self.pieces@,
            ),
    {
        let k_length: [u8; 6] = [0x6c, 0x65, 0x6e, 0x67, 0x74, 0x68];
        let k_name: [u8; 4] = [0x6e, 0x61, 0x6d, 0x65];
        let k_piece_length: [u8; 12] = [
            0x70, 0x69, 0x65, 0x63, 0x65, 0x20, 0x6c, 0x65, 0x6e, 0x67, 0x74, 0x68,
        ];
        let k_pieces: [u8; 6] = [0x70, 0x69, 0x65, 0x63, 0x65, 0x73];
        proof {
            assert(k_length@ =~= key_length());
            assert(k_name@ =~= key_name());
            assert(k_piece_length@ =~= key_piece_length());
            assert(k_pieces@ =~= key_pieces());
        }
        let mut out: Vec<u8> = Vec::new();
        out.push(0x64);
        crate::bencode::push_encoded_bytes(&mut out, k_length.as_slice());
        crate::bencode::push_encoded_uint(&mut out, self.length as u64);
        crate::bencode::push_encoded_bytes(&mut out, k_name.as_slice());
        crate::bencode::push_encoded_bytes(&mut out, self.name.as_slice());
        crate::bencode::push_encoded_bytes(&mut out, k_piece_length.as_slice());
        crate::bencode::push_encoded_uint(&mut out, self.piece_length as u64);
        crate::bencode::push_encoded_bytes(&mut out, k_pieces.as_slice());
        crate::bencode::push_encoded_bytes(&mut out, self.pieces.as_slice());
        out.push(0x65);
        proof {
            assert(out@ =~= spec_encode_info(
                self.length as nat,
                self.name@,
                self.piece_length as nat,
                self.pieces@,
            ));
        }
        out
    }
}

impl Info {
    /// Reads the typed info record out of a decoded value tree, checking
    /// the dictionary's `length`, `name`, `piece length` and `pieces`
    /// entries in key order; the error names the first entry that is
    /// missing or ill-typed.
    pub fn from_value(v: &Value) -> (r: Result<Info, InfoParseError>)
        ensures
            match r {
                Ok(info) => spec_info_from_value(value_view(*v)) == Ok::<
                    (int, Seq<u8>, int, Seq<u8>),
                    InfoParseError,
                >((info.length as int, info.name@, info.piece_length as int, info.pieces@)),
                Err(e) => spec_info_from_value(value_view(*v)) == Err::<
                    (int, Seq<u8>, int, Seq<u8>),
                    InfoParseError,
                >(e),
            },
    {
        let entries = match v {
            Value::Dictionary(entries) => entries,
            _ => {
                proof {
                    assert(!(value_view(*v) is Dict));
                }
                return Err(InfoParseError::NotADictionary);
            },
        };
        let k_length: [u8; 6] = [0x6c, 0x65, 0x6e, 0x67, 0x74, 0x68];
        let k_name: [u8; 4] = [0x6e, 0x61, 0x6d, 0x65];
        let k_piece_length: [u8; 12] = [
            0x70, 0x69, 0x65, 0x63, 0x65, 0x20, 0x6c, 0x65, 0x6e, 0x67, 0x74, 0x68,
        ];
        let k_pieces: [u8; 6] = [0x70, 0x69, 0x65, 0x63, 0x65, 0x73];
        proof {
            assert(k_length@ =~= key_length());
            assert(k_name@ =~= key_name());
            assert(k_piece_length@ =~= key_piece_length());
            assert(k_pieces@ =~= key_pieces());
        }
        let length: usize = match crate::bencode::dict_lookup(
            entries,
            &vstd::slice::slice_to_vec(k_length.as_slice()),
        ) {
            None => {
                return Err(InfoParseError::MissingLength);
            },
            Some(Value::Integer(n)) => {
                if *n < 0 || *n as u64 > usize::MAX as u64 {
                    return Err(InfoParseError::BadLength);
                }
                *n as usize
            },
            Some(other) => {
                proof {
                    assert(!(value_view(*other) is Int));
                }
                return Err(InfoParseError::BadLength);
            },
        };
        let name: Vec<u8> = match crate::bencode::dict_lookup(
            entries,
            &vstd::slice::slice_to_vec(k_name.as_slice()),
        ) {
            None => {
                return Err(InfoParseError::MissingName);
            },
            Some(Value::ByteString(b)) => vstd::slice::slice_to_vec(b.as_slice()),
            Some(other) => {
                proof {
                    assert(!(value_view(*other) is Bytes));
                }
                return Err(InfoParseError::BadName);
            },
        };
        let piece_length: usize = match crate::bencode::dict_lookup(
            entries,
            &vstd::slice::slice_to_vec(k_piece_length.as_slice()),
        ) {
            None => {
                return Err(InfoParseError::MissingPieceLength);
            },
            Some(Value::Integer(n)) => {
                if *n < 0 || *n as u64 > usize::MAX as u64 {
                    return Err(InfoParseError::BadPieceLength);
                }
                *n as usize
            },
            Some(other) => {
                proof {
                    assert(!(value_view(*other) is Int));
                }
                return Err(InfoParseError::BadPieceLength);
            },
        };
        let pieces: Vec<u8> = match crate::bencode::dict_lookup(
            entries,
            &vstd::slice::slice_to_vec(k_pieces.as_slice()),
        ) {
            None => {
                return Err(InfoParseError::MissingPieces);
            },
            Some(Value::ByteString(b)) => vstd::slice::slice_to_vec(b.as_slice()),
            Some(other) => {
                proof {
                    assert(!(value_view(*other) is Bytes));
                }
                return Err(InfoParseError::BadPieces);
            },
        };
        Ok(Info { length, name, piece_length, pieces })
    }
}

impl Torrent {
    /// The torrent's content identifier: the SHA-1 digest of the canonical
    /// encoding of its info dictionary, returned verbatim.
    pub fn info_hash(&self) -> (r: [u8; 20])
        ensures
            r@ == sha1_of(
                spec_encode_info(
                    self.info.length as nat,
                    self.info.name@,
                    self.info.piece_length as nat,
                    self.info.pieces@,
                ),
            ),
    {
        let encoded = self.info.encode();
        sha1_digest(&encoded)
    }

    /// The hex text of each complete 20-byte piece digest, in order.
    pub fn pieces_hash(&self) -> (r: Vec<String>)
        ensures
            r@.len() == self.info.pieces@.len() / 20,
            forall|i: int|
                0 <= i < r@.len() ==> (#[trigger] r@[i])@ == hex_of(
                    self.info.pieces@.subrange(20 * i, 20 * i + 20),
                ),
    {
        let pieces = self.info.pieces.as_slice();
        let n = pieces.len() / 20;
        let mut r: Vec<String> = Vec::new();
        let mut i: usize = 0;
        while i < n
            invariant
                i <= n,
                pieces@ == self.info.pieces@,
                pieces@.len() <= usize::MAX,
                n == pieces@.len() / 20,
                r@.len() == i,
                forall|j: int|
                    0 <= j < i ==> (#[trigger] r@[j])@ == hex_of(
                        pieces@.subrange(20 * j, 20 * j + 20),
                    ),
            decreases n - i,
        {
            proof {
                vstd::arithmetic::div_mod::lemma_fundamental_div_mod(pieces@.len() as int, 20);
                assert(20 * (i as int) + 20 <= pieces@.len());
            }
            let chunk = vstd::slice::slice_subrange(pieces, 20 * i, 20 * i + 20);
            let chunk_vec = vstd::slice::slice_to_vec(chunk);
            let h = hex_encode(&chunk_vec);
            r.push(h);
            i = i + 1;
        }
        r
    }
}

/// Percent-encoded text of a byte sequence: each byte as `%` followed by
/// its two lowercase hex digits.
pub open spec fn urlencoded(s: Seq<u8>) -> Seq<char>
    decreases s.len(),
{
    if s.len() == 0 {
        Seq::empty()
    } else {
        urlencoded(s.drop_last()) + seq!['%'] + hex_of(seq![s.last()])
    }
}

/// Percent-encodes a 20-byte hash byte-for-byte for a tracker query, so
/// that arbitrary digest bytes never pass through a text-assuming encoder.
pub fn urlencode(t: &[u8; 20]) -> (r: String)
    ensures
        r@ == urlencoded(t@),
{
    let ts = t.as_slice();
    let mut r = String::new();
    let mut i: usize = 0;
    while i < 20
        invariant
            i <= 20,
            ts@ == t@,
            t@.len() == 20,
            r@ == urlencoded(t@.subrange(0, i as int)),
        decreases 20 - i,
    {
        proof {
            reveal_strlit("%");
        }
        r.append("%");
        let mut one: Vec<u8> = Vec::new();
        one.push(ts[i]);
        let h = hex_encode(&one);
        r.append(h.as_str());
        proof {
            assert(one@ =~= seq![t@[i as int]]);
            assert(t@.subrange(0, i + 1).drop_last() =~= t@.subrange(0, i as int));
            assert(t@.subrange(0, i + 1).last() == t@[i as int]);
            assert(r@ =~= urlencoded(t@.subrange(0, i + 1)));
        }
        i = i + 1;
    }
    proof {
        assert(t@.subrange(0, 20) =~= t@);
    }
    r
}

} // verus!
