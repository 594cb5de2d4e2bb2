//! The compact peer-list codec and the 68-byte handshake frame.

use vstd::prelude::*;
use vstd::string::StringExecFns;

verus! {

/// One peer, as the compact tracker format describes it: an IPv4 address
/// held as its four big-endian octets, and a port.
#[derive(Debug, PartialEq, Eq)]
pub struct Peer {
    pub ip: [u8; 4],
    pub port: u16,
}

/// An ordered list of peers decoded from a compact peer block.
#[derive(Debug, PartialEq, Eq)]
pub struct Peers(pub Vec<Peer>);

/// Why a compact peer block failed to decode.
#[derive(Debug, Clone, Copy, PartialEq, Eq, Structural)]
pub enum PeerParseError {
    /// The block's byte count is not a multiple of 6.
    InvalidLength,
}

impl Peer {
    /// The peer as display text: the four address octets in decimal joined
    /// by dots, a colon, then the port in decimal.
    pub fn to_string(&self) -> (r: String)
        ensures
            r@ == crate::digits::dec_chars(self.ip@[0] as nat) + seq!['.']
                + crate::digits::dec_chars(self.ip@[1] as nat) + seq!['.']
                + crate::digits::dec_chars(self.ip@[2] as nat) + seq!['.']
                + crate::digits::dec_chars(self.ip@[3] as nat) + seq![':']
                + crate::digits::dec_chars(self.port as nat),
    {
        proof {
            reveal_strlit(".");
            reveal_strlit(":");
        }
        let mut r = String::new();
        crate::digits::push_dec_chars(&mut r, self.ip[0] as u64);
        r.append(".");
        crate::digits::push_dec_chars(&mut r, self.ip[1] as u64);
        r.append(".");
        crate::digits::push_dec_chars(&mut r, self.ip[2] as u64);
        r.append(".");
        crate::digits::push_dec_chars(&mut r, self.ip[3] as u64);
        r.append(":");
        crate::digits::push_dec_chars(&mut r, self.port as u64);
        proof {
            assert(r@ =~= crate::digits::dec_chars(self.ip@[0] as nat) + seq!['.']
                + crate::digits::dec_chars(self.ip@[1] as nat) + seq!['.']
                + crate::digits::dec_chars(self.ip@[2] as nat) + seq!['.']
                + crate::digits::dec_chars(self.ip@[3] as nat) + seq![':']
                + crate::digits::dec_chars(self.port as nat));
        }
        r
    }
}

impl Peers {
    /// Decodes a compact peer block. Fails exactly when the byte count is
    /// not a multiple of 6; otherwise each 6-byte chunk, in order, yields a
    /// peer: four address octets, then a big-endian 16-bit port.
    pub fn try_from(bytes: &[u8]) -> (r: Result<Peers, PeerParseError>)
        ensures
            r is Ok <==> bytes@.len() % 6 == 0,
            match r {
                Ok(peers) => {
                    &&& peers.0@.len() == bytes@.len() / 6
                    &&& forall|i: int|
                        0 <= i < peers.0@.len() ==> {
                            &&& (#[trigger] peers.0@[i]).ip@ == bytes@.subrange(6 * i, 6 * i + 4)
                            &&& peers.0@[i].port == bytes@[6 * i + 4] * 256 + bytes@[6 * i + 5]
                        }
                },
                Err(e) => e == PeerParseError::InvalidLength,
            },
    {
        if bytes.len() % 6 != 0 {
            return Err(PeerParseError::InvalidLength);
        }
        let n = bytes.len() / 6;
        let mut peers: Vec<Peer> = Vec::new();
        let mut i: usize = 0;
        while i < n
            invariant
                i <= n,
                bytes@.len() <= usize::MAX,
                bytes@.len() % 6 == 0,
                n == bytes@.len() / 6,
                peers@.len() == i,
                forall|j: int|
                    0 <= j < i ==> {
                        &&& (#[trigger] peers@[j]).ip@ == bytes@.subrange(6 * j, 6 * j + 4)
                        &&& peers@[j].port == bytes@[6 * j + 4] * 256 + bytes@[6 * j + 5]
                    },
            decreases n - i,
        {
            proof {
                vstd::arithmetic::div_mod::lemma_fundamental_div_mod(bytes@.len() as int, 6);
                assert(6 * (i as int) + 6 <= bytes@.len());
            }
            let base = 6 * i;
            let p = Peer {
                ip: [bytes[base], bytes[base + 1], bytes[base + 2], bytes[base + 3]],
                port: (bytes[base + 4] as u16) * 256 + (bytes[base + 5] as u16),
            };
            proof {
                assert(p.ip@ =~= bytes@.subrange(6 * (i as int), 6 * (i as int) + 4));
            }
            peers.push(p);
            i = i + 1;
        }
        Ok(Peers(peers))
    }
}

/// The 19 bytes of the ASCII text `BitTorrent protocol`.
pub open spec fn protocol_name_bytes() -> Seq<u8> {
    seq![
        0x42u8, 0x69, 0x74, 0x54, 0x6f, 0x72, 0x72, 0x65, 0x6e, 0x74, 0x20, 0x70, 0x72, 0x6f,
        0x74, 0x6f, 0x63, 0x6f, 0x6c,
    ]
}

/// Eight zero bytes: the handshake's reserved field.
pub open spec fn reserved_zero_bytes() -> Seq<u8> {
    seq![0u8, 0, 0, 0, 0, 0, 0, 0]
}

/// The 68-byte handshake frame for the given content and peer identity.
pub open spec fn spec_handshake_frame(info_hash: Seq<u8>, peer_id: Seq<u8>) -> Seq<u8> {
    seq![19u8] + protocol_name_bytes() + reserved_zero_bytes() + info_hash + peer_id
}

/// Law: a handshake whose constant fields are as `new` sets them encodes
/// to exactly the canonical 68-byte frame for its info-hash and peer id.
pub proof fn lemma_new_handshake_frame(h: Handshake)
    requires
        h.length == 19,
        h.magic_string@ == protocol_name_bytes(),
        h.reserved_bytes@ == reserved_zero_bytes(),
    ensures
        seq![h.length] + h.magic_string@ + h.reserved_bytes@ + h.info_hash@ + h.peer_id@
            == spec_handshake_frame(h.info_hash@, h.peer_id@),
{
}

/// The fixed-layout message each side sends first: a length-prefixed
/// protocol name, eight reserved bytes, the torrent's info-hash and the
/// sender's peer id.
pub struct Handshake {
    pub length: u8,
    pub magic_string: [u8; 19],
    pub reserved_bytes: [u8; 8],
    pub info_hash: [u8; 20],
    pub peer_id: [u8; 20],
}

impl Handshake {
    /// Builds a handshake for the given info-hash and peer id; the protocol
    /// name, its length byte and the zeroed reserved field are constants.
    pub fn new(info_hash: [u8; 20], peer_id: [u8; 20]) -> (r: Self)
        ensures
            r.length == 19,
            r.magic_string@ == protocol_name_bytes(),
            r.reserved_bytes@ == reserved_zero_bytes(),
            r.info_hash@ == info_hash@,
            r.peer_id@ == peer_id@,
    {
        let magic: [u8; 19] = [
            0x42, 0x69, 0x74, 0x54, 0x6f, 0x72, 0x72, 0x65, 0x6e, 0x74, 0x20, 0x70, 0x72, 0x6f,
            0x74, 0x6f, 0x63, 0x6f, 0x6c,
        ];
        let reserved: [u8; 8] = [0, 0, 0, 0, 0, 0, 0, 0];
        proof {
            assert(magic@ =~= protocol_name_bytes());
            assert(reserved@ =~= reserved_zero_bytes());
        }
        Handshake { length: 19, magic_string: magic, reserved_bytes: reserved, info_hash, peer_id }
    }

    /// Serializes the frame: 68 bytes, the five fields in order.
    pub fn encode(&self) -> (r: Vec<u8>)
        ensures
            r@ == seq![self.length] + self.magic_string@ + self.reserved_bytes@ + self.info_hash@
                + self.peer_id@,
            r@.len() == 68,
    {
        let mut buffer: Vec<u8> = Vec::new();
        buffer.push(self.length);
        crate::bytes::push_all(&mut buffer, self.magic_string.as_slice());
        crate::bytes::push_all(&mut buffer, self.reserved_bytes.as_slice());
        crate::bytes::push_all(&mut buffer, self.info_hash.as_slice());
        crate::bytes::push_all(&mut buffer, self.peer_id.as_slice());
        proof {
            assert(buffer@ =~= seq![self.length] + self.magic_string@ + self.reserved_bytes@
                + self.info_hash@ + self.peer_id@);
        }
        buffer
    }

    /// Reads an incoming frame: accepts exactly a 68-byte message whose
    /// length byte is 19 and whose protocol name matches, and returns its
    /// fields; the reserved bytes are taken as sent.
    pub fn decode(frame: &[u8]) -> (r: Option<Handshake>)
        ensures
            r is Some <==> frame@.len() == 68 && frame@[0] == 19
                && frame@.subrange(1, 20) == protocol_name_bytes(),
            match r {
                Some(h) => {
                    &&& h.length == 19
                    &&& h.magic_string@ == protocol_name_bytes()
                    &&& h.reserved_bytes@ == frame@.subrange(20, 28)
                    &&& h.info_hash@ == frame@.subrange(28, 48)
                    &&& h.peer_id@ == frame@.subrange(48, 68)
                },
                None => true,
            },
    {
        if frame.len() != 68 {
            proof {
                assert(!(frame@.len() == 68));
            }
            return None;
        }
        if frame[0] != 19 {
            return None;
        }
        let expected: [u8; 19] = [
            0x42, 0x69, 0x74, 0x54, 0x6f, 0x72, 0x72, 0x65, 0x6e, 0x74, 0x20, 0x70, 0x72, 0x6f,
            0x74, 0x6f, 0x63, 0x6f, 0x6c,
        ];
        proof {
            assert(expected@ =~= protocol_name_bytes());
        }
        let mut i: usize = 1;
        while i < 20
            invariant
                1 <= i <= 20,
                frame@.len() == 68,
                expected@ == protocol_name_bytes(),
                forall|j: int| 1 <= j < i ==> frame@[j] == protocol_name_bytes()[j - 1],
            decreases 20 - i,
        {
            if frame[i] != expected[i - 1] {
                proof {
                    assert(frame@.subrange(1, 20)[i - 1] != protocol_name_bytes()[i - 1]);
                }
                return None;
            }
            i = i + 1;
        }
        proof {
            assert(frame@.subrange(1, 20) =~= protocol_name_bytes());
        }
        let mut reserved: [u8; 8] = [0, 0, 0, 0, 0, 0, 0, 0];
        let mut j: usize = 0;
        while j < 8
            invariant
                j <= 8,
                frame@.len() == 68,
                forall|t: int| 0 <= t < j ==> reserved@[t] == frame@[20 + t],
            decreases 8 - j,
        {
            reserved[j] = frame[20 + j];
            j = j + 1;
        }
        let mut info_hash: [u8; 20] = [
            0, 0, 0, 0, 0, 0, 0, 0, 0, 0, 0, 0, 0, 0, 0, 0, 0, 0, 0, 0,
        ];
        let mut k: usize = 0;
        while k < 20
            invariant
                k <= 20,
                frame@.len() == 68,
                forall|t: int| 0 <= t < k ==> info_hash@[t] == frame@[28 + t],
            decreases 20 - k,
        {
            info_hash[k] = frame[28 + k];
            k = k + 1;
        }
        let mut peer_id: [u8; 20] = [
            0, 0, 0, 0, 0, 0, 0, 0, 0, 0, 0, 0, 0, 0, 0, 0, 0, 0, 0, 0,
        ];
        let mut m: usize = 0;
        while m < 20
            invariant
                m <= 20,
                frame@.len() == 68,
                forall|t: int| 0 <= t < m ==> peer_id@[t] == frame@[48 + t],
            decreases 20 - m,
        {
            peer_id[m] = frame[48 + m];
            m = m + 1;
        }
        proof {
            assert(reserved@ =~= frame@.subrange(20, 28));
            assert(info_hash@ =~= frame@.subrange(28, 48));
            assert(peer_id@ =~= frame@.subrange(48, 68));
        }
        Some(Handshake { length: 19, magic_string: expected, reserved_bytes: reserved, info_hash, peer_id })
    }
}

} // verus!
