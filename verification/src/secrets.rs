//! Tokens that a server issues and checks without keeping state.

use vstd::prelude::*;

use crate::frame::decode::array16;
use crate::frame::put_bytes;
use crate::packet::{ConnectionId, ConnectionIdRef, MAX_CONNECTION_ID_LEN};
use crate::primitives::{constant_time_eq, hmac_sha256, hmac_sha256_of, MAX_HASH_INPUT};
use crate::wire::{
    be_bytes, be_value, get_be, law_be_round_trip, lemma_be_bytes_len, pow256, put_be, same_bytes,
};

verus! {

/// The address of a peer.
#[allow(inconsistent_fields)]
#[derive(Debug, Clone, Copy, PartialEq, Eq)]
pub enum PeerAddress {
    V4 { ip: [u8; 4], port: u16 },
    V6 { ip: [u8; 16], port: u16, flowinfo: u32, scope_id: u32 },
}

impl PeerAddress {
    /// The bytes that stand for an address in a token.
    pub open spec fn token_bytes(self) -> Seq<u8> {
        match self {
            PeerAddress::V4 { ip, port } => seq![4u8] + ip@ + be_bytes(port as nat, 2),
            PeerAddress::V6 { ip, port, .. } => seq![6u8] + ip@ + be_bytes(port as nat, 2),
        }
    }

    /// Appends the bytes that stand for the address in a token.
    pub fn put_token_bytes(&self, out: &mut Vec<u8>)
        ensures
            final(out)@ == old(out)@ + self.token_bytes(),
            self.token_bytes().len() <= 19,
    {
        proof {
            lemma_be_bytes_len(
                match *self {
                    PeerAddress::V4 { port, .. } => port as nat,
                    PeerAddress::V6 { port, .. } => port as nat,
                },
                2,
            );
        }
        match self {
            PeerAddress::V4 { ip, port } => {
                out.push(4);
                put_bytes(out, ip);
                put_be(out, *port as u64, 2);
            },
            PeerAddress::V6 { ip, port, .. } => {
                out.push(6);
                put_bytes(out, ip);
                put_be(out, *port as u64, 2);
            },
        }
        assert(out@ =~= old(out)@ + self.token_bytes());
    }

    /// Whether two addresses are the same.
    pub fn same(&self, other: &PeerAddress) -> (result: bool)
        ensures
            result == (*self == *other),
    {
        match (self, other) {
            (
                PeerAddress::V4 { ip, port },
                PeerAddress::V4 { ip: other_ip, port: other_port },
            ) => {
                let result = same_bytes(ip, other_ip) && *port == *other_port;
                assert(ip@ == other_ip@ ==> ip =~= other_ip);
                result
            },
            (
                PeerAddress::V6 { ip, port, flowinfo, scope_id },
                PeerAddress::V6 { ip: other_ip, port: other_port, flowinfo: flow, scope_id: scope },
            ) => {
                let result = same_bytes(ip, other_ip) && *port == *other_port && *flowinfo == *flow
                    && *scope_id == *scope;
                assert(ip@ == other_ip@ ==> ip =~= other_ip);
                result
            },
            _ => false,
        }
    }
}

/// Binds a stateless reset token to the key.
pub const RESET_LABEL: [u8; 4] = [0x71, 0x73, 0x72, 0x74];

/// Binds a retry token to the key.
pub const RETRY_LABEL: [u8; 9] = [0x71, 0x72, 0x65, 0x74, 0x72, 0x79, 0x74, 0x6f, 0x6b];

/// The key for stateless reset tokens.
#[derive(Clone, Copy)]
pub struct StatelessResetSecret {
    pub key: [u8; 32],
}

impl From<[u8; 32]> for StatelessResetSecret {
    fn from(key: [u8; 32]) -> (result: StatelessResetSecret) {
        StatelessResetSecret { key }
    }
}

impl vstd::std_specs::convert::FromSpecImpl<[u8; 32]> for StatelessResetSecret {
    open spec fn obeys_from_spec() -> bool {
        true
    }

    open spec fn from_spec(key: [u8; 32]) -> StatelessResetSecret {
        StatelessResetSecret { key }
    }
}

impl StatelessResetSecret {
    /// The token of a connection ID.
    pub open spec fn token(self, cid: Seq<u8>) -> Seq<u8> {
        hmac_sha256_of(self.key@, RESET_LABEL@ + cid).subrange(0, 16)
    }

    pub fn token_for(&self, cid: &[u8]) -> (token: [u8; 16])
        requires
            cid@.len() + 4 <= MAX_HASH_INPUT,
        ensures
            token@ == self.token(cid@),
    {
        let mut data: Vec<u8> = Vec::new();
        put_bytes(&mut data, &RESET_LABEL);
        put_bytes(&mut data, cid);
        assert(data@ =~= RESET_LABEL@ + cid@);
        let tag = hmac_sha256(&self.key, &data);
        array16(vstd::slice::slice_subrange(tag.as_slice(), 0, 16))
    }
}

/// The key for retry tokens.
#[derive(Clone, Copy)]
pub struct RetryTokenSecret {
    pub key: [u8; 32],
}

impl From<[u8; 32]> for RetryTokenSecret {
    fn from(key: [u8; 32]) -> (result: RetryTokenSecret) {
        RetryTokenSecret { key }
    }
}

impl vstd::std_specs::convert::FromSpecImpl<[u8; 32]> for RetryTokenSecret {
    open spec fn obeys_from_spec() -> bool {
        true
    }

    open spec fn from_spec(key: [u8; 32]) -> RetryTokenSecret {
        RetryTokenSecret { key }
    }
}

/// The length of a retry token without the connection ID in it: an expiry
/// time, a length byte and a tag.
pub const RETRY_TOKEN_FIXED_LEN: usize = 25;

/// What the tag of a retry token is computed over.
pub open spec fn retry_tag_input(addr: Seq<u8>, odcid: Seq<u8>, expiry: u64) -> Seq<u8> {
    RETRY_LABEL@ + addr + be_bytes(expiry as nat, 8) + seq![odcid.len() as u8] + odcid
}

impl RetryTokenSecret {
    /// The tag of a retry token.
    pub open spec fn tag_of(self, addr: PeerAddress, odcid: Seq<u8>, expiry: u64) -> Seq<u8> {
        hmac_sha256_of(self.key@, retry_tag_input(addr.token_bytes(), odcid, expiry)).subrange(
            0,
            16,
        )
    }

    /// The token for an address and the connection ID that the client chose
    /// first, valid until the expiry time.
    pub open spec fn token(self, addr: PeerAddress, odcid: Seq<u8>, expiry: u64) -> Seq<u8> {
        be_bytes(expiry as nat, 8) + seq![odcid.len() as u8] + odcid + self.tag_of(
            addr,
            odcid,
            expiry,
        )
    }

    /// The connection ID in a token, where the token is one that was issued
    /// for the address and has not expired.
    pub open spec fn accepted(self, addr: PeerAddress, token: Seq<u8>, now: u64) -> Option<
        Seq<u8>,
    > {
        if token.len() < RETRY_TOKEN_FIXED_LEN {
            None
        } else {
            let expiry = be_value(token.subrange(0, 8)) as u64;
            let len = token[8] as int;
            if now >= expiry || len > MAX_CONNECTION_ID_LEN || token.len() != RETRY_TOKEN_FIXED_LEN
                + len {
                None
            } else {
                let odcid = token.subrange(9, 9 + len);
                if token.subrange(9 + len, token.len() as int) == self.tag_of(addr, odcid, expiry) {
                    Some(odcid)
                } else {
                    None
                }
            }
        }
    }

    /// The length of a token that holds the given connection ID.
    pub fn encoded_len(odcid: ConnectionIdRef<'_>) -> (len: usize)
        ensures
            len == RETRY_TOKEN_FIXED_LEN + odcid@.len(),
            len <= RETRY_TOKEN_FIXED_LEN + MAX_CONNECTION_ID_LEN,
    {
        RETRY_TOKEN_FIXED_LEN + odcid.len()
    }

    /// Appends a token, which is accepted from the same address until it
    /// expires, and from then on is not.
    pub fn issue_into(
        &self,
        out: &mut Vec<u8>,
        addr: &PeerAddress,
        odcid: ConnectionIdRef<'_>,
        expiry_unix_secs: u64,
    )
        ensures
            final(out)@ == old(out)@ + self.token(*addr, odcid@, expiry_unix_secs),
            self.token(*addr, odcid@, expiry_unix_secs).len() == RETRY_TOKEN_FIXED_LEN
                + odcid@.len(),
            forall|now: u64|
                #![trigger self.accepted(
                    *addr,
                    self.token(*addr, odcid@, expiry_unix_secs),
                    now,
                )]
                self.accepted(*addr, self.token(*addr, odcid@, expiry_unix_secs), now) == if now
                    < expiry_unix_secs {
                    Some(odcid@)
                } else {
                    None
                },
    {
        let odcid = odcid.into_slice();
        let tag = self.tag(addr, odcid, expiry_unix_secs);
        put_be(out, expiry_unix_secs, 8);
        out.push(odcid.len() as u8);
        put_bytes(out, odcid);
        put_bytes(out, &tag);
        proof {
            lemma_be_bytes_len(expiry_unix_secs as nat, 8);
            assert(tag@.len() == 16);
            assert forall|now: u64|
                #![trigger self.accepted(
                    *addr,
                    self.token(*addr, odcid@, expiry_unix_secs),
                    now,
                )]
                self.accepted(*addr, self.token(*addr, odcid@, expiry_unix_secs), now) == if now
                    < expiry_unix_secs {
                    Some(odcid@)
                } else {
                    None
                } by {
                self.lemma_issued_token_accepted(*addr, odcid@, expiry_unix_secs, now);
            }
        }
        assert(out@ =~= old(out)@ + self.token(*addr, odcid@, expiry_unix_secs));
    }

    /// The connection ID in a token that was issued for the address and has
    /// not expired.
    pub fn validate(&self, addr: &PeerAddress, token: &[u8], now_unix_secs: u64) -> (result: Option<
        ConnectionId,
    >)
        ensures
            match result {
                Some(cid) => self.accepted(*addr, token@, now_unix_secs) == Some(cid@),
                None => self.accepted(*addr, token@, now_unix_secs) is None,
            },
    {
        if token.len() < RETRY_TOKEN_FIXED_LEN {
            return None;
        }
        let expiry: u64 = get_be(vstd::slice::slice_subrange(token, 0, 8));
        if now_unix_secs >= expiry {
            return None;
        }
        let odcid_len: usize = token[8] as usize;
        if odcid_len > MAX_CONNECTION_ID_LEN {
            return None;
        }
        if token.len() != RETRY_TOKEN_FIXED_LEN + odcid_len {
            return None;
        }
        let odcid = vstd::slice::slice_subrange(token, 9, 9 + odcid_len);
        let provided_tag = vstd::slice::slice_subrange(token, 9 + odcid_len, token.len());
        let expected = self.tag(addr, odcid, expiry);
        if !constant_time_eq(provided_tag, &expected) {
            return None;
        }
        ConnectionId::new(odcid)
    }

    fn tag(&self, addr: &PeerAddress, odcid: &[u8], expiry: u64) -> (tag: [u8; 16])
        requires
            odcid@.len() <= MAX_CONNECTION_ID_LEN,
        ensures
            tag@ == self.tag_of(*addr, odcid@, expiry),
    {
        let mut data: Vec<u8> = Vec::new();
        put_bytes(&mut data, &RETRY_LABEL);
        addr.put_token_bytes(&mut data);
        put_be(&mut data, expiry, 8);
        data.push(odcid.len() as u8);
        put_bytes(&mut data, odcid);
        proof {
            lemma_be_bytes_len(expiry as nat, 8);
        }
        assert(data@ =~= retry_tag_input(addr.token_bytes(), odcid@, expiry));
        let tag = hmac_sha256(&self.key, &data);
        array16(vstd::slice::slice_subrange(tag.as_slice(), 0, 16))
    }

    proof fn lemma_issued_token_accepted(
        self,
        addr: PeerAddress,
        odcid: Seq<u8>,
        expiry: u64,
        now: u64,
    )
        requires
            odcid.len() <= MAX_CONNECTION_ID_LEN,
            self.tag_of(addr, odcid, expiry).len() == 16,
        ensures
            self.accepted(addr, self.token(addr, odcid, expiry), now) == if now < expiry {
                Some(odcid)
            } else {
                None
            },
    {
        let token = self.token(addr, odcid, expiry);
        let tag = self.tag_of(addr, odcid, expiry);
        reveal_with_fuel(pow256, 9);
        law_be_round_trip(expiry as nat, 8);
        assert(token.subrange(0, 8) =~= be_bytes(expiry as nat, 8));
        assert(token[8] == odcid.len());
        assert(token.subrange(9, 9 + odcid.len() as int) =~= odcid);
        assert(token.subrange(9 + odcid.len() as int, token.len() as int) =~= tag);
    }
}

/// The bytes of an address tell its kind, its digits and its port.
pub proof fn law_address_told_apart(a: PeerAddress, b: PeerAddress)
    requires
        a.token_bytes() == b.token_bytes(),
    ensures
        match (a, b) {
            (
                PeerAddress::V4 { ip, port },
                PeerAddress::V4 { ip: other_ip, port: other_port },
            ) => ip@ == other_ip@ && port == other_port,
            (
                PeerAddress::V6 { ip, port, .. },
                PeerAddress::V6 { ip: other_ip, port: other_port, .. },
            ) => ip@ == other_ip@ && port == other_port,
            _ => false,
        },
{
    reveal_with_fuel(pow256, 3);
    let s = a.token_bytes();
    let t = b.token_bytes();
    assert(s[0] == t[0]);
    match (a, b) {
        (PeerAddress::V4 { ip, port }, PeerAddress::V4 { ip: other_ip, port: other_port }) => {
            lemma_be_bytes_len(port as nat, 2);
            lemma_be_bytes_len(other_port as nat, 2);
            law_be_round_trip(port as nat, 2);
            law_be_round_trip(other_port as nat, 2);
            assert(s.subrange(1, 5) =~= ip@ && t.subrange(1, 5) =~= other_ip@);
            assert(s.skip(5) =~= be_bytes(port as nat, 2));
            assert(t.skip(5) =~= be_bytes(other_port as nat, 2));
        },
        (
            PeerAddress::V6 { ip, port, .. },
            PeerAddress::V6 { ip: other_ip, port: other_port, .. },
        ) => {
            lemma_be_bytes_len(port as nat, 2);
            lemma_be_bytes_len(other_port as nat, 2);
            law_be_round_trip(port as nat, 2);
            law_be_round_trip(other_port as nat, 2);
            assert(s.subrange(1, 17) =~= ip@ && t.subrange(1, 17) =~= other_ip@);
            assert(s.skip(17) =~= be_bytes(port as nat, 2));
            assert(t.skip(17) =~= be_bytes(other_port as nat, 2));
        },
        _ => {},
    }
}

/// The tag of a retry token covers the address, the time and the connection ID: where one of
/// them differs, so does what the tag is made of.
pub proof fn law_tag_covers_all(
    a: PeerAddress,
    odcid: Seq<u8>,
    expiry: u64,
    b: PeerAddress,
    other_odcid: Seq<u8>,
    other_expiry: u64,
)
    requires
        odcid.len() <= 20,
        other_odcid.len() <= 20,
        retry_tag_input(a.token_bytes(), odcid, expiry) == retry_tag_input(
            b.token_bytes(),
            other_odcid,
            other_expiry,
        ),
    ensures
        a.token_bytes() == b.token_bytes(),
        odcid == other_odcid,
        expiry == other_expiry,
{
    reveal_with_fuel(pow256, 9);
    let s = retry_tag_input(a.token_bytes(), odcid, expiry);
    let t = retry_tag_input(b.token_bytes(), other_odcid, other_expiry);
    let n = a.token_bytes().len() as int;
    let port = match a {
        PeerAddress::V4 { port, .. } => port,
        PeerAddress::V6 { port, .. } => port,
    };
    let other_port = match b {
        PeerAddress::V4 { port, .. } => port,
        PeerAddress::V6 { port, .. } => port,
    };
    lemma_be_bytes_len(port as nat, 2);
    lemma_be_bytes_len(other_port as nat, 2);
    lemma_be_bytes_len(expiry as nat, 8);
    lemma_be_bytes_len(other_expiry as nat, 8);
    assert(s[9] == a.token_bytes()[0] && t[9] == b.token_bytes()[0]);
    assert(n == b.token_bytes().len());
    assert(s.subrange(9, 9 + n) =~= a.token_bytes() && t.subrange(9, 9 + n) =~= b.token_bytes());
    assert(s.subrange(9 + n, 17 + n) =~= be_bytes(expiry as nat, 8));
    assert(t.subrange(9 + n, 17 + n) =~= be_bytes(other_expiry as nat, 8));
    law_be_round_trip(expiry as nat, 8);
    law_be_round_trip(other_expiry as nat, 8);
    assert(s.skip(18 + n) =~= odcid && t.skip(18 + n) =~= other_odcid);
}

/// A token is accepted exactly where it is the one that is issued for the address and for the
/// connection ID in it, until the time that its first eight bytes tell.
pub proof fn law_only_issued_accepted(
    secret: RetryTokenSecret,
    addr: PeerAddress,
    token: Seq<u8>,
    now: u64,
    odcid: Seq<u8>,
)
    ensures
        secret.accepted(addr, token, now) == Some(odcid) ==> {
            let expiry = be_value(token.take(8)) as u64;
            &&& now < expiry
            &&& odcid.len() <= 20
            &&& token == secret.token(addr, odcid, expiry)
        },
{
    if secret.accepted(addr, token, now) == Some(odcid) {
        let len = odcid.len() as int;
        let first = token.subrange(0, 8);
        assert(token.take(8) =~= first);
        crate::wire::lemma_be_value_bound(first);
        reveal_with_fuel(pow256, 9);
        crate::wire::lemma_be_unique(first);
        assert(token =~= secret.token(addr, odcid, be_value(first) as u64));
    }
}

/// A stateless reset token is the first half of a keyed hash of its label and the connection
/// ID, and a retry tag that of another label: neither stands for the other.
pub proof fn law_labels(reset: StatelessResetSecret, cid: Seq<u8>)
    ensures
        reset.token(cid) == hmac_sha256_of(
            reset.key@,
            seq![0x71u8, 0x73, 0x72, 0x74] + cid,
        ).take(16),
        RETRY_LABEL@ == seq![0x71u8, 0x72, 0x65, 0x74, 0x72, 0x79, 0x74, 0x6f, 0x6b],
        RESET_LABEL@[1] != RETRY_LABEL@[1],
{
    assert(RESET_LABEL@ =~= seq![0x71u8, 0x73, 0x72, 0x74]);
    assert(RETRY_LABEL@ =~= seq![0x71u8, 0x72, 0x65, 0x74, 0x72, 0x79, 0x74, 0x6f, 0x6b]);
    let tag = hmac_sha256_of(reset.key@, RESET_LABEL@ + cid);
    assert(tag.subrange(0, 16) == tag.take(16));
}

} // verus!
