//! Encryption of packets and protection of their headers.

use vstd::prelude::*;

use crate::frame::put_bytes;
use crate::hp::HeaderProtectionKey;
use crate::primitives::{
    aead_key_is_accepted, aead_open, aead_opened, aead_seal, aead_sealed, hp_mask,
};
use crate::qkdf::PacketKeys;
use crate::varint::MAX_VARINT;
use crate::wire::{be_bytes, be_value, lemma_be_value_bound, lemma_low_bytes, pow256};

verus! {

#[derive(Debug, Clone, Copy, PartialEq, Eq, Structural)]
pub enum CryptoFailure {
    InvalidKey,
    Encrypt,
    InvalidPacket,
    Decrypt,
    HeaderProtection,
}

impl CryptoFailure {
    /// A description for people.
    pub fn message(self) -> (text: &'static str)
        ensures
            text@ == (match self {
                CryptoFailure::InvalidKey => "invalid packet protection key"@,
                CryptoFailure::Encrypt => "packet encryption failed"@,
                CryptoFailure::InvalidPacket => "invalid protected packet"@,
                CryptoFailure::Decrypt => "packet decryption failed"@,
                CryptoFailure::HeaderProtection => "header protection failed"@,
            }),
    {
        match self {
            CryptoFailure::InvalidKey => "invalid packet protection key",
            CryptoFailure::Encrypt => "packet encryption failed",
            CryptoFailure::InvalidPacket => "invalid protected packet",
            CryptoFailure::Decrypt => "packet decryption failed",
            CryptoFailure::HeaderProtection => "header protection failed",
        }
    }
}

/// The bits of the first byte that are protected in a long header.
pub const LONG_HEADER_MASK: u8 = 0x0f;

/// The bits of the first byte that are protected in a short header.
pub const SHORT_HEADER_MASK: u8 = 0x1f;

/// The number of packet numbers that `len` bytes tell apart.
pub open spec fn pn_window(len: int) -> int {
    if len == 1 {
        0x100
    } else if len == 2 {
        0x1_0000
    } else if len == 3 {
        0x100_0000
    } else {
        0x1_0000_0000
    }
}

/// The packet number closest to the expected one among those that end in the
/// given bytes.
pub open spec fn full_packet_number(expected: u64, truncated: int, len: int) -> int {
    let window = pn_window(len);
    let half = window / 2;
    let candidate = expected - expected % (window as u64) + truncated;
    if candidate <= MAX_VARINT - window && candidate + half <= expected {
        candidate + window
    } else if candidate > expected + half && candidate >= window {
        candidate - window
    } else {
        candidate
    }
}

/// A packet whose first byte is combined with the mask.
pub open spec fn mask_first(packet: Seq<u8>, mask: [u8; 5], bits: u8) -> Seq<u8> {
    packet.update(0, packet[0] ^ (mask[0] & bits))
}

/// A packet whose packet number is combined with the mask.
pub open spec fn mask_number(packet: Seq<u8>, at: int, len: int, mask: [u8; 5]) -> Seq<u8> {
    Seq::new(
        packet.len(),
        |i: int|
            if at <= i < at + len {
                packet[i] ^ mask[1 + i - at]
            } else {
                packet[i]
            },
    )
}

/// Keys of one direction.
pub struct PacketProtection {
    keys: PacketKeys,
    hp: HeaderProtectionKey,
}

/// The length of the packet number that the first byte of an unprotected
/// header announces.
pub open spec fn pn_len_of(first: u8) -> int {
    first % 4 + 1
}

impl PacketProtection {
    #[verifier::type_invariant]
    spec fn one_header_key(self) -> bool {
        self.hp@ == self.keys.hp@
    }

    pub closed spec fn key(self) -> Seq<u8> {
        self.keys.key@
    }

    pub closed spec fn iv(self) -> Seq<u8> {
        self.keys.iv@
    }

    pub closed spec fn hp_key(self) -> Seq<u8> {
        self.keys.hp@
    }

    /// The protected packet of a header, which ends in `pn_len` bytes of the
    /// packet number at `pn_at` or further on, and a payload.
    pub open spec fn seals(
        self,
        header: Seq<u8>,
        payload: Seq<u8>,
        packet_number: u64,
        pn_at: int,
        pn_len: int,
        bits: u8,
    ) -> Result<Seq<u8>, CryptoFailure> {
        match aead_sealed(self.key(), self.iv(), packet_number, header, payload) {
            None => Err(CryptoFailure::Encrypt),
            Some((ciphertext, tag)) => {
                let packet = header + ciphertext + tag@;
                if pn_at + 20 > packet.len() {
                    Err(CryptoFailure::InvalidPacket)
                } else {
                    match hp_mask(self.hp_key(), packet.subrange(pn_at + 4, pn_at + 20)) {
                        None => Err(CryptoFailure::HeaderProtection),
                        Some(mask) => Ok(
                            mask_number(mask_first(packet, mask, bits), pn_at, pn_len, mask),
                        ),
                    }
                }
            },
        }
    }

    /// The packet number and the payload of a protected packet.
    pub open spec fn opens(self, packet: Seq<u8>, pn_at: int, expected: u64, bits: u8) -> Result<
        (u64, Seq<u8>),
        CryptoFailure,
    > {
        if pn_at + 20 > packet.len() {
            Err(CryptoFailure::InvalidPacket)
        } else {
            match hp_mask(self.hp_key(), packet.subrange(pn_at + 4, pn_at + 20)) {
                None => Err(CryptoFailure::HeaderProtection),
                Some(mask) => {
                    let first = mask_first(packet, mask, bits);
                    let len = pn_len_of(first[0]);
                    let plain = mask_number(first, pn_at, len, mask);
                    let number = full_packet_number(
                        expected,
                        be_value(plain.subrange(pn_at, pn_at + len)) as int,
                        len,
                    ) as u64;
                    match aead_opened(
                        self.key(),
                        self.iv(),
                        number,
                        plain.subrange(0, pn_at + len),
                        packet.subrange(pn_at + len, packet.len() as int),
                    ) {
                        None => Err(CryptoFailure::Decrypt),
                        Some(payload) => Ok((number, payload)),
                    }
                },
            }
        }
    }

    /// A packet without the protection of its header, and where its payload begins.
    pub open spec fn bared(self, packet: Seq<u8>, pn_at: int, bits: u8) -> Option<(Seq<u8>, int)> {
        if pn_at + 20 > packet.len() {
            None
        } else {
            match hp_mask(self.hp_key(), packet.subrange(pn_at + 4, pn_at + 20)) {
                None => None,
                Some(mask) => {
                    let first = mask_first(packet, mask, bits);
                    let len = pn_len_of(first[0]);
                    Some((mask_number(first, pn_at, len, mask), pn_at + len))
                },
            }
        }
    }

    /// Whether a packet shows its header: it is as it was where its protection cannot be
    /// removed.
    pub open spec fn shows_header(
        self,
        before: Seq<u8>,
        after: Seq<u8>,
        pn_at: int,
        bits: u8,
    ) -> bool {
        match self.bared(before, pn_at, bits) {
            Some((plain, start)) => start <= after.len() && after.subrange(0, start)
                == plain.subrange(0, start),
            None => after == before,
        }
    }

    /// The packet number and the payload of a packet with a long header.
    pub open spec fn opens_long(self, packet: Seq<u8>, pn_at: int, expected: u64) -> Result<
        (u64, Seq<u8>),
        CryptoFailure,
    > {
        self.opens(packet, pn_at, expected, LONG_HEADER_MASK)
    }

    /// Whether a header announces and ends in the given packet number.
    pub open spec fn carries(header: Seq<u8>, packet_number: u64, pn_at: int, pn_len: int) -> bool {
        &&& 1 <= pn_len <= 4
        &&& 1 <= pn_at
        &&& header.len() == pn_at + pn_len
        &&& pn_len_of(header[0]) == pn_len
        &&& header.subrange(pn_at, pn_at + pn_len) == be_bytes(packet_number as nat, pn_len as nat)
    }

    /// Whether a packet number is within half a window of the expected one.
    pub open spec fn near(expected: u64, packet_number: u64, pn_len: int) -> bool {
        let half = pn_window(pn_len) / 2;
        packet_number <= MAX_VARINT && expected - half < packet_number <= expected + half
    }

    pub fn aes_128(keys: &PacketKeys) -> (result: Result<PacketProtection, CryptoFailure>)
        ensures
            result matches Ok(made) && made.key() == keys.key@ && made.iv() == keys.iv@
                && made.hp_key() == keys.hp@,
    {
        if !aead_key_is_accepted(&keys.key, keys.iv) {
            return Err(CryptoFailure::InvalidKey);
        }
        match HeaderProtectionKey::aes_128(&keys.hp) {
            Ok(hp) => Ok(
                PacketProtection {
                    keys: PacketKeys { key: keys.key, iv: keys.iv, hp: keys.hp },
                    hp,
                },
            ),
            Err(_) => Err(CryptoFailure::InvalidKey),
        }
    }

    /// As `encrypt_long_into`, into a buffer of its own.
    pub fn encrypt_long(
        &self,
        header_with_pn: &[u8],
        payload: &[u8],
        packet_number: u64,
        pn_offset: usize,
        pn_len: usize,
    ) -> (result: Result<Vec<u8>, CryptoFailure>)
        ensures
            self.sealed_as(
                match result {
                    Ok(packet) => Ok(packet@),
                    Err(error) => Err(error),
                },
                header_with_pn@,
                payload@,
                packet_number,
                pn_offset as int,
                pn_len as int,
                LONG_HEADER_MASK,
            ),
    {
        let mut buf: Vec<u8> = Vec::new();
        self.encrypt_long_into(&mut buf, header_with_pn, payload, packet_number, pn_offset, pn_len)?;
        assert(buf@.subrange(0, buf@.len() as int) =~= buf@);
        Ok(buf)
    }

    /// Whether a result is that of protecting a header and a payload: packet
    /// number lengths and positions that the header cannot hold are rejected.
    pub open spec fn sealed_as(
        self,
        result: Result<Seq<u8>, CryptoFailure>,
        header: Seq<u8>,
        payload: Seq<u8>,
        packet_number: u64,
        pn_at: int,
        pn_len: int,
        bits: u8,
    ) -> bool {
        result == if Self::misplaced(header, pn_at, pn_len) {
            Err(CryptoFailure::InvalidPacket)
        } else {
            self.seals(header, payload, packet_number, pn_at, pn_len, bits)
        }
    }

    /// Whether the header cannot hold a packet number there.
    pub open spec fn misplaced(header: Seq<u8>, pn_at: int, pn_len: int) -> bool {
        pn_len == 0 || pn_len > 4 || pn_at + pn_len > header.len()
    }

    /// Whether this is what stands in the place of a packet that could not be
    /// protected: the header and as many bytes as the payload has where it could not be
    /// encrypted, and the encrypted packet where its header could not be protected.
    pub open spec fn left_behind(
        self,
        header: Seq<u8>,
        payload: Seq<u8>,
        packet_number: u64,
        written: Seq<u8>,
    ) -> bool {
        match aead_sealed(self.key(), self.iv(), packet_number, header, payload) {
            None => {
                &&& written.len() == header.len() + payload.len()
                &&& written.subrange(0, header.len() as int) == header
            },
            Some((ciphertext, tag)) => written == header + ciphertext + tag@,
        }
    }

    /// Appends a protected packet with a long header; returns its length, which is that of
    /// header and payload and 16 bytes of a tag.
    /// Where it fails, what was in the buffer before is still there, and nothing is
    /// added where the header cannot hold the packet number.
    pub fn encrypt_long_into(
        &self,
        dst: &mut Vec<u8>,
        header_with_pn: &[u8],
        payload: &[u8],
        packet_number: u64,
        pn_offset: usize,
        pn_len: usize,
    ) -> (result: Result<usize, CryptoFailure>)
        ensures
            old(dst)@.len() <= final(dst)@.len(),
            final(dst)@.subrange(0, old(dst)@.len() as int) == old(dst)@,
            self.sealed_as(
                match result {
                    Ok(_) => Ok(
                        final(dst)@.subrange(old(dst)@.len() as int, final(dst)@.len() as int),
                    ),
                    Err(error) => Err(error),
                },
                header_with_pn@,
                payload@,
                packet_number,
                pn_offset as int,
                pn_len as int,
                LONG_HEADER_MASK,
            ),
            result matches Ok(n) ==> n == final(dst)@.len() - old(dst)@.len() && n
                == header_with_pn@.len() + payload@.len() + 16,
            result is Err ==> if Self::misplaced(
                header_with_pn@,
                pn_offset as int,
                pn_len as int,
            ) {
                final(dst)@ == old(dst)@
            } else {
                self.left_behind(
                    header_with_pn@,
                    payload@,
                    packet_number,
                    final(dst)@.subrange(old(dst)@.len() as int, final(dst)@.len() as int),
                )
            },
    {
        self.encrypt_into(
            dst,
            header_with_pn,
            payload,
            packet_number,
            pn_offset,
            pn_len,
            LONG_HEADER_MASK,
        )
    }

    /// As `encrypt_short_into`, into a buffer of its own.
    pub fn encrypt_short(
        &self,
        header_with_pn: &[u8],
        payload: &[u8],
        packet_number: u64,
        pn_offset: usize,
        pn_len: usize,
    ) -> (result: Result<Vec<u8>, CryptoFailure>)
        ensures
            self.sealed_as(
                match result {
                    Ok(packet) => Ok(packet@),
                    Err(error) => Err(error),
                },
                header_with_pn@,
                payload@,
                packet_number,
                pn_offset as int,
                pn_len as int,
                SHORT_HEADER_MASK,
            ),
    {
        let mut buf: Vec<u8> = Vec::new();
        self.encrypt_short_into(
            &mut buf,
            header_with_pn,
            payload,
            packet_number,
            pn_offset,
            pn_len,
        )?;
        assert(buf@.subrange(0, buf@.len() as int) =~= buf@);
        Ok(buf)
    }

    /// Appends a protected packet with a short header; returns its length, which is that of
    /// header and payload and 16 bytes of a tag.
    /// Where it fails, what was in the buffer before is still there, and nothing is
    /// added where the header cannot hold the packet number.
    pub fn encrypt_short_into(
        &self,
        dst: &mut Vec<u8>,
        header_with_pn: &[u8],
        payload: &[u8],
        packet_number: u64,
        pn_offset: usize,
        pn_len: usize,
    ) -> (result: Result<usize, CryptoFailure>)
        ensures
            old(dst)@.len() <= final(dst)@.len(),
            final(dst)@.subrange(0, old(dst)@.len() as int) == old(dst)@,
            self.sealed_as(
                match result {
                    Ok(_) => Ok(
                        final(dst)@.subrange(old(dst)@.len() as int, final(dst)@.len() as int),
                    ),
                    Err(error) => Err(error),
                },
                header_with_pn@,
                payload@,
                packet_number,
                pn_offset as int,
                pn_len as int,
                SHORT_HEADER_MASK,
            ),
            result matches Ok(n) ==> n == final(dst)@.len() - old(dst)@.len() && n
                == header_with_pn@.len() + payload@.len() + 16,
            result is Err ==> if Self::misplaced(
                header_with_pn@,
                pn_offset as int,
                pn_len as int,
            ) {
                final(dst)@ == old(dst)@
            } else {
                self.left_behind(
                    header_with_pn@,
                    payload@,
                    packet_number,
                    final(dst)@.subrange(old(dst)@.len() as int, final(dst)@.len() as int),
                )
            },
    {
        self.encrypt_into(
            dst,
            header_with_pn,
            payload,
            packet_number,
            pn_offset,
            pn_len,
            SHORT_HEADER_MASK,
        )
    }

    fn encrypt_into(
        &self,
        dst: &mut Vec<u8>,
        header_with_pn: &[u8],
        payload: &[u8],
        packet_number: u64,
        pn_offset: usize,
        pn_len: usize,
        first_byte_mask: u8,
    ) -> (result: Result<usize, CryptoFailure>)
        ensures
            old(dst)@.len() <= final(dst)@.len(),
            final(dst)@.subrange(0, old(dst)@.len() as int) == old(dst)@,
            self.sealed_as(
                match result {
                    Ok(_) => Ok(
                        final(dst)@.subrange(old(dst)@.len() as int, final(dst)@.len() as int),
                    ),
                    Err(error) => Err(error),
                },
                header_with_pn@,
                payload@,
                packet_number,
                pn_offset as int,
                pn_len as int,
                first_byte_mask,
            ),
            result matches Ok(n) ==> n == final(dst)@.len() - old(dst)@.len() && n
                == header_with_pn@.len() + payload@.len() + 16,
            result is Err ==> if Self::misplaced(
                header_with_pn@,
                pn_offset as int,
                pn_len as int,
            ) {
                final(dst)@ == old(dst)@
            } else {
                self.left_behind(
                    header_with_pn@,
                    payload@,
                    packet_number,
                    final(dst)@.subrange(old(dst)@.len() as int, final(dst)@.len() as int),
                )
            },
    {
        let start: usize = dst.len();
        let hdr_len: usize = header_with_pn.len();
        if pn_len == 0 || pn_len > 4 || hdr_len < pn_len || pn_offset > hdr_len - pn_len {
            assert(dst@.subrange(0, start as int) =~= old(dst)@);
            return Err(CryptoFailure::InvalidPacket);
        }
        put_bytes(dst, header_with_pn);
        put_bytes(dst, payload);
        assert(dst@.subrange(0, start as int) =~= old(dst)@);
        assert(dst@.subrange(start as int, start + hdr_len) =~= header_with_pn@);
        assert(dst@.subrange(start + hdr_len, dst@.len() as int) =~= payload@);
        let total: usize = dst.len();
        assert(total == start + hdr_len + payload@.len());
        self.protect(
            dst,
            start,
            start + hdr_len,
            packet_number,
            start + pn_offset,
            pn_len,
            first_byte_mask,
        )
    }

    /// Protects the packet that begins at `packet_start` and whose payload
    /// lies from `payload_start` to the end of the buffer.
    fn protect(
        &self,
        dst: &mut Vec<u8>,
        packet_start: usize,
        payload_start: usize,
        packet_number: u64,
        pn_offset: usize,
        pn_len: usize,
        first_byte_mask: u8,
    ) -> (result: Result<usize, CryptoFailure>)
        requires
            packet_start < payload_start <= old(dst)@.len(),
            packet_start <= pn_offset,
            pn_offset + pn_len <= payload_start,
            1 <= pn_len <= 4,
        ensures
            packet_start <= final(dst)@.len(),
            final(dst)@.subrange(0, packet_start as int) == old(dst)@.subrange(
                0,
                packet_start as int,
            ),
            (match result {
                Ok(_) => Ok(final(dst)@.subrange(packet_start as int, final(dst)@.len() as int)),
                Err(error) => Err(error),
            }) == self.seals(
                old(dst)@.subrange(packet_start as int, payload_start as int),
                old(dst)@.subrange(payload_start as int, old(dst)@.len() as int),
                packet_number,
                pn_offset - packet_start,
                pn_len as int,
                first_byte_mask,
            ),
            result matches Ok(n) ==> n == final(dst)@.len() - packet_start && n == old(dst)@.len()
                - packet_start + 16,
            old(dst)@.len() <= final(dst)@.len(),
            result is Err ==> self.left_behind(
                old(dst)@.subrange(packet_start as int, payload_start as int),
                old(dst)@.subrange(payload_start as int, old(dst)@.len() as int),
                packet_number,
                final(dst)@.subrange(packet_start as int, final(dst)@.len() as int),
            ),
    {
        proof {
            use_type_invariant(self);
        }
        let ghost before = dst@;
        let ghost start = packet_start as int;
        let header = vstd::slice::slice_to_vec(
            vstd::slice::slice_subrange(dst.as_slice(), packet_start, payload_start),
        );
        let tag = match aead_seal(
            &self.keys.key,
            self.keys.iv,
            packet_number,
            header.as_slice(),
            dst.as_mut_slice(),
            payload_start,
        ) {
            Some(tag) => tag,
            None => {
                assert(dst@.subrange(0, start) =~= dst@.subrange(0, payload_start as int).subrange(
                    0,
                    start,
                ));
                assert(before.subrange(0, start) =~= before.subrange(
                    0,
                    payload_start as int,
                ).subrange(0, start));
                assert(dst@.subrange(start, dst@.len() as int).subrange(
                    0,
                    payload_start - start,
                ) =~= dst@.subrange(0, payload_start as int).subrange(
                    start,
                    payload_start as int,
                ));
                assert(before.subrange(start, payload_start as int) =~= before.subrange(
                    0,
                    payload_start as int,
                ).subrange(start, payload_start as int));
                return Err(CryptoFailure::Encrypt);
            },
        };
        let ghost ciphertext = dst@.subrange(payload_start as int, dst@.len() as int);
        put_bytes(dst, &tag);
        let ghost packet = header@ + ciphertext + tag@;
        proof {
            let kept = dst@.subrange(0, payload_start as int);
            assert(kept =~= before.subrange(0, payload_start as int));
            assert(dst@.subrange(start, dst@.len() as int) =~= packet) by {
                assert(dst@.subrange(start, payload_start as int) =~= kept.subrange(
                    start,
                    payload_start as int,
                ));
                assert(header@ =~= before.subrange(0, payload_start as int).subrange(
                    start,
                    payload_start as int,
                ));
            }
            assert(dst@.subrange(0, start) =~= kept.subrange(0, start));
            assert(before.subrange(0, start) =~= before.subrange(0, payload_start as int).subrange(
                0,
                start,
            ));
        }
        if dst.len() < 20 || pn_offset > dst.len() - 20 {
            return Err(CryptoFailure::InvalidPacket);
        }
        let sample = vstd::slice::slice_subrange(dst.as_slice(), pn_offset + 4, pn_offset + 20);
        let ghost at = pn_offset - packet_start;
        assert(sample@ =~= packet.subrange(at + 4, at + 20));
        let mask = match self.hp.mask(sample) {
            Ok(mask) => mask,
            Err(_) => {
                return Err(CryptoFailure::HeaderProtection);
            },
        };
        let ghost whole = dst@;
        let first: u8 = dst[packet_start] ^ (mask[0] & first_byte_mask);
        dst.set(packet_start, first);
        let ghost once = dst@;
        assert(once.subrange(start, once.len() as int) =~= mask_first(packet, mask, first_byte_mask));
        let mut index: usize = 0;
        while index < pn_len
            invariant
                index <= pn_len <= 4,
                pn_offset + pn_len <= dst.len(),
                dst@.len() == once.len(),
                forall|i: int|
                    0 <= i < once.len() ==> #[trigger] dst@[i] == if pn_offset <= i < pn_offset
                        + index {
                        once[i] ^ mask[1 + i - pn_offset]
                    } else {
                        once[i]
                    },
            decreases pn_len - index,
        {
            let byte: u8 = dst[pn_offset + index] ^ mask[1 + index];
            dst.set(pn_offset + index, byte);
            index += 1;
        }
        proof {
            let result = mask_number(
                mask_first(packet, mask, first_byte_mask),
                at,
                pn_len as int,
                mask,
            );
            assert forall|i: int| 0 <= i < result.len() implies #[trigger] dst@.subrange(
                start,
                dst@.len() as int,
            )[i] == result[i] by {
                assert(once.subrange(start, once.len() as int)[i] == once[start + i]);
            }
            assert(dst@.subrange(start, dst@.len() as int) =~= result);
            assert(dst@.subrange(0, start) =~= whole.subrange(0, start));
        }
        Ok(dst.len() - packet_start)
    }

    /// Protects a packet with a short header where it lies: from
    /// `packet_start`, its payload from `payload_start` to the end of the
    /// buffer. Returns the length of the packet. Where it fails, what was in
    /// front of the packet is still there.
    pub fn protect_short_in_place(
        &self,
        dst: &mut Vec<u8>,
        packet_start: usize,
        payload_start: usize,
        packet_number: u64,
        pn_offset: usize,
        pn_len: usize,
    ) -> (result: Result<usize, CryptoFailure>)
        ensures
            ({
                let misplaced = packet_start >= payload_start || payload_start > old(dst)@.len()
                    || pn_len == 0 || pn_len > 4 || pn_offset < packet_start || pn_offset + pn_len
                    > payload_start;
                if misplaced {
                    result == Err::<usize, CryptoFailure>(CryptoFailure::InvalidPacket)
                        && final(dst)@ == old(dst)@
                } else {
                    &&& packet_start <= final(dst)@.len()
                    &&& final(dst)@.subrange(0, packet_start as int) == old(dst)@.subrange(
                        0,
                        packet_start as int,
                    )
                    &&& (match result {
                        Ok(_) => Ok(
                            final(dst)@.subrange(packet_start as int, final(dst)@.len() as int),
                        ),
                        Err(error) => Err(error),
                    }) == self.seals(
                        old(dst)@.subrange(packet_start as int, payload_start as int),
                        old(dst)@.subrange(payload_start as int, old(dst)@.len() as int),
                        packet_number,
                        pn_offset - packet_start,
                        pn_len as int,
                        SHORT_HEADER_MASK,
                    )
                    &&& result matches Ok(n) ==> n == final(dst)@.len() - packet_start && n == old(
                        dst,
                    )@.len() - packet_start + 16
                    &&& result is Err ==> self.left_behind(
                        old(dst)@.subrange(packet_start as int, payload_start as int),
                        old(dst)@.subrange(payload_start as int, old(dst)@.len() as int),
                        packet_number,
                        final(dst)@.subrange(packet_start as int, final(dst)@.len() as int),
                    )
                }
            }),
    {
        if packet_start >= payload_start || payload_start > dst.len() || pn_len == 0 || pn_len > 4
            || pn_offset < packet_start || payload_start < pn_len || pn_offset > payload_start
            - pn_len {
            return Err(CryptoFailure::InvalidPacket);
        }
        self.protect(
            dst,
            packet_start,
            payload_start,
            packet_number,
            pn_offset,
            pn_len,
            SHORT_HEADER_MASK,
        )
    }

    /// As `decrypt_long_in_place` where nothing was received before; the
    /// payload as an owned value.
    pub fn decrypt_long(&self, protected: &mut [u8], pn_offset: usize) -> (result: Result<
        Vec<u8>,
        CryptoFailure,
    >)
        ensures
            final(protected)@.len() == old(protected)@.len(),
            self.shows_header(
                old(protected)@,
                final(protected)@,
                pn_offset as int,
                LONG_HEADER_MASK,
            ),
            match result {
                Ok(payload) => self.opens(old(protected)@, pn_offset as int, 0, LONG_HEADER_MASK)
                    matches Ok((_, p)) && p == payload@,
                Err(error) => self.opens(old(protected)@, pn_offset as int, 0, LONG_HEADER_MASK)
                    == Err::<(u64, Seq<u8>), CryptoFailure>(error),
            },
    {
        let (_, start, end) = self.decrypt_long_in_place(protected, pn_offset, 0)?;
        Ok(vstd::slice::slice_to_vec(vstd::slice::slice_subrange(protected, start, end)))
    }

    /// Removes the protection of a packet with a long header; returns its
    /// number and where its payload begins and ends. What was sealed comes
    /// back. What stands behind the payload, and behind the header where this
    /// fails, is left unsaid.
    pub fn decrypt_long_in_place(
        &self,
        protected: &mut [u8],
        pn_offset: usize,
        expected_packet_number: u64,
    ) -> (result: Result<(u64, usize, usize), CryptoFailure>)
        ensures
            final(protected)@.len() == old(protected)@.len(),
            self.opened_as(
                result,
                old(protected)@,
                final(protected)@,
                pn_offset as int,
                expected_packet_number,
                LONG_HEADER_MASK,
            ),
    {
        self.decrypt_in_place(protected, pn_offset, expected_packet_number, LONG_HEADER_MASK)
    }

    /// As `decrypt_short_in_place` where nothing was received before; the
    /// payload as an owned value.
    pub fn decrypt_short(&self, protected: &mut [u8], pn_offset: usize) -> (result: Result<
        Vec<u8>,
        CryptoFailure,
    >)
        ensures
            final(protected)@.len() == old(protected)@.len(),
            self.shows_header(
                old(protected)@,
                final(protected)@,
                pn_offset as int,
                SHORT_HEADER_MASK,
            ),
            match result {
                Ok(payload) => self.opens(old(protected)@, pn_offset as int, 0, SHORT_HEADER_MASK)
                    matches Ok((_, p)) && p == payload@,
                Err(error) => self.opens(old(protected)@, pn_offset as int, 0, SHORT_HEADER_MASK)
                    == Err::<(u64, Seq<u8>), CryptoFailure>(error),
            },
    {
        let (_, start, end) = self.decrypt_short_in_place(protected, pn_offset, 0)?;
        Ok(vstd::slice::slice_to_vec(vstd::slice::slice_subrange(protected, start, end)))
    }

    /// Removes the protection of a packet with a short header; returns its
    /// number and where its payload begins and ends. What was sealed comes
    /// back. What stands behind the payload, and behind the header where this
    /// fails, is left unsaid.
    pub fn decrypt_short_in_place(
        &self,
        protected: &mut [u8],
        pn_offset: usize,
        expected_packet_number: u64,
    ) -> (result: Result<(u64, usize, usize), CryptoFailure>)
        ensures
            final(protected)@.len() == old(protected)@.len(),
            self.opened_as(
                result,
                old(protected)@,
                final(protected)@,
                pn_offset as int,
                expected_packet_number,
                SHORT_HEADER_MASK,
            ),
    {
        self.decrypt_in_place(protected, pn_offset, expected_packet_number, SHORT_HEADER_MASK)
    }

    /// Whether a result is that of removing the protection of a packet, and
    /// gives back what was sealed.
    pub open spec fn opened_as(
        self,
        result: Result<(u64, usize, usize), CryptoFailure>,
        before: Seq<u8>,
        after: Seq<u8>,
        pn_at: int,
        expected: u64,
        bits: u8,
    ) -> bool {
        &&& match result {
            Ok((number, start, end)) => {
                &&& start <= end <= after.len()
                &&& self.bared(before, pn_at, bits) matches Some((_, from)) && start == from
                &&& self.opens(before, pn_at, expected, bits) == Ok::<
                    (u64, Seq<u8>),
                    CryptoFailure,
                >((number, after.subrange(start as int, end as int)))
            },
            Err(error) => self.opens(before, pn_at, expected, bits) == Err::<
                (u64, Seq<u8>),
                CryptoFailure,
            >(error),
        }
        &&& self.shows_header(before, after, pn_at, bits)
        &&& forall|header: Seq<u8>, payload: Seq<u8>, number: u64, pn_len: int|
            #![trigger self.seals(header, payload, number, pn_at, pn_len, bits)]
            self.seals(header, payload, number, pn_at, pn_len, bits) == Ok::<
                Seq<u8>,
                CryptoFailure,
            >(before) && Self::carries(header, number, pn_at, pn_len) && Self::near(
                expected,
                number,
                pn_len,
            ) ==> self.opens(before, pn_at, expected, bits) == Ok::<(u64, Seq<u8>), CryptoFailure>(
                (number, payload),
            )
    }

    fn decrypt_in_place(
        &self,
        protected: &mut [u8],
        pn_offset: usize,
        expected_packet_number: u64,
        first_byte_mask: u8,
    ) -> (result: Result<(u64, usize, usize), CryptoFailure>)
        ensures
            final(protected)@.len() == old(protected)@.len(),
            self.opened_as(
                result,
                old(protected)@,
                final(protected)@,
                pn_offset as int,
                expected_packet_number,
                first_byte_mask,
            ),
    {
        proof {
            use_type_invariant(self);
        }
        let ghost before = protected@;
        let ghost at = pn_offset as int;
        if protected.len() < 20 || pn_offset > protected.len() - 20 {
            proof {
                assert forall|header: Seq<u8>, payload: Seq<u8>, number: u64, pn_len: int|
                    #![trigger self.seals(header, payload, number, at, pn_len, first_byte_mask)]
                    self.seals(header, payload, number, at, pn_len, first_byte_mask) == Ok::<
                        Seq<u8>,
                        CryptoFailure,
                    >(before) implies at + 20 <= before.len() by {}
            }
            return Err(CryptoFailure::InvalidPacket);
        }
        let sample = vstd::slice::slice_subrange(protected, pn_offset + 4, pn_offset + 20);
        let mask = match self.hp.mask(sample) {
            Ok(mask) => mask,
            Err(_) => {
                proof {
                    self.lemma_unmask_all(before, at, expected_packet_number, first_byte_mask);
                }
                return Err(CryptoFailure::HeaderProtection);
            },
        };
        let first: u8 = protected[0] ^ (mask[0] & first_byte_mask);
        protected[0] = first;
        let ghost once = protected@;
        assert(once =~= mask_first(before, mask, first_byte_mask));
        let pn_len: usize = (first % 4 + 1) as usize;
        let mut truncated: u64 = 0;
        let mut index: usize = 0;
        assert(protected@.subrange(at, at) =~= Seq::<u8>::empty());
        proof {
            reveal_with_fuel(pow256, 5);
        }
        while index < pn_len
            invariant
                index <= pn_len <= 4,
                at == pn_offset,
                pn_offset + 20 <= once.len(),
                protected@.len() == once.len(),
                truncated == be_value(protected@.subrange(at, at + index)),
                forall|i: int|
                    0 <= i < once.len() ==> #[trigger] protected@[i] == if pn_offset <= i
                        < pn_offset + index {
                        once[i] ^ mask[1 + i - pn_offset]
                    } else {
                        once[i]
                    },
            decreases pn_len - index,
        {
            let byte: u8 = protected[pn_offset + index] ^ mask[1 + index];
            let ghost had = protected@.subrange(at, at + index);
            protected[pn_offset + index] = byte;
            proof {
                let next = protected@.subrange(at, at + index + 1);
                assert(next.drop_last() =~= had);
                lemma_be_value_bound(had);
                crate::wire::lemma_pow256_monotonic(index as nat, 3);
                assert(pow256(3) == 0x100_0000) by {
                    reveal_with_fuel(pow256, 5);
                }
            }
            truncated = truncated * 256 + byte as u64;
            index += 1;
        }
        let pn_end: usize = pn_offset + pn_len;
        let ghost plain = mask_number(once, at, pn_len as int, mask);
        assert(protected@ =~= plain);
        proof {
            let number_bytes = protected@.subrange(at, pn_end as int);
            lemma_be_value_bound(number_bytes);
            assert(pow256(number_bytes.len()) == pn_window(pn_len as int)) by {
                reveal_with_fuel(pow256, 5);
            }
        }
        let packet_number: u64 = decode_packet_number(expected_packet_number, truncated, pn_len);
        let header = vstd::slice::slice_to_vec(vstd::slice::slice_subrange(protected, 0, pn_end));
        assert(header@ =~= plain.subrange(0, pn_end as int));
        assert(protected@.subrange(pn_end as int, protected@.len() as int) =~= before.subrange(
            pn_end as int,
            before.len() as int,
        ));
        let opened = aead_open(
            &self.keys.key,
            self.keys.iv,
            packet_number,
            header.as_slice(),
            protected,
            pn_end,
        );
        proof {
            assert forall|h: Seq<u8>, payload: Seq<u8>, number: u64, len: int|
                #![trigger self.seals(h, payload, number, at, len, first_byte_mask)]
                self.seals(h, payload, number, at, len, first_byte_mask) == Ok::<
                    Seq<u8>,
                    CryptoFailure,
                >(before) && Self::carries(h, number, at, len) && Self::near(
                    expected_packet_number,
                    number,
                    len,
                ) implies self.opens(before, at, expected_packet_number, first_byte_mask) == Ok::<
                (u64, Seq<u8>),
                CryptoFailure,
            >((number, payload)) by {
                self.lemma_unmask(h, payload, number, at, len, first_byte_mask, before);
                law_packet_number_round_trip(expected_packet_number, number, len);
                assert(len == pn_len);
                assert(header@ == h);
                assert(packet_number == number);
                let (ciphertext, tag) = aead_sealed(
                    self.key(),
                    self.iv(),
                    number,
                    h,
                    payload,
                ).unwrap();
                assert(before.subrange(pn_end as int, before.len() as int) == ciphertext + tag@);
            }
        }
        assert(protected@.subrange(0, pn_end as int) =~= plain.subrange(0, pn_end as int));
        match opened {
            Some(len) => Ok((packet_number, pn_end, pn_end + len)),
            None => Err(CryptoFailure::Decrypt),
        }
    }

    /// A protected packet has a mask.
    proof fn lemma_unmask_all(self, packet: Seq<u8>, at: int, expected: u64, bits: u8)
        requires
            0 <= at,
            at + 20 <= packet.len(),
            hp_mask(self.hp_key(), packet.subrange(at + 4, at + 20)) is None,
        ensures
            forall|header: Seq<u8>, payload: Seq<u8>, number: u64, pn_len: int|
                #![trigger self.seals(header, payload, number, at, pn_len, bits)]
                Self::carries(header, number, at, pn_len) ==> self.seals(
                    header,
                    payload,
                    number,
                    at,
                    pn_len,
                    bits,
                ) != Ok::<Seq<u8>, CryptoFailure>(packet),
    {
        assert forall|header: Seq<u8>, payload: Seq<u8>, number: u64, pn_len: int|
            #![trigger self.seals(header, payload, number, at, pn_len, bits)]
            Self::carries(header, number, at, pn_len) implies self.seals(
            header,
            payload,
            number,
            at,
            pn_len,
            bits,
        ) != Ok::<Seq<u8>, CryptoFailure>(packet) by {
            if self.seals(header, payload, number, at, pn_len, bits) == Ok::<
                Seq<u8>,
                CryptoFailure,
            >(packet) {
                self.lemma_unmask(header, payload, number, at, pn_len, bits, packet);
            }
        }
    }

    /// Applying the mask of a protected packet gives the packet before header
    /// protection.
    proof fn lemma_unmask(
        self,
        header: Seq<u8>,
        payload: Seq<u8>,
        number: u64,
        at: int,
        len: int,
        bits: u8,
        packet: Seq<u8>,
    )
        requires
            self.seals(header, payload, number, at, len, bits) == Ok::<Seq<u8>, CryptoFailure>(
                packet,
            ),
            Self::carries(header, number, at, len),
        ensures
            at + 20 <= packet.len(),
            hp_mask(self.hp_key(), packet.subrange(at + 4, at + 20)) matches Some(mask) && {
                let first = mask_first(packet, mask, bits);
                &&& pn_len_of(first[0]) == len
                &&& mask_number(first, at, len, mask).subrange(0, at + len) == header
                &&& mask_number(first, at, len, mask).subrange(at, at + len) == be_bytes(
                    number as nat,
                    len as nat,
                )
                &&& aead_sealed(self.key(), self.iv(), number, header, payload) matches Some(
                    (ciphertext, tag),
                ) && packet.subrange(at + len, packet.len() as int) == ciphertext + tag@
            },
    {
        let (ciphertext, tag) = aead_sealed(
            self.key(),
            self.iv(),
            number,
            header,
            payload,
        ).unwrap();
        let plain = header + ciphertext + tag@;
        let mask = hp_mask(self.hp_key(), plain.subrange(at + 4, at + 20)).unwrap();
        let once = mask_first(plain, mask, bits);
        assert(packet.subrange(at + 4, at + 20) =~= plain.subrange(at + 4, at + 20));
        let first = mask_first(packet, mask, bits);
        lemma_xor_twice(plain[0], mask[0] & bits);
        assert(first[0] == plain[0]);
        let back = mask_number(first, at, len, mask);
        assert forall|i: int| 0 <= i < plain.len() implies back[i] == plain[i] by {
            if at <= i < at + len {
                lemma_xor_twice(plain[i], mask[1 + i - at]);
            }
        }
        assert(back =~= plain);
        assert(plain.subrange(0, at + len) =~= header);
        assert(plain.subrange(at, at + len) =~= header.subrange(at, at + len));
        assert(packet.subrange(at + len, packet.len() as int) =~= ciphertext + tag@);
    }
}

/// The full packet number for the low bytes that were received.
pub fn decode_packet_number(expected: u64, truncated: u64, encoded_len: usize) -> (result: u64)
    requires
        1 <= encoded_len <= 4,
        truncated < pn_window(encoded_len as int),
    ensures
        result == full_packet_number(expected, truncated as int, encoded_len as int),
{
    let window: u64 = if encoded_len == 1 {
        0x100
    } else if encoded_len == 2 {
        0x1_0000
    } else if encoded_len == 3 {
        0x100_0000
    } else {
        0x1_0000_0000
    };
    let half_window: u64 = window / 2;
    assert(expected - expected % window <= u64::MAX - (window - 1)) by {
        if encoded_len == 1 {
        } else if encoded_len == 2 {
        } else if encoded_len == 3 {
        } else {
        }
    }
    let candidate: u64 = expected - expected % window + truncated;
    if candidate <= MAX_VARINT - window && candidate.saturating_add(half_window) <= expected {
        candidate + window
    } else if candidate > expected.saturating_add(half_window) && candidate >= window {
        candidate - window
    } else {
        candidate
    }
}

proof fn lemma_xor_twice(a: u8, m: u8)
    ensures
        (a ^ m) ^ m == a,
{
    assert((a ^ m) ^ m == a) by (bit_vector);
}

/// The low bytes of a packet number that is within half a window of the
/// expected one are enough to tell it.
pub proof fn law_packet_number_round_trip(expected: u64, packet_number: u64, len: int)
    requires
        1 <= len <= 4,
        PacketProtection::near(expected, packet_number, len),
    ensures
        full_packet_number(
            expected,
            be_value(be_bytes(packet_number as nat, len as nat)) as int,
            len,
        ) == packet_number,
{
    lemma_low_bytes(packet_number as nat, len as nat);
    reveal_with_fuel(pow256, 5);
    let window = pn_window(len);
    let half = window / 2;
    assert(pow256(len as nat) == window);
    let e = expected as int;
    let p = packet_number as int;
    if len == 1 {
        let w = 0x100int;
        assert(e == w * (e / w) + e % w && p == w * (p / w) + p % w);
        assert(p / w == e / w || p / w == e / w + 1 || p / w == e / w - 1);
    } else if len == 2 {
        let w = 0x1_0000int;
        assert(e == w * (e / w) + e % w && p == w * (p / w) + p % w);
        assert(p / w == e / w || p / w == e / w + 1 || p / w == e / w - 1);
    } else if len == 3 {
        let w = 0x100_0000int;
        assert(e == w * (e / w) + e % w && p == w * (p / w) + p % w);
        assert(p / w == e / w || p / w == e / w + 1 || p / w == e / w - 1);
    } else {
        let w = 0x1_0000_0000int;
        assert(e == w * (e / w) + e % w && p == w * (p / w) + p % w);
        assert(p / w == e / w || p / w == e / w + 1 || p / w == e / w - 1);
    }
}

impl PacketProtection {
    /// A protected packet differs from header and ciphertext in the first byte and in the
    /// packet number only: the byte that comes k-th there is combined with byte k + 1 of the
    /// mask of the 16 bytes that begin four bytes behind the start of the packet number.
    pub proof fn law_header_protected(
        self,
        header: Seq<u8>,
        payload: Seq<u8>,
        packet_number: u64,
        pn_at: int,
        pn_len: int,
        bits: u8,
        packet: Seq<u8>,
    )
        requires
            1 <= pn_at,
            0 <= pn_len,
            self.sealed_as(Ok(packet), header, payload, packet_number, pn_at, pn_len, bits),
        ensures
            1 <= pn_len <= 4,
            pn_at + pn_len <= header.len(),
            aead_sealed(self.key(), self.iv(), packet_number, header, payload) matches Some(
                (ciphertext, tag),
            ) && {
                &&& packet.skip(header.len() as int) == ciphertext + tag@
                &&& packet.len() == header.len() + ciphertext.len() + 16
                &&& hp_mask(
                    self.hp_key(),
                    (header + ciphertext + tag@).subrange(pn_at + 4, pn_at + 20),
                ) matches Some(mask) && {
                    &&& packet[0] == header[0] ^ (mask[0] & bits)
                    &&& forall|k: int|
                        0 <= k < pn_len ==> #[trigger] packet[pn_at + k] == header[pn_at + k]
                            ^ mask[1 + k]
                    &&& forall|i: int|
                        0 < i < pn_at || pn_at + pn_len <= i < header.len()
                            ==> #[trigger] packet[i] == header[i]
                }
            },
    {
        let (ciphertext, tag) = aead_sealed(
            self.key(),
            self.iv(),
            packet_number,
            header,
            payload,
        ).unwrap();
        assert(packet.skip(header.len() as int) =~= ciphertext + tag@);
    }

    /// A packet is refused exactly where its header cannot hold a packet number of one to
    /// four bytes, or where it is too short to be sampled.
    pub proof fn law_protection_refused(
        self,
        header: Seq<u8>,
        payload: Seq<u8>,
        packet_number: u64,
        pn_at: int,
        pn_len: int,
        bits: u8,
    )
        requires
            0 <= pn_at,
            0 <= pn_len,
            aead_sealed(self.key(), self.iv(), packet_number, header, payload) is Some,
        ensures
            ({
                let (ciphertext, tag) = aead_sealed(
                    self.key(),
                    self.iv(),
                    packet_number,
                    header,
                    payload,
                )->0;
                self.sealed_as(
                    Err(CryptoFailure::InvalidPacket),
                    header,
                    payload,
                    packet_number,
                    pn_at,
                    pn_len,
                    bits,
                ) <==> pn_len < 1 || pn_len > 4 || header.len() < pn_at + pn_len || header.len()
                    + ciphertext.len() + 16 < pn_at + 4 + 16
            }),
    {
    }

    /// The low four bits of the first byte are protected in a long header, and the low five
    /// in a short one.
    pub proof fn law_protected_bits(first: u8, mask: u8)
        ensures
            (first ^ (mask & LONG_HEADER_MASK)) / 16 == first / 16,
            (first ^ (mask & SHORT_HEADER_MASK)) / 32 == first / 32,
            (first ^ (mask & LONG_HEADER_MASK)) % 16 == (first ^ mask) % 16,
            (first ^ (mask & SHORT_HEADER_MASK)) % 32 == (first ^ mask) % 32,
    {
        assert((first ^ (mask & 0x0fu8)) / 16 == first / 16) by (bit_vector);
        assert((first ^ (mask & 0x1fu8)) / 32 == first / 32) by (bit_vector);
        assert((first ^ (mask & 0x0fu8)) % 16 == (first ^ mask) % 16) by (bit_vector);
        assert((first ^ (mask & 0x1fu8)) % 32 == (first ^ mask) % 32) by (bit_vector);
    }

    /// A packet is opened with the header that stands below the mask, from which its number
    /// is told, and with all that follows that header.
    pub proof fn law_header_bared(self, packet: Seq<u8>, pn_at: int, expected: u64, bits: u8)
        requires
            1 <= pn_at,
        ensures
            match self.bared(packet, pn_at, bits) {
                Some((plain, start)) => {
                    &&& packet.len() >= pn_at + 4 + 16
                    &&& plain.len() == packet.len()
                    &&& start == pn_at + 1 + plain[0] % 4
                    &&& hp_mask(
                        self.hp_key(),
                        packet.subrange(pn_at + 4, pn_at + 20),
                    ) matches Some(mask) && {
                        &&& plain[0] == packet[0] ^ (mask[0] & bits)
                        &&& forall|k: int|
                            0 <= k < start - pn_at ==> #[trigger] plain[pn_at + k]
                                == packet[pn_at + k] ^ mask[1 + k]
                        &&& forall|i: int|
                            0 < i < pn_at || start <= i < packet.len() ==> #[trigger] plain[i]
                                == packet[i]
                    }
                    &&& match self.opens(packet, pn_at, expected, bits) {
                        Ok((number, payload)) => {
                            &&& aead_opened(
                                self.key(),
                                self.iv(),
                                number,
                                plain.take(start),
                                packet.skip(start),
                            ) == Some(payload)
                            &&& number == full_packet_number(
                                expected,
                                be_value(plain.subrange(pn_at, start)) as int,
                                start - pn_at,
                            ) as u64
                        },
                        Err(error) => error == CryptoFailure::Decrypt,
                    }
                },
                None => self.opens(packet, pn_at, expected, bits) is Err && self.opens(
                    packet,
                    pn_at,
                    expected,
                    bits,
                )->Err_0 == if packet.len() < pn_at + 4 + 16 {
                    CryptoFailure::InvalidPacket
                } else {
                    CryptoFailure::HeaderProtection
                },
            },
    {
        if let Some((plain, start)) = self.bared(packet, pn_at, bits) {
            assert(plain.take(start) =~= plain.subrange(0, start));
            assert(packet.skip(start) =~= packet.subrange(start, packet.len() as int));
        }
    }
}

/// A number that is told ends in the bytes that arrived, and lies less than one window from
/// the expected one; one that is more than half a window off has none that is nearer.
pub proof fn law_packet_number_ends(expected: u64, truncated: int, len: int, other: u64)
    requires
        1 <= len <= 4,
        0 <= truncated < pow256(len as nat),
        expected <= MAX_VARINT,
        other <= MAX_VARINT,
        other as int % pow256(len as nat) as int == truncated,
    ensures
        ({
            let number = full_packet_number(expected, truncated, len);
            let window = pow256(len as nat) as int;
            let off = if number < expected {
                expected - number
            } else {
                number - expected
            };
            let other_off = if other < expected {
                expected - other
            } else {
                other - expected
            };
            &&& number % window == truncated
            &&& off < window
            &&& off <= other_off
        }),
{
    reveal_with_fuel(pow256, 5);
    let e = expected as int;
    let p = other as int;
    assert(MAX_VARINT == 0x3fff_ffff_ffff_ffff);
    if len == 1 {
        lemma_nearest(e, p, truncated, 0x100);
    } else if len == 2 {
        lemma_nearest(e, p, truncated, 0x1_0000);
    } else if len == 3 {
        lemma_nearest(e, p, truncated, 0x100_0000);
    } else {
        lemma_nearest(e, p, truncated, 0x1_0000_0000);
    }
}

/// Of the numbers that end in some digits, none is nearer than those next to a number.
proof fn lemma_nearest(e: int, p: int, t: int, w: int)
    requires
        w == 0x100 || w == 0x1_0000 || w == 0x100_0000 || w == 0x1_0000_0000,
        0 <= t < w,
        0 <= e <= MAX_VARINT,
        0 <= p <= MAX_VARINT,
        p % w == t,
    ensures
        ({
            let c = e - e % w + t;
            &&& c % w == t && (c + w) % w == t && (c - w) % w == t
            &&& c - w < e < c + w
            &&& 0 <= c <= MAX_VARINT
            &&& p == c || p == c + w || p == c - w || p >= c + 2 * w || p <= c - 2 * w
        }),
{
    assert(MAX_VARINT == 0x3fff_ffff_ffff_ffff);
    let windows = if w == 0x100 {
        0x40_0000_0000_0000int
    } else if w == 0x1_0000 {
        0x4000_0000_0000int
    } else if w == 0x100_0000 {
        0x40_0000_0000int
    } else {
        0x4000_0000int
    };
    let q = e / w;
    let r = p / w;
    let c = w * q + t;
    vstd::arithmetic::div_mod::lemma_fundamental_div_mod(e, w);
    vstd::arithmetic::div_mod::lemma_fundamental_div_mod(p, w);
    assert(q * w == w * q) by (nonlinear_arith);
    assert((q + 1) * w == w * q + w && w * (q + 1) == w * q + w) by (nonlinear_arith);
    assert((q - 1) * w == w * q - w) by (nonlinear_arith);
    vstd::arithmetic::div_mod::lemma_fundamental_div_mod_converse(c, w, q, t);
    vstd::arithmetic::div_mod::lemma_fundamental_div_mod_converse(c + w, w, q + 1, t);
    vstd::arithmetic::div_mod::lemma_fundamental_div_mod_converse(c - w, w, q - 1, t);
    assert(w * windows == 0x4000_0000_0000_0000);
    assert(0 <= q < windows) by (nonlinear_arith)
        requires
            w > 0,
            w * q <= e,
            e < w * windows,
            e < w * q + w,
            e >= 0,
    ;
    assert(0 <= w * q && w * (q + 1) <= w * windows) by (nonlinear_arith)
        requires
            0 <= q < windows,
            w > 0,
    ;
    if r >= q + 2 {
        assert(w * r >= w * q + 2 * w) by (nonlinear_arith)
            requires
                r >= q + 2,
                w > 0,
        ;
    } else if r <= q - 2 {
        assert(w * r <= w * q - 2 * w) by (nonlinear_arith)
            requires
                r <= q - 2,
                w > 0,
        ;
    }
}

} // verus!
