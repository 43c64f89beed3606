//! The wire format of the pong reply: a peer's socket address echoed back
//! as bytes, and the reply the echo server sends for each ping.

use vstd::prelude::*;
use bytes::BufMut;

verus! {

/// `bytes::BytesMut`, the growable buffer a reply is written into.
#[verifier::external_type_specification]
#[verifier::external_body]
pub struct ExBytesMut(bytes::BytesMut);

/// `bytes::Bytes`, the frozen reply that is sent.
#[verifier::external_type_specification]
#[verifier::external_body]
pub struct ExBytes(bytes::Bytes);

/// The bytes a `bytes::BytesMut` holds, front to back.
pub uninterp spec fn bytes_mut_contents(b: bytes::BytesMut) -> Seq<u8>;

/// The bytes a `bytes::Bytes` holds, front to back.
pub uninterp spec fn bytes_contents(b: bytes::Bytes) -> Seq<u8>;

/// Calls `bytes::BytesMut::new`; claims the new buffer is empty.
#[verifier::external_body]
fn buf_new() -> (b: bytes::BytesMut)
    ensures
        bytes_mut_contents(b) == Seq::<u8>::empty(),
{
    bytes::BytesMut::new()
}

/// Calls `BufMut::put_u8` on a `BytesMut`; claims the byte is appended.
/// The buffer cannot grow past `isize::MAX` bytes, where the crate panics.
#[verifier::external_body]
fn buf_put_u8(b: &mut bytes::BytesMut, v: u8)
    requires
        bytes_mut_contents(*old(b)).len() + 1 <= isize::MAX,
    ensures
        bytes_mut_contents(*final(b)) == bytes_mut_contents(*old(b)).push(v),
{
    b.put_u8(v)
}

/// Calls `BufMut::put_slice` on a `BytesMut`; claims the slice is appended.
#[verifier::external_body]
fn buf_put_slice(b: &mut bytes::BytesMut, s: &[u8])
    requires
        bytes_mut_contents(*old(b)).len() + s@.len() <= isize::MAX,
    ensures
        bytes_mut_contents(*final(b)) == bytes_mut_contents(*old(b)) + s@,
{
    b.put_slice(s)
}

/// Calls `BufMut::put_u16` on a `BytesMut`; claims the value is appended in
/// big-endian order, high byte first.
#[verifier::external_body]
fn buf_put_u16(b: &mut bytes::BytesMut, v: u16)
    requires
        bytes_mut_contents(*old(b)).len() + 2 <= isize::MAX,
    ensures
        bytes_mut_contents(*final(b)) == bytes_mut_contents(*old(b)) + be16(v),
{
    b.put_u16(v)
}

/// Calls `bytes::BytesMut::freeze`; claims the frozen bytes are those written.
#[verifier::external_body]
fn buf_freeze(b: bytes::BytesMut) -> (r: bytes::Bytes)
    ensures
        bytes_contents(r) == bytes_mut_contents(b),
{
    b.freeze()
}

/// Reads a `bytes::Bytes` as a slice (its `Deref`); claims the slice holds its bytes.
#[verifier::external_body]
fn bytes_as_slice(b: &bytes::Bytes) -> (s: &[u8])
    ensures
        s@ == bytes_contents(*b),
{
    b.as_ref()
}

/// A socket address: an IPv4 or IPv6 address and a port.
#[derive(Clone, Copy, Debug, PartialEq, Eq)]
pub enum SockAddr {
    V4([u8; 4], u16),
    V6([u8; 16], u16),
}

/// The mathematical value of a socket address: the octets as a sequence.
pub enum AddrSpec {
    V4(Seq<u8>, u16),
    V6(Seq<u8>, u16),
}

impl View for SockAddr {
    type V = AddrSpec;

    open spec fn view(&self) -> AddrSpec {
        match self {
            SockAddr::V4(ip, port) => AddrSpec::V4(ip@, *port),
            SockAddr::V6(ip, port) => AddrSpec::V6(ip@, *port),
        }
    }
}

/// An address value that a `SockAddr` can hold: four or sixteen octets.
pub open spec fn addr_well_formed(a: AddrSpec) -> bool {
    match a {
        AddrSpec::V4(ip, _) => ip.len() == 4,
        AddrSpec::V6(ip, _) => ip.len() == 16,
    }
}

/// A port in network byte order.
pub open spec fn be16(v: u16) -> Seq<u8> {
    seq![(v / 256) as u8, (v % 256) as u8]
}

/// The port that two bytes in network byte order denote.
pub open spec fn port_of(hi: u8, lo: u8) -> u16 {
    (hi * 256 + lo) as u16
}

/// The echo encoding of an address: a family tag (0 for IPv4, 1 for IPv6),
/// the octets, then the port in network byte order.
pub open spec fn encode_addr(a: AddrSpec) -> Seq<u8> {
    match a {
        AddrSpec::V4(ip, port) => seq![0u8] + ip + be16(port),
        AddrSpec::V6(ip, port) => seq![1u8] + ip + be16(port),
    }
}

/// The address that bytes encode: tag 0 with exactly seven bytes, or tag 1
/// with exactly nineteen; anything else encodes no address.
pub open spec fn decode_addr(d: Seq<u8>) -> Option<AddrSpec> {
    if d.len() == 7 && d[0] == 0 {
        Some(AddrSpec::V4(d.subrange(1, 5), port_of(d[5], d[6])))
    } else if d.len() == 19 && d[0] == 1 {
        Some(AddrSpec::V6(d.subrange(1, 17), port_of(d[17], d[18])))
    } else {
        None
    }
}

/// The reply the echo server owes a non-empty ping: when the ping's first
/// byte is 1 (a request for the sender's address) the byte 1 and the
/// sender's encoded address, otherwise the two bytes 0 and 1.
pub open spec fn reply_for(request: Seq<u8>, peer: AddrSpec) -> Seq<u8> {
    if request[0] == 1 {
        seq![1u8] + encode_addr(peer)
    } else {
        seq![0u8, 1u8]
    }
}

/// Why bytes were not read as a socket address.
#[derive(Clone, Copy, Debug, PartialEq, Eq)]
pub enum AddrParseError {
    /// The family tag and the length match neither address family.
    InvalidSocketAddrBytes,
}

/// Encodes a socket address as the echo server sends it back.
pub fn socket_addr_to_bytes(addr: &SockAddr) -> (r: bytes::Bytes)
    ensures
        bytes_contents(r) == encode_addr(addr@),
{
    let mut r = buf_new();
    let port = match addr {
        SockAddr::V4(ip, port) => {
            buf_put_u8(&mut r, 0);
            buf_put_slice(&mut r, ip.as_slice());
            *port
        },
        SockAddr::V6(ip, port) => {
            buf_put_u8(&mut r, 1);
            buf_put_slice(&mut r, ip.as_slice());
            *port
        },
    };
    buf_put_u16(&mut r, port);
    buf_freeze(r)
}

/// Reading back an encoded address gives the same address: for every address
/// a `SockAddr` can hold, decoding its echo encoding yields it unchanged.
pub proof fn lemma_decode_encode_roundtrip(a: AddrSpec)
    requires
        addr_well_formed(a),
    ensures
        decode_addr(encode_addr(a)) == Some(a),
{
    match a {
        AddrSpec::V4(ip, port) => {
            let d = encode_addr(a);
            assert(d.subrange(1, 5) =~= ip);
            assert(port_of(d[5], d[6]) == port);
        },
        AddrSpec::V6(ip, port) => {
            let d = encode_addr(a);
            assert(d.subrange(1, 17) =~= ip);
            assert(port_of(d[17], d[18]) == port);
        },
    }
}

/// Every byte string that decodes to an address is exactly that address's
/// encoding: the encoding has no second spelling.
pub proof fn lemma_encode_decode_roundtrip(d: Seq<u8>)
    requires
        decode_addr(d) is Some,
    ensures
        addr_well_formed(decode_addr(d).unwrap()),
        encode_addr(decode_addr(d).unwrap()) == d,
{
    let hi: u8 = if d[0] == 0 { d[5] } else { d[17] };
    let lo: u8 = if d[0] == 0 { d[6] } else { d[18] };
    assert(((hi * 256 + lo) as u16) / 256 == hi && ((hi * 256 + lo) as u16) % 256 == lo) by (nonlinear_arith)
        requires hi < 256, lo < 256;
    assert(encode_addr(decode_addr(d).unwrap()) =~= d);
}

/// Every address a `SockAddr` holds is one the encoding covers.
pub proof fn lemma_sock_addr_well_formed(a: SockAddr)
    ensures
        addr_well_formed(a@),
{
    match a {
        SockAddr::V4(ip, _) => {
            assert(ip@.len() == 4);
        },
        SockAddr::V6(ip, _) => {
            assert(ip@.len() == 16);
        },
    }
}

/// The server tells every sender, of either address family, where it is:
/// a request whose first byte is 1 is answered with the byte 1 followed by
/// bytes that read back as the sender's address; any other non-empty
/// request is answered with the bytes 0 and 1.
pub proof fn lemma_reply_echoes_sender(request: Seq<u8>, peer: AddrSpec)
    requires
        request.len() > 0,
        addr_well_formed(peer),
    ensures
        request[0] == 1 ==> {
            let r = reply_for(request, peer);
            &&& r.len() > 0
            &&& r[0] == 1
            &&& decode_addr(r.drop_first()) == Some(peer)
        },
        request[0] != 1 ==> reply_for(request, peer) == seq![0u8, 1u8],
{
    if request[0] == 1 {
        let r = reply_for(request, peer);
        assert(r.drop_first() =~= encode_addr(peer));
        lemma_decode_encode_roundtrip(peer);
    }
}

/// Reads the socket address that the echo server put into its reply.
/// The bytes must not be empty: the tag byte is read unconditionally.
pub fn parse_socket_addr(data: &[u8]) -> (res: Result<SockAddr, AddrParseError>)
    requires
        data@.len() > 0,
    ensures
        match res {
            Ok(a) => decode_addr(data@) == Some(a@),
            Err(e) => decode_addr(data@) is None && e == AddrParseError::InvalidSocketAddrBytes,
        },
{
    let n = data.len();
    if data[0] == 0 && n == 7 {
        let ip: [u8; 4] = [data[1], data[2], data[3], data[4]];
        let port: u16 = (data[5] as u16) * 256 + (data[6] as u16);
        let a = SockAddr::V4(ip, port);
        assert(a@ == decode_addr(data@).unwrap()) by {
            assert(ip@ =~= data@.subrange(1, 5));
        }
        Ok(a)
    } else if data[0] == 1 && n == 19 {
        let ip: [u8; 16] = [
            data[1], data[2], data[3], data[4], data[5], data[6], data[7], data[8],
            data[9], data[10], data[11], data[12], data[13], data[14], data[15], data[16],
        ];
        let port: u16 = (data[17] as u16) * 256 + (data[18] as u16);
        let a = SockAddr::V6(ip, port);
        assert(a@ == decode_addr(data@).unwrap()) by {
            assert(ip@ =~= data@.subrange(1, 17));
        }
        Ok(a)
    } else {
        Err(AddrParseError::InvalidSocketAddrBytes)
    }
}

/// The echo server's answer to one received datagram: nothing for an empty
/// datagram, otherwise the reply `reply_for` describes.
pub fn reply_to_ping(request: &[u8], peer: &SockAddr) -> (r: Option<bytes::Bytes>)
    ensures
        request@.len() == 0 <==> r is None,
        r matches Some(b) ==> bytes_contents(b) == reply_for(request@, peer@),
{
    if request.len() == 0 {
        return None;
    }
    let mut r = buf_new();
    if request[0] == 1 {
        buf_put_u8(&mut r, 1);
        let encoded = socket_addr_to_bytes(peer);
        let s = bytes_as_slice(&encoded);
        proof {
            match peer@ {
                AddrSpec::V4(ip, port) => { assert(ip.len() == 4); },
                AddrSpec::V6(ip, port) => { assert(ip.len() == 16); },
            }
        }
        buf_put_slice(&mut r, s);
    } else {
        buf_put_u8(&mut r, 0);
        buf_put_u8(&mut r, 1);
    }
    Some(buf_freeze(r))
}

} // verus!
