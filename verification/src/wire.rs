//! Wire-facing types of the node service: gossip subscriptions, ping
//! payloads, stream transcoding, and the upload request header.

use crate::bytes::subvec;
use vstd::prelude::*;

verus! {

/// A subscription filter over repository ids. An empty filter matches
/// everything.
#[derive(Debug)]
pub struct Filter {
    pub bits: Vec<u8>,
}

impl Filter {
    /// The filter that matches everything.
    pub fn matching_all() -> (r: Filter)
        ensures
            r.bits@.len() == 0,
    {
        Filter { bits: Vec::new() }
    }
}

/// Subscribe to gossip messages matching a filter and a time range.
#[derive(Debug)]
pub struct Subscribe {
    /// Subscribe to events matching this filter.
    pub filter: Filter,
    /// Request messages since this time.
    pub since: u64,
    /// Request messages until this time.
    pub until: u64,
}

impl Subscribe {
    /// Subscribe to everything, at all times.
    pub fn all() -> (r: Subscribe)
        ensures
            r.filter.bits@.len() == 0,
            r.since == 0,
            r.until == u64::MAX,
    {
        Subscribe { filter: Filter::matching_all(), since: 0, until: u64::MAX }
    }
}

/// A run of zero bytes of a given length, carried in ping and pong
/// payloads without materialising the bytes.
#[derive(Clone, Copy, Debug, PartialEq, Eq, Structural)]
pub struct ZeroBytes {
    len: u16,
}

impl ZeroBytes {
    pub closed spec fn spec_len(&self) -> u16 {
        self.len
    }

    /// A run of `size` zero bytes.
    pub fn new(size: u16) -> (r: ZeroBytes)
        ensures
            r.spec_len() == size,
    {
        ZeroBytes { len: size }
    }

    /// Is the run empty?
    pub fn is_empty(&self) -> (r: bool)
        ensures
            r == (self.spec_len() == 0),
    {
        self.len == 0
    }

    /// The number of zero bytes.
    pub fn len(&self) -> (r: usize)
        ensures
            r == self.spec_len(),
    {
        self.len as usize
    }
}

/// A ping message: the requested pong length, and filler zeroes.
#[derive(Debug)]
pub struct Ping {
    /// The requested length of the pong message.
    pub ponglen: u16,
    /// Zero bytes, ignored by the receiver.
    pub zeroes: ZeroBytes,
}

/// A peer's self-description on the wire.
#[derive(Debug)]
pub struct Hostname {
    pub name: Vec<u8>,
}

/// Data handed back by a transcoder: a decoded fragment for the local
/// peer, or a fragment that must be sent back to the remote.
#[derive(Debug, PartialEq, Eq)]
pub enum DecodedData {
    /// A decoded fragment for the local peer.
    Local(Vec<u8>),
    /// A fragment to send to the remote peer.
    Remote(Vec<u8>),
}

/// Transcoding of a byte stream: decode what the remote sent, encode what
/// is about to be sent.
pub trait Transcode {
    /// Decode data received from the remote peer.
    fn input(&mut self, data: &Vec<u8>) -> DecodedData;

    /// Encode data before sending it to the remote peer.
    fn output(&mut self, data: Vec<u8>) -> Vec<u8>;
}

/// The transcoder that changes nothing.
#[derive(Debug, Default)]
pub struct PlainTranscoder;

impl Transcode for PlainTranscoder {
    fn input(&mut self, data: &Vec<u8>) -> (r: DecodedData)
        ensures
            r matches DecodedData::Local(d) && d@ == data@,
    {
        let copy = subvec(data, 0, data.len());
        proof {
            assert(copy@ =~= data@);
        }
        DecodedData::Local(copy)
    }

    fn output(&mut self, data: Vec<u8>) -> (r: Vec<u8>)
        ensures
            r@ == data@,
    {
        data
    }
}

/// The first packet of an upload request:
/// `git-upload-pack <path>\0host=<host>(:<port>)?\0(<key>(=<value>)?\0)*`.
#[derive(Debug)]
pub struct Header {
    /// The repository path asked for.
    pub path: Vec<u8>,
    /// The advertised host, with an optional port.
    pub host: Option<(Vec<u8>, Option<u16>)>,
    /// The remaining `key(=value)?` parameters.
    pub extra: Vec<(Vec<u8>, Option<Vec<u8>>)>,
}

/// Why an upload request header is rejected.
#[derive(Clone, Copy, Debug, PartialEq, Eq, Structural)]
pub enum HeaderError {
    /// The request does not ask for `git-upload-pack`.
    UnsupportedService,
    /// The path is empty.
    EmptyPath,
    /// The host parameter does not start with `host=`.
    InvalidHost,
    /// The port is not a number below 65536.
    InvalidPort,
}

/// `git-upload-pack ` (with the trailing space).
pub open spec fn upload_pack_prefix() -> Seq<u8> {
    seq![
        103u8, 105u8, 116u8, 45u8, 117u8, 112u8, 108u8, 111u8, 97u8, 100u8, 45u8, 112u8, 97u8,
        99u8, 107u8, 32u8,
    ]
}

/// `host=`
pub open spec fn host_prefix() -> Seq<u8> {
    seq![104u8, 111u8, 115u8, 116u8, 61u8]
}

/// The NUL-separated fields of `s`, with a final unterminated field
/// dropped — the split that `\0`-terminated wire fields produce.
fn split_nul(s: &Vec<u8>) -> (r: Vec<Vec<u8>>)
    ensures
        forall|i: int| 0 <= i < r@.len() ==> forall|j: int|
            0 <= j < (#[trigger] r@[i])@.len() ==> (#[trigger] r@[i]@[j]) != 0u8,
        (exists|i: int| 0 <= i < s@.len() && s@[i] == 0u8) ==> r@.len() >= 1,
        (s@.len() > 0 && s@[0] != 0u8 && r@.len() > 0) ==> r@[0]@.len() > 0,
{
    let mut r: Vec<Vec<u8>> = Vec::new();
    let mut field: Vec<u8> = Vec::new();
    let mut i: usize = 0;
    while i < s.len()
        invariant
            i <= s@.len(),
            forall|x: int| 0 <= x < field@.len() ==> (#[trigger] field@[x]) != 0u8,
            forall|x: int| 0 <= x < r@.len() ==> forall|j: int|
                0 <= j < (#[trigger] r@[x])@.len() ==> (#[trigger] r@[x]@[j]) != 0u8,
            (exists|j: int| 0 <= j < i && s@[j] == 0u8) ==> r@.len() >= 1,
            r@.len() == 0 ==> field@ == s@.take(i as int),
            (s@.len() > 0 && s@[0] != 0u8 && r@.len() > 0) ==> r@[0]@.len() > 0,
        decreases s@.len() - i,
    {
        if s[i] == 0u8 {
            let ghost r_before = r@;
            let ghost field_before = field@;
            r.push(field);
            field = Vec::new();
            proof {
                assert(s@[i as int] == 0u8);
                if r_before.len() == 0 && s@.len() > 0 && s@[0] != 0u8 {
                    assert(i > 0);
                    assert(r@[0]@ == field_before);
                    assert(field_before.len() == i as int);
                }
            }
        } else {
            proof {
                if r@.len() == 0 {
                    assert(field@.push(s@[i as int]) =~= s@.take(i as int + 1));
                }
            }
            field.push(s[i]);
        }
        i = i + 1;
    }
    r
}

/// Parse a base-ten port number.
fn parse_port(s: &Vec<u8>) -> (r: Option<u16>)
{
    if s.len() == 0 || s.len() > 5 {
        return None;
    }
    let mut value: u32 = 0;
    let mut i: usize = 0;
    while i < s.len()
        invariant
            i <= s@.len(),
            value <= 65535,
        decreases s@.len() - i,
    {
        let c = s[i];
        if c < 48 || c > 57 {
            return None;
        }
        value = value * 10 + ((c - 48) as u32);
        if value > 65535 {
            return None;
        }
        i = i + 1;
    }
    Some(value as u16)
}

impl Header {
    /// Parse the first packet of an upload request.
    pub fn parse(s: &Vec<u8>) -> (r: Result<Header, HeaderError>)
        ensures
            match r {
                Ok(h) => crate::bytes::has_prefix(s@, upload_pack_prefix()) && h.path@.len() > 0,
                Err(e) => {
                    &&& (e == HeaderError::UnsupportedService <==> !crate::bytes::has_prefix(
                        s@,
                        upload_pack_prefix(),
                    ))
                    &&& (e == HeaderError::EmptyPath ==> s@.len()
                        == upload_pack_prefix().len() || s@[upload_pack_prefix().len() as int]
                        == 0u8)
                },
            },
    {
        let mut prefix: Vec<u8> = Vec::new();
        prefix.push(103);
        prefix.push(105);
        prefix.push(116);
        prefix.push(45);
        prefix.push(117);
        prefix.push(112);
        prefix.push(108);
        prefix.push(111);
        prefix.push(97);
        prefix.push(100);
        prefix.push(45);
        prefix.push(112);
        prefix.push(97);
        prefix.push(99);
        prefix.push(107);
        prefix.push(32);
        proof {
            assert(prefix@ =~= upload_pack_prefix());
        }
        if !crate::bytes::starts_with(s, &prefix) {
            return Err(HeaderError::UnsupportedService);
        }
        let rest = subvec(s, prefix.len(), s.len());
        // terminate the tail so the last field is kept
        let mut rest = rest;
        let ghost tail = rest@;
        rest.push(0u8);
        let fields = split_nul(&rest);
        proof {
            assert(rest@[rest@.len() - 1] == 0u8);
            assert(fields@.len() >= 1);
        }
        if fields.len() == 0 {
            return Err(HeaderError::EmptyPath);
        }
        let path = subvec(&fields[0], 0, fields[0].len());
        proof {
            assert(path@ == fields@[0]@.subrange(0, fields@[0]@.len() as int));
            assert(path@ =~= fields@[0]@);
        }
        if path.len() == 0 {
            proof {
                // an empty first field means the request ends, or goes
                // straight to a separator, right after the service name
                if tail.len() > 0 && tail[0] != 0u8 {
                    assert(rest@[0] == tail[0]);
                    assert(rest@.len() > 0 && rest@[0] != 0u8);
                    assert(fields@[0]@.len() > 0);
                    assert(false);
                }
                assert(tail == s@.subrange(prefix@.len() as int, s@.len() as int));
                if tail.len() > 0 {
                    assert(s@[upload_pack_prefix().len() as int] == tail[0]);
                } else {
                    assert(s@.len() == upload_pack_prefix().len());
                }
            }
            return Err(HeaderError::EmptyPath);
        }
        let mut host: Option<(Vec<u8>, Option<u16>)> = None;
        let mut extra: Vec<(Vec<u8>, Option<Vec<u8>>)> = Vec::new();
        if fields.len() >= 2 && fields[1].len() > 0 {
            let mut hp: Vec<u8> = Vec::new();
            hp.push(104);
            hp.push(111);
            hp.push(115);
            hp.push(116);
            hp.push(61);
            proof {
                assert(hp@ =~= host_prefix());
            }
            if !crate::bytes::starts_with(&fields[1], &hp) {
                return Err(HeaderError::InvalidHost);
            }
            let hrest = subvec(&fields[1], hp.len(), fields[1].len());
            // split on the last `:` for a port
            let mut colon: Option<usize> = None;
            let mut i: usize = 0;
            while i < hrest.len()
                invariant
                    i <= hrest@.len(),
                    match colon {
                        Some(c) => c < hrest@.len(),
                        None => true,
                    },
                decreases hrest@.len() - i,
            {
                if hrest[i] == 58u8 {
                    colon = Some(i);
                }
                i = i + 1;
            }
            match colon {
                None => {
                    host = Some((hrest, None));
                },
                Some(c) => {
                    let name = subvec(&hrest, 0, c);
                    let port_text = subvec(&hrest, c + 1, hrest.len());
                    match parse_port(&port_text) {
                        Some(p) => {
                            host = Some((name, Some(p)));
                        },
                        None => {
                            return Err(HeaderError::InvalidPort);
                        },
                    }
                },
            }
        }
        let mut f: usize = 2;
        while f < fields.len()
            invariant
                2 <= f <= fields@.len() || (f == 2 && fields@.len() < 2),
            decreases fields@.len() - f,
        {
            let field = &fields[f];
            if field.len() > 0 {
                // split on the first `=`
                let mut eq: Option<usize> = None;
                let mut i: usize = 0;
                while i < field.len()
                    invariant
                        i <= field@.len(),
                        match eq {
                            Some(c) => c < field@.len(),
                            None => true,
                        },
                    decreases field@.len() - i,
                {
                    if field[i] == 61u8 && eq.is_none() {
                        eq = Some(i);
                    }
                    i = i + 1;
                }
                match eq {
                    None => {
                        extra.push((subvec(field, 0, field.len()), None));
                    },
                    Some(c) => {
                        extra.push(
                            (subvec(field, 0, c), Some(subvec(field, c + 1, field.len()))),
                        );
                    },
                }
            }
            f = f + 1;
        }
        Ok(Header { path, host, extra })
    }
}

} // verus!
