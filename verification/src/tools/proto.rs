//! Application protocols and certificate compression.

use vstd::prelude::*;
use vstd::slice::slice_to_vec;
use vstd::std_specs::convert::{FromSpec, FromSpecImpl};
use vstd::string::*;
use vstd::utf8::*;

use crate::bytes::bytes_equal;

verus! {

/// Supported application protocols.
#[derive(Clone, Copy, Debug, PartialEq, Eq, Structural)]
pub enum ApplicationProto {
    /// The protocol of the QUIC interoperability tests.
    Interop,
    /// HTTP/0.9.
    Http09,
    /// HTTP/3.
    H3,
}

/// The bytes of a string of ASCII characters.
pub open spec fn ascii_bytes(s: Seq<char>) -> Seq<u8> {
    s.map_values(|c: char| c as u8)
}

impl ApplicationProto {
    /// The bytes by which the protocol is negotiated.
    pub open spec fn id(self) -> Seq<u8> {
        match self {
            ApplicationProto::Interop => ascii_bytes("hq-interop"@),
            ApplicationProto::Http09 => ascii_bytes("http/0.9"@),
            ApplicationProto::H3 => ascii_bytes("h3"@),
        }
    }

    /// The bytes by which the protocol is negotiated.
    pub fn to_slice(&self) -> (r: &[u8])
        ensures
            r@ == self.id(),
    {
        match self {
            ApplicationProto::Interop => {
                proof {
                    reveal_strlit("hq-interop");
                    lemma_ascii_bytes("hq-interop");
                }
                "hq-interop".as_bytes()
            },
            ApplicationProto::Http09 => {
                proof {
                    reveal_strlit("http/0.9");
                    lemma_ascii_bytes("http/0.9");
                }
                "http/0.9".as_bytes()
            },
            ApplicationProto::H3 => {
                proof {
                    reveal_strlit("h3");
                    lemma_ascii_bytes("h3");
                }
                "h3".as_bytes()
            },
        }
    }

    /// The protocol that the bytes stand for, which have to be those of one.
    pub fn from_slice(proto: &[u8]) -> (r: Self)
        requires
            exists|p: ApplicationProto| proto@ == #[trigger] p.id(),
        ensures
            r.id() == proto@,
            forall|p: ApplicationProto| proto@ == #[trigger] p.id() ==> r == p,
    {
        proof {
            assert forall|p: ApplicationProto, q: ApplicationProto|
                #![trigger p.id(), q.id()]
                p.id() == q.id() implies p == q by {
                law_ids_are_distinct(p, q);
            }
        }
        if bytes_equal(proto, ApplicationProto::Interop.to_slice()) {
            ApplicationProto::Interop
        } else if bytes_equal(proto, ApplicationProto::Http09.to_slice()) {
            ApplicationProto::Http09
        } else {
            ApplicationProto::H3
        }
    }

    /// The bytes of several protocols, in their order.
    pub fn convert_to_vec(protos: &[Self]) -> (r: Vec<Vec<u8>>)
        ensures
            r.len() == protos@.len(),
            forall|i: int| 0 <= i < r.len() ==> (#[trigger] r@[i])@ == protos@[i].id(),
    {
        let mut r: Vec<Vec<u8>> = Vec::new();
        let mut i: usize = 0;
        while i < protos.len()
            invariant
                i <= protos.len(),
                r.len() == i,
                forall|j: int| 0 <= j < i ==> (#[trigger] r@[j])@ == protos@[j].id(),
            decreases protos.len() - i,
        {
            r.push(slice_to_vec(protos[i].to_slice()));
            i += 1;
        }
        r
    }
}

impl Default for ApplicationProto {
    /// HTTP/3.
    fn default() -> (r: Self)
        ensures
            r == ApplicationProto::H3,
    {
        ApplicationProto::H3
    }
}

proof fn lemma_ascii_bytes(s: &str)
    requires
        is_ascii_chars(s@),
    ensures
        s.spec_bytes() == ascii_bytes(s@),
{
    is_ascii_chars_encode_utf8(s@);
    assert(s.spec_bytes() =~= ascii_bytes(s@));
}

/// Law: no two protocols share their bytes, so that reading back what a protocol
/// was written as gives the same protocol.
pub proof fn law_ids_are_distinct(a: ApplicationProto, b: ApplicationProto)
    ensures
        a.id() == b.id() ==> a == b,
{
    reveal_strlit("hq-interop");
    reveal_strlit("http/0.9");
    reveal_strlit("h3");
    assert(ApplicationProto::Interop.id().len() == 10);
    assert(ApplicationProto::Http09.id().len() == 8);
    assert(ApplicationProto::H3.id().len() == 2);
}

/// How a certificate is compressed.
#[derive(Clone, Copy, Debug, PartialEq, Eq, Structural)]
pub enum CertCompressionAlgorithm {
    /// zlib (RFC 1950).
    Zlib,
    /// Brotli (RFC 7932).
    Brotli,
    /// Zstandard (RFC 8478).
    Zstd,
}

/// A certificate compression algorithm as it is named on the command line.
#[derive(Clone, Copy, Debug, PartialEq, Eq, PartialOrd, Ord, Structural)]
pub enum CertCompressionAlgorithmArg {
    /// zlib (RFC 1950).
    Zlib,
    /// Brotli (RFC 7932).
    Brotli,
    /// Zstandard (RFC 8478).
    Zstd,
}

impl FromSpecImpl<CertCompressionAlgorithmArg> for CertCompressionAlgorithm {
    open spec fn obeys_from_spec() -> bool {
        true
    }

    open spec fn from_spec(arg: CertCompressionAlgorithmArg) -> CertCompressionAlgorithm {
        match arg {
            CertCompressionAlgorithmArg::Zlib => CertCompressionAlgorithm::Zlib,
            CertCompressionAlgorithmArg::Brotli => CertCompressionAlgorithm::Brotli,
            CertCompressionAlgorithmArg::Zstd => CertCompressionAlgorithm::Zstd,
        }
    }
}

impl From<CertCompressionAlgorithmArg> for CertCompressionAlgorithm {
    fn from(arg: CertCompressionAlgorithmArg) -> (r: Self) {
        match arg {
            CertCompressionAlgorithmArg::Zlib => CertCompressionAlgorithm::Zlib,
            CertCompressionAlgorithmArg::Brotli => CertCompressionAlgorithm::Brotli,
            CertCompressionAlgorithmArg::Zstd => CertCompressionAlgorithm::Zstd,
        }
    }
}

/// Law: the bytes of the protocols are the ASCII codes of "hq-interop", "http/0.9"
/// and "h3".
pub proof fn law_ids_spelled_out(p: ApplicationProto)
    ensures
        p.id() == match p {
            ApplicationProto::Interop => seq![
                104u8,
                113u8,
                45u8,
                105u8,
                110u8,
                116u8,
                101u8,
                114u8,
                111u8,
                112u8,
            ],
            ApplicationProto::Http09 => seq![104u8, 116u8, 116u8, 112u8, 47u8, 48u8, 46u8, 57u8],
            ApplicationProto::H3 => seq![104u8, 51u8],
        },
{
    reveal_strlit("hq-interop");
    reveal_strlit("http/0.9");
    reveal_strlit("h3");
    match p {
        ApplicationProto::Interop => {
            assert(p.id() =~= seq![
                104u8,
                113u8,
                45u8,
                105u8,
                110u8,
                116u8,
                101u8,
                114u8,
                111u8,
                112u8,
            ]);
        },
        ApplicationProto::Http09 => {
            assert(p.id() =~= seq![104u8, 116u8, 116u8, 112u8, 47u8, 48u8, 46u8, 57u8]);
        },
        ApplicationProto::H3 => {
            assert(p.id() =~= seq![104u8, 51u8]);
        },
    }
}

/// Law: a certificate compression algorithm of the command line is the one of the
/// same name.
pub proof fn law_compression_keeps_its_name(arg: CertCompressionAlgorithmArg)
    ensures
        <CertCompressionAlgorithm as FromSpec<CertCompressionAlgorithmArg>>::obeys_from_spec(),
        ({
            let algorithm = <CertCompressionAlgorithm as FromSpec<
                CertCompressionAlgorithmArg,
            >>::from_spec(arg);
            &&& algorithm is Zlib <==> arg is Zlib
            &&& algorithm is Brotli <==> arg is Brotli
            &&& algorithm is Zstd <==> arg is Zstd
        }),
{
}

} // verus!
