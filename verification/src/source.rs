//! Component sources: inferring whether a dependency comes from a local
//! path, an HTTP URL or a registry reference, verifying content digests,
//! and choosing a release from a registry's version list.

use vstd::prelude::*;

use crate::DepsError;
use crate::name::{copy_bytes, find_byte, find_byte_spec, lemma_find_byte_props};

verus! {

broadcast use crate::bytes::lemma_bytes_deep_view;

/// A dependency taken from a local file.
#[derive(Debug)]
pub struct LocalAddCommand {
    /// The path to the local file to be added.
    pub path: Vec<u8>,
}

/// Mathematical form of a component source.
pub ghost enum SourceV {
    Local { path: Seq<u8> },
    Http { url: Seq<u8>, digest: Seq<u8> },
    Registry { package: Seq<u8>, version: Seq<u8>, registry: Option<Seq<u8>> },
}

/// Where a dependency's bytes come from: a local path, an HTTP URL with a
/// required digest, or a registry package with a version requirement.
pub enum ComponentSource {
    Local { path: Vec<u8> },
    Http { url: Vec<u8>, digest: Vec<u8> },
    Registry { package: Vec<u8>, version: Vec<u8>, registry: Option<Vec<u8>> },
}

impl View for ComponentSource {
    type V = SourceV;

    open spec fn view(&self) -> SourceV {
        match self {
            ComponentSource::Local { path } => SourceV::Local { path: path@ },
            ComponentSource::Http { url, digest } => SourceV::Http { url: url@, digest: digest@ },
            ComponentSource::Registry { package, version, registry } => SourceV::Registry {
                package: package@,
                version: version@,
                registry: match registry {
                    Some(r) => Some(r@),
                    None => None,
                },
            },
        }
    }
}

/// Whether a URL scheme selects the HTTP source kind.
pub open spec fn http_scheme(sch: Seq<u8>) -> bool {
    sch.len() >= 4 && sch.subrange(0, 4) == seq![
        ('h' as u8),
        ('t' as u8),
        ('t' as u8),
        ('p' as u8),
    ]
}

/// The source classification decision: an existing local path wins; next an
/// HTTP(S) URL, which requires a digest; next a registry reference, which
/// requires a version; anything else cannot be inferred. `None` is the
/// error outcome.
pub open spec fn classify_spec(
    source: Seq<u8>,
    path_exists: bool,
    parsed_url: Option<(Seq<u8>, Seq<u8>)>,
    parsed_pkg: Option<(Seq<u8>, Option<Seq<u8>>)>,
    digest: Option<Seq<u8>>,
    registry: Option<Seq<u8>>,
) -> Option<SourceV> {
    if path_exists {
        Some(SourceV::Local { path: source })
    } else {
        let url_hit = match parsed_url {
            Some(p) => if http_scheme(p.0) {
                Some(p.1)
            } else {
                None
            },
            None => None,
        };
        match url_hit {
            Some(ser) => match digest {
                Some(d) => Some(SourceV::Http { url: ser, digest: d }),
                None => None,
            },
            None => match parsed_pkg {
                Some((pkg, Some(ver))) => Some(
                    SourceV::Registry { package: pkg, version: ver, registry },
                ),
                Some((pkg, None)) => None,
                None => None,
            },
        }
    }
}

/// Classifies a source string given the outcomes of the URL and registry
/// reference parses. Exactly the decision of `classify_spec`.
pub fn classify_source(
    source: &Vec<u8>,
    path_exists: bool,
    parsed_url: Option<(Vec<u8>, Vec<u8>)>,
    parsed_pkg: Option<(Vec<u8>, Option<Vec<u8>>)>,
    digest: &Option<Vec<u8>>,
    registry: &Option<Vec<u8>>,
) -> (r: Result<ComponentSource, DepsError>)
    ensures
        match r {
            Ok(s) => classify_spec(
                source@,
                path_exists,
                opt_pair_view(parsed_url),
                opt_pkg_view(parsed_pkg),
                opt_view(*digest),
                opt_view(*registry),
            ) == Some(s@),
            Err(e) => classify_spec(
                source@,
                path_exists,
                opt_pair_view(parsed_url),
                opt_pkg_view(parsed_pkg),
                opt_view(*digest),
                opt_view(*registry),
            ) is None && (e is InvalidComponent),
        },
{
    if path_exists {
        return Ok(ComponentSource::Local { path: copy_bytes(source) });
    }
    match parsed_url {
        Some((sch, ser)) => {
            if sch.len() >= 4 && crate::bytes::starts_with(
                sch.as_slice(),
                http_prefix().as_slice(),
            ) {
                assert(http_scheme(sch@));
                match digest {
                    Some(d) => {
                        return Ok(ComponentSource::Http { url: ser, digest: copy_bytes(d) });
                    },
                    None => {
                        return Err(
                            DepsError::InvalidComponent { detail: copy_bytes(source) },
                        );
                    },
                }
            }
            proof {
                assert(!http_scheme(sch@));
            }
        },
        None => {},
    }
    match parsed_pkg {
        Some((pkg, Some(ver))) => Ok(
            ComponentSource::Registry {
                package: pkg,
                version: ver,
                registry: match registry {
                    Some(r) => Some(copy_bytes(r)),
                    None => None,
                },
            },
        ),
        Some((pkg, None)) => Err(DepsError::InvalidComponent { detail: copy_bytes(source) }),
        None => Err(DepsError::InvalidComponent { detail: copy_bytes(source) }),
    }
}

/// The view of an optional byte vector.
pub open spec fn opt_view(o: Option<Vec<u8>>) -> Option<Seq<u8>> {
    match o {
        Some(v) => Some(v@),
        None => None,
    }
}

/// The view of an optional pair of byte vectors.
pub open spec fn opt_pair_view(o: Option<(Vec<u8>, Vec<u8>)>) -> Option<(Seq<u8>, Seq<u8>)> {
    match o {
        Some(p) => Some((p.0@, p.1@)),
        None => None,
    }
}

/// The view of an optional registry reference pair.
pub open spec fn opt_pkg_view(o: Option<(Vec<u8>, Option<Vec<u8>>)>) -> Option<
    (Seq<u8>, Option<Seq<u8>>),
> {
    match o {
        Some(p) => Some((p.0@, opt_view(p.1))),
        None => None,
    }
}

/// What probing a reference as a URL yields: its scheme and canonical
/// serialization when it parses, nothing otherwise; a function of the
/// reference alone.
pub uninterp spec fn url_probe_of(s: Seq<u8>) -> Option<(Seq<u8>, Seq<u8>)>;

/// What parsing a reference as a registry package name yields: its
/// `namespace:name` display when it parses; a function of the reference
/// alone.
pub uninterp spec fn packageref_of(s: Seq<u8>) -> Option<Seq<u8>>;

/// What parsing a reference as a version requirement yields: its display
/// when it parses; a function of the reference alone.
pub uninterp spec fn versionreq_of(s: Seq<u8>) -> Option<Seq<u8>>;

/// Builds `"http"`.
fn http_prefix() -> (r: Vec<u8>)
    ensures
        r@ == seq![('h' as u8), ('t' as u8), ('t' as u8), ('p' as u8)],
{
    let a: [u8; 4] = [('h' as u8), ('t' as u8), ('t' as u8), ('p' as u8)];
    let v = vstd::slice::slice_to_vec(a.as_slice());
    assert(v@ =~= seq![('h' as u8), ('t' as u8), ('t' as u8), ('p' as u8)]);
    v
}

/// Relies on url's `Url::parse`, `Url::scheme` and `Url::as_str`: a pure
/// parse of the reference, yielding the lower-cased ASCII scheme and the
/// canonical serialization; a reference that does not parse simply falls
/// through to the other source kinds.
#[verifier::external_body]
fn url_probe(s: &[u8]) -> (r: Option<(Vec<u8>, Vec<u8>)>)
    ensures
        opt_pair_view(r) == url_probe_of(s@),
{
    core::str::from_utf8(s).ok().and_then(|t| url::Url::parse(t).ok()).map(
        |u| (u.scheme().as_bytes().to_vec(), u.as_str().as_bytes().to_vec()),
    )
}

/// Relies on wasm-pkg-common's `FromStr` and `Display` for `PackageRef`: a
/// pure parse validating the `namespace:name` shape, displayed back in
/// that form.
#[verifier::external_body]
fn packageref_probe(s: &[u8]) -> (r: Option<Vec<u8>>)
    ensures
        opt_view(r) == packageref_of(s@),
{
    core::str::from_utf8(s).ok().and_then(
        |t| t.parse::<wasm_pkg_common::package::PackageRef>().ok(),
    ).map(|p| p.to_string().into_bytes())
}

/// Relies on semver's `VersionReq::parse` and its `Display`: a pure parse
/// of the requirement, displayed back canonically.
#[verifier::external_body]
fn versionreq_probe(s: &[u8]) -> (r: Option<Vec<u8>>)
    ensures
        opt_view(r) == versionreq_of(s@),
{
    core::str::from_utf8(s).ok().and_then(|t| semver::VersionReq::parse(t).ok()).map(
        |v| v.to_string().into_bytes(),
    )
}

/// What splitting and parsing a registry reference yields: the part before
/// the first '@' read as a package name, the rest (when present) as a
/// version requirement; nothing when either half fails to parse.
pub open spec fn pkg_ver_spec(s: Seq<u8>) -> Option<(Seq<u8>, Option<Seq<u8>>)> {
    let split = match find_byte_spec(s, ('@' as u8)) {
        Some(i) => if 0 <= i <= s.len() {
            (s.subrange(0, i), Some(s.subrange(i + 1, s.len() as int)))
        } else {
            (s, None)
        },
        None => (s, None),
    };
    match packageref_of(split.0) {
        None => None,
        Some(p) => match split.1 {
            None => Some((p, None)),
            Some(v) => match versionreq_of(v) {
                None => None,
                Some(vd) => Some((p, Some(vd))),
            },
        },
    }
}

/// Splits a registry reference `package@version-requirement` at the first
/// '@' and validates both halves through their parsers; the version half
/// is optional, and failure of either half rejects the reference.
fn package_name_ver(source: &Vec<u8>) -> (r: Option<(Vec<u8>, Option<Vec<u8>>)>)
    ensures
        opt_pkg_view(r) == pkg_ver_spec(source@),
{
    let n = source.len();
    let (pkg_part, ver_part): (Vec<u8>, Option<Vec<u8>>) = match find_byte(
        source.as_slice(),
        '@' as u8,
    ) {
        Some(i) => {
            proof {
                lemma_find_byte_props(source@, ('@' as u8));
            }
            (
                crate::name::sub_vec(source.as_slice(), 0, i),
                Some(crate::name::sub_vec(source.as_slice(), i + 1, n)),
            )
        },
        None => (copy_bytes(source), None),
    };
    let pkg = match packageref_probe(pkg_part.as_slice()) {
        Some(p) => p,
        None => {
            return None;
        },
    };
    let ver = match ver_part {
        Some(vb) => match versionreq_probe(vb.as_slice()) {
            Some(v) => Some(v),
            None => {
                return None;
            },
        },
        None => None,
    };
    Some((pkg, ver))
}

impl ComponentSource {
    /// Infers the source of a component reference: a local path when one
    /// exists, an HTTP URL (which requires a digest), or a registry
    /// reference (which requires a version). The caller reports whether
    /// the path exists; everything else is exactly the classification of
    /// `classify_spec` over the reference's probed parses.
    pub fn infer_source(
        source: &Vec<u8>,
        digest: &Option<Vec<u8>>,
        registry: &Option<Vec<u8>>,
        path_exists: bool,
    ) -> (r: Result<ComponentSource, DepsError>)
        ensures
            match r {
                Ok(s) => classify_spec(
                    source@,
                    path_exists,
                    url_probe_of(source@),
                    pkg_ver_spec(source@),
                    opt_view(*digest),
                    opt_view(*registry),
                ) == Some(s@),
                Err(e) => classify_spec(
                    source@,
                    path_exists,
                    url_probe_of(source@),
                    pkg_ver_spec(source@),
                    opt_view(*digest),
                    opt_view(*registry),
                ) is None && (e is InvalidComponent),
            },
    {
        let parsed_url = url_probe(source.as_slice());
        let parsed_pkg = package_name_ver(source);
        classify_source(source, path_exists, parsed_url, parsed_pkg, digest, registry)
    }
}

/// What the digest of content is; SHA-256 is a function of the bytes alone.
pub uninterp spec fn sha256_of(data: Seq<u8>) -> Seq<u8>;

/// Relies on sha2's `Sha256` through the `Digest::digest` convenience: a
/// pure function of the input bytes, with a 32-byte output.
#[verifier::external_body]
fn sha256_digest(data: &Vec<u8>) -> (r: Vec<u8>)
    ensures
        r@ == sha256_of(data@),
        r@.len() == 32,
{
    let out = <sha2::Sha256 as sha2::Digest>::digest(data.as_slice());
    out.as_slice().to_vec()
}

/// The lower-case hex digit of a value below 16.
pub open spec fn hex_digit(n: u8) -> u8 {
    if n < 10 {
        (('0' as u8) + n) as u8
    } else {
        (('a' as u8) + (n - 10)) as u8
    }
}

/// The lower-case hex encoding of bytes: two digits per byte.
pub open spec fn hex_of(s: Seq<u8>) -> Seq<u8>
    decreases s.len(),
{
    if s.len() == 0 {
        Seq::<u8>::empty()
    } else {
        hex_of(s.drop_last()) + seq![hex_digit(s.last() / 16), hex_digit(s.last() % 16)]
    }
}

/// Hex-encodes bytes in lower case.
pub fn to_hex(v: &Vec<u8>) -> (r: Vec<u8>)
    ensures
        r@ == hex_of(v@),
{
    let mut out: Vec<u8> = Vec::new();
    let mut i: usize = 0;
    proof {
        assert(v@.subrange(0, 0) =~= Seq::<u8>::empty());
    }
    while i < v.len()
        invariant
            i <= v@.len(),
            out@ == hex_of(v@.subrange(0, i as int)),
        decreases v.len() - i,
    {
        let b = v[i];
        let hi = b / 16;
        let lo = b % 16;
        let c1: u8 = if hi < 10 {
            ('0' as u8) + hi
        } else {
            ('a' as u8) + (hi - 10)
        };
        let c2: u8 = if lo < 10 {
            ('0' as u8) + lo
        } else {
            ('a' as u8) + (lo - 10)
        };
        out.push(c1);
        out.push(c2);
        proof {
            let cur = v@.subrange(0, i + 1 as int);
            assert(cur.drop_last() =~= v@.subrange(0, i as int));
            assert(cur.last() == v@[i as int]);
            assert(out@ =~= hex_of(cur));
        }
        i += 1;
    }
    proof {
        assert(v@.subrange(0, v@.len() as int) =~= v@);
    }
    out
}

/// Computes the lower-case hex digest of content.
pub fn sha256_hex(data: &Vec<u8>) -> (r: Vec<u8>)
    ensures
        r@ == hex_of(sha256_of(data@)),
{
    let d = sha256_digest(data);
    to_hex(&d)
}

/// Verifies fetched content against its expected hex digest; on mismatch
/// the error carries the expected and the actual digest.
pub fn verify_component_digest(bytes: &Vec<u8>, expected_hex: &Vec<u8>) -> (r: Result<
    (),
    DepsError,
>)
    ensures
        match r {
            Ok(_) => hex_of(sha256_of(bytes@)) == expected_hex@,
            Err(e) => match e {
                DepsError::DigestMismatch { expected, actual } => expected@ == expected_hex@
                    && actual@ == hex_of(sha256_of(bytes@)) && actual@ != expected@,
                _ => false,
            },
        },
{
    let actual = sha256_hex(bytes);
    if crate::bytes::bytes_eq(actual.as_slice(), expected_hex.as_slice()) {
        Ok(())
    } else {
        Err(DepsError::DigestMismatch { expected: copy_bytes(expected_hex), actual })
    }
}

/// What is known about one release of a registry package, in version
/// order.
#[derive(Clone, Copy)]
pub struct ReleaseFacts {
    pub matches_req: bool,
    pub yanked: bool,
}

/// Picks the newest release that matches the version requirement and is
/// not yanked, given releases sorted oldest first.
pub fn pick_release(releases: &Vec<ReleaseFacts>) -> (r: Option<usize>)
    ensures
        match r {
            Some(i) => i < releases@.len() && releases@[i as int].matches_req
                && !releases@[i as int].yanked && forall|j: int|
                i < j < releases@.len() ==> !(releases@[j].matches_req && !releases@[j].yanked),
            None => forall|j: int|
                0 <= j < releases@.len() ==> !(releases@[j].matches_req && !releases@[j].yanked),
        },
{
    let mut i: usize = releases.len();
    while i > 0
        invariant
            i <= releases@.len(),
            forall|j: int|
                i <= j < releases@.len() ==> !(releases@[j].matches_req && !releases@[j].yanked),
        decreases i,
    {
        i -= 1;
        if releases[i].matches_req && !releases[i].yanked {
            return Some(i);
        }
    }
    None
}

/// The publish decision: a manually overridden package identity requires a
/// version; without an override the identity is inferred downstream.
pub fn resolve_publish_package(package: Option<(Vec<u8>, Option<Vec<u8>>)>) -> (r: Result<
    Option<(Vec<u8>, Vec<u8>)>,
    DepsError,
>)
    ensures
        match r {
            Ok(None) => opt_pkg_view(package) is None,
            Ok(Some(p)) => opt_pkg_view(package) == Some((p.0@, Some(p.1@))),
            Err(e) => (e is InvalidComponent) && (opt_pkg_view(package) matches Some(q)
                && q.1 is None),
        },
{
    match package {
        None => Ok(None),
        Some((p, Some(v))) => Ok(Some((p, v))),
        Some((p, None)) => Err(DepsError::InvalidComponent { detail: p }),
    }
}

} // verus!
