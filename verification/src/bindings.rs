//! Calls into sha2, ed25519-dalek, url and the parts of std that have no specification in vstd.
//! Each item states only what its source or documentation promises; the names below stand for
//! results whose full definition lies in those crates.
use ed25519_dalek::{Signature, VerifyingKey};
use sha2::{Digest, Sha256};
use url::Url;
use vstd::prelude::*;

verus! {

/// The SHA-256 digest of a byte sequence (FIPS 180-4), as computed by `sha2::Sha256`.
pub uninterp spec fn sha256_of(data: Seq<u8>) -> Seq<u8>;

/// Whether `ed25519_dalek::VerifyingKey::from_bytes` accepts these 32 bytes
/// (they decompress to an Edwards point).
pub uninterp spec fn ed25519_key_decodes(public_key: Seq<u8>) -> bool;

/// Whether `ed25519_dalek::VerifyingKey::verify_strict` accepts `signature` for `message`
/// under the key decoded from `public_key`.
pub uninterp spec fn ed25519_strict_verifies(
    public_key: Seq<u8>,
    message: Seq<u8>,
    signature: Seq<u8>,
) -> bool;

/// What `url::Url::parse` yields for an input: the components read back from the parsed URL,
/// or the text of the parse error.
pub uninterp spec fn url_parse(input: Seq<char>) -> Result<
    (
        Seq<char>,
        Option<Seq<char>>,
        Seq<char>,
        Option<Seq<char>>,
        Option<u16>,
        Option<Seq<char>>,
        Option<Seq<char>>,
        Seq<char>,
    ),
    Seq<char>,
>;

/// The serialisation of `base` after `url::form_urlencoded::Serializer::extend_pairs`
/// has appended `pairs` to its query, or the text of the error parsing `base`.
pub uninterp spec fn url_with_query_pairs(
    base: Seq<char>,
    pairs: Seq<(Seq<char>, Seq<char>)>,
) -> Result<Seq<char>, Seq<char>>;

/// `format!("{:?}", s)` for a string slice: the quoted, escaped rendering.
pub uninterp spec fn debug_str(s: Seq<char>) -> Seq<char>;

/// `str::to_lowercase`: Unicode lowercase mapping of every character.
pub uninterp spec fn unicode_lowercase(s: Seq<char>) -> Seq<char>;

/// `String::from_utf8_lossy`: the text of a byte sequence, each invalid UTF-8 sequence
/// replaced by U+FFFD.
pub uninterp spec fn utf8_lossy(bytes: Seq<u8>) -> Seq<char>;

/// A running SHA-256 computation: a `sha2::Sha256` (an alias of a deeply generic wrapper type)
/// held in a private field, fed through `Digest::update`; its contents are opaque.
#[verifier::external_body]
pub struct Sha256Stream {
    inner: Sha256,
}

/// The bytes fed so far into a running SHA-256 computation.
pub uninterp spec fn stream_absorbed(stream: Sha256Stream) -> Seq<u8>;

/// `Sha256::new`: a computation that has absorbed nothing.
#[verifier::external_body]
pub(crate) fn stream_start() -> (r: Sha256Stream)
    ensures
        stream_absorbed(r) == Seq::<u8>::empty(),
{
    Sha256Stream { inner: Sha256::new() }
}

/// `Digest::update`: absorbs `chunk` after what came before.
#[verifier::external_body]
pub(crate) fn stream_update(stream: &mut Sha256Stream, chunk: &[u8])
    ensures
        stream_absorbed(*final(stream)) == stream_absorbed(*old(stream)) + chunk@,
{
    stream.inner.update(chunk);
}

/// `Digest::finalize`: the SHA-256 digest of everything absorbed.
#[verifier::external_body]
pub(crate) fn stream_finish(stream: Sha256Stream) -> (digest: [u8; 32])
    ensures
        digest@ == sha256_of(stream_absorbed(stream)),
{
    stream.inner.finalize().into()
}

/// `std::time::SystemTime`, carried opaquely.
#[verifier::external_type_specification]
#[verifier::external_body]
pub struct ExSystemTime(std::time::SystemTime);

/// Components of a parsed URL, read back through `url::Url`'s accessors.
pub struct UrlParts {
    pub scheme: String,
    pub host: Option<String>,
    pub username: String,
    pub password: Option<String>,
    pub port: Option<u16>,
    pub query: Option<String>,
    pub fragment: Option<String>,
    pub path: String,
}

/// The view of an optional string.
pub open spec fn opt_view(o: Option<String>) -> Option<Seq<char>> {
    match o {
        Some(s) => Some(s@),
        None => None,
    }
}

impl View for UrlParts {
    type V = (
        Seq<char>,
        Option<Seq<char>>,
        Seq<char>,
        Option<Seq<char>>,
        Option<u16>,
        Option<Seq<char>>,
        Option<Seq<char>>,
        Seq<char>,
    );

    open spec fn view(&self) -> Self::V {
        (
            self.scheme@,
            opt_view(self.host),
            self.username@,
            opt_view(self.password),
            self.port,
            opt_view(self.query),
            opt_view(self.fragment),
            self.path@,
        )
    }
}

/// Outcome of `ed25519_dalek` strict verification.
pub enum SignatureCheck {
    /// `verify_strict` accepted the signature.
    Accepted,
    /// `VerifyingKey::from_bytes` refused the key; the text is the error's `Display`.
    KeyRejected(String),
    /// `verify_strict` refused the signature.
    SignatureRejected,
}

/// SHA-256 of `data` through `sha2::Sha256::digest`; the result is the 32-byte digest.
#[verifier::external_body]
pub(crate) fn sha256_digest(data: &[u8]) -> (digest: [u8; 32])
    ensures
        digest@ == sha256_of(data@),
{
    Sha256::digest(data).into()
}

/// Decodes `public_key` with `VerifyingKey::from_bytes` and checks `signature` over `message`
/// with `VerifyingKey::verify_strict` (the signature bytes go through `Signature::from_bytes`,
/// which cannot fail). The contract states which of the two steps refused; the error text of
/// a refused key is left unstated.
#[verifier::external_body]
pub(crate) fn ed25519_verify_strict(public_key: &[u8; 32], message: &[u8], signature: &[u8; 64]) -> (r:
    SignatureCheck)
    ensures
        (r is KeyRejected) == !ed25519_key_decodes(public_key@),
        (r is Accepted) == (ed25519_key_decodes(public_key@) && ed25519_strict_verifies(
            public_key@,
            message@,
            signature@,
        )),
{
    match VerifyingKey::from_bytes(public_key) {
        Err(error) => SignatureCheck::KeyRejected(error.to_string()),
        Ok(key) => match key.verify_strict(message, &Signature::from_bytes(signature)) {
            Ok(()) => SignatureCheck::Accepted,
            Err(_) => SignatureCheck::SignatureRejected,
        },
    }
}

/// `url::Url::parse`, with the parsed URL read back through `scheme`, `host_str`, `username`,
/// `password`, `port`, `query`, `fragment` and `path`, and a parse error turned into its text.
#[verifier::external_body]
pub(crate) fn parse_url(value: &str) -> (r: Result<UrlParts, String>)
    ensures
        match r {
            Ok(parts) => url_parse(value@) == Ok::<_, Seq<char>>(parts@),
            Err(text) => url_parse(value@) matches Err(e) && e == text@,
        },
{
    match Url::parse(value) {
        Ok(url) => Ok(UrlParts {
            scheme: url.scheme().to_string(),
            host: url.host_str().map(|host| host.to_string()),
            username: url.username().to_string(),
            password: url.password().map(|password| password.to_string()),
            port: url.port(),
            query: url.query().map(|query| query.to_string()),
            fragment: url.fragment().map(|fragment| fragment.to_string()),
            path: url.path().to_string(),
        }),
        Err(error) => Err(error.to_string()),
    }
}

/// Parses `base` with `url::Url::parse`, appends `pairs` through `query_pairs_mut().extend_pairs`
/// and returns the serialised URL, or the text of the parse error.
#[verifier::external_body]
pub(crate) fn url_with_query(base: &str, pairs: &[(&str, &str)]) -> (r: Result<String, String>)
    ensures
        match r {
            Ok(text) => url_with_query_pairs(
                base@,
                pairs@.map_values(|p: (&str, &str)| (p.0@, p.1@)),
            ) == Ok::<_, Seq<char>>(text@),
            Err(text) => url_with_query_pairs(
                base@,
                pairs@.map_values(|p: (&str, &str)| (p.0@, p.1@)),
            ) == Err::<Seq<char>, _>(text@),
        },
{
    let mut url = Url::parse(base).map_err(|error| error.to_string())?;
    url.query_pairs_mut().extend_pairs(pairs.iter().copied());
    Ok(url.to_string())
}

/// `String::from_utf8_lossy`, made owned. Its documentation states that valid UTF-8 comes
/// back unchanged; what replaces invalid sequences is left to the name.
#[verifier::external_body]
pub(crate) fn lossy_text(bytes: &[u8]) -> (r: String)
    ensures
        r@ == utf8_lossy(bytes@),
        vstd::utf8::valid_utf8(bytes@) ==> r@ == vstd::utf8::decode_utf8(bytes@),
{
    String::from_utf8_lossy(bytes).into_owned()
}

/// `SystemTime::now`: the wall clock; nothing is promised of it.
#[verifier::external_body]
pub(crate) fn system_time_now() -> std::time::SystemTime {
    std::time::SystemTime::now()
}

/// `SystemTime::duration_since(UNIX_EPOCH)`, `None` for a time before the epoch; nothing is
/// promised of the duration.
#[verifier::external_body]
pub(crate) fn since_unix_epoch(t: &std::time::SystemTime) -> Option<core::time::Duration> {
    t.duration_since(std::time::UNIX_EPOCH).ok()
}

/// `Duration::as_secs`: the whole seconds of a duration, which is opaque here.
#[verifier::external_body]
pub(crate) fn whole_seconds(d: &core::time::Duration) -> u64 {
    d.as_secs()
}

/// `format!("{:?}", s)`.
#[verifier::external_body]
pub(crate) fn debug_text(s: &str) -> (r: String)
    ensures
        r@ == debug_str(s@),
{
    format!("{:?}", s)
}

/// `str::to_lowercase`.
#[verifier::external_body]
pub(crate) fn lowercase_text(s: &str) -> (r: String)
    ensures
        r@ == unicode_lowercase(s@),
{
    s.to_lowercase()
}

} // verus!
