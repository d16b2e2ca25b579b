//! Signed client manifests: what a manifest must satisfy, how its signature is checked,
//! and the decisions that drive an install, update or repair.
use crate::bindings::{
    ed25519_key_decodes, ed25519_strict_verifies, ed25519_verify_strict, parse_url, sha256_digest,
    sha256_of, url_parse, SignatureCheck,
};
use crate::paths::{
    bytes_of, safe_client_path, unsafe_path_message, valid_realm_address, validate_realm_address,
    validate_windows_path,
};
use crate::text::{
    ascii_lower_seq, ascii_lowercase, chars_of, decimal, decimal_text, hex_lower, hex_text, join2,
    join3, owned, parse_u64, parse_u64_chars, split_once, split_once_chars, str_eq, strip_prefix,
    strip_prefix_chars, text_of, trim, trimmed,
};
use vstd::hash_set::StringHashSet;
use vstd::prelude::*;
use vstd::string::*;
use vstd::utf8::is_ascii_chars;

verus! {

/// Host that serves manifests and content-addressed objects.
pub const OBJECT_HOST: &'static str = "moba-data.nbg1.your-objectstorage.com";

/// Largest number of files a manifest may list.
pub const MAX_MANIFEST_FILES: usize = 100000;

/// One file of the managed client: relative path, size and lower-case hex SHA-256.
#[derive(Debug)]
pub struct FileEntry {
    pub path: String,
    /// The language pack the file belongs to (`Data/<locale>/` files of a schema-2 manifest).
    pub locale: Option<String>,
    pub size: u64,
    pub sha256: String,
}

/// The signed description of a client release.
#[derive(Debug)]
pub struct Manifest {
    pub schema_version: u32,
    /// The language packs a schema-2 manifest offers; empty for schema 1.
    pub locales: Vec<String>,
    pub sequence: u64,
    pub client_version: String,
    pub object_base_url: String,
    pub file_count: usize,
    pub total_size: u64,
    pub files: Vec<FileEntry>,
}

/// A validated manifest with the SHA-256 (lower-case hex) of its signed payload.
#[derive(Debug)]
pub struct LoadedManifest {
    pub manifest: Manifest,
    pub sha256: String,
}

/// The signed envelope: a JSON payload and its Ed25519 signature in hex.
#[derive(Debug)]
pub struct SignedDocument {
    pub schema_version: u32,
    pub payload: String,
    pub signature: String,
}

/// What the launcher records about the installed client.
#[derive(Debug)]
pub struct LocalState {
    pub schema_version: u32,
    pub sequence: u64,
    pub client_version: String,
    pub manifest_sha256: String,
}

impl FileEntry {
    /// A copy of this entry.
    pub fn copied(&self) -> (r: FileEntry)
        ensures
            r == *self,
    {
        let locale = match &self.locale {
            Some(l) => Some(l.clone()),
            None => None,
        };
        FileEntry { path: self.path.clone(), locale, size: self.size, sha256: self.sha256.clone() }
    }
}

/// The components of a URL as `url::Url` reports them.
pub type UrlView = (
    Seq<char>,
    Option<Seq<char>>,
    Seq<char>,
    Option<Seq<char>>,
    Option<u16>,
    Option<Seq<char>>,
    Option<Seq<char>>,
    Seq<char>,
);

/// An official object-storage URL: `https` on [`OBJECT_HOST`], without credentials, port,
/// query or fragment, and, when asked, with a path ending in `/`.
pub open spec fn official_url(u: UrlView, require_trailing_slash: bool) -> bool {
    &&& u.0 == "https"@
    &&& u.1 == Some(OBJECT_HOST@)
    &&& u.2.len() == 0
    &&& u.3 is None
    &&& u.4 is None
    &&& u.5 is None
    &&& u.6 is None
    &&& require_trailing_slash ==> (u.7.len() > 0 && u.7.last() == '/')
}

/// The outcome of checking a manifest or object URL.
pub open spec fn https_url_check(value: Seq<char>, require_trailing_slash: bool) -> Result<
    (),
    Seq<char>,
> {
    match url_parse(value) {
        Err(e) => Err("URL HTTPS invalide : "@ + e),
        Ok(u) => if official_url(u, require_trailing_slash) {
            Ok(())
        } else {
            Err("Le manifeste doit utiliser l’URL HTTPS officielle."@)
        },
    }
}

fn is_some_text(o: &Option<String>, expected: &str) -> (r: bool)
    ensures
        r == (crate::bindings::opt_view(*o) == Some(expected@)),
{
    match o {
        Some(s) => str_eq(s.as_str(), expected),
        None => false,
    }
}

/// Checks that a URL is an official HTTPS object-storage URL.
pub fn validate_https_url(value: &str, require_trailing_slash: bool) -> (r: Result<(), String>)
    ensures
        match r {
            Ok(()) => https_url_check(value@, require_trailing_slash) is Ok,
            Err(e) => https_url_check(value@, require_trailing_slash) == Err::<(), _>(e@),
        },
{
    let url = match parse_url(value) {
        Ok(url) => url,
        Err(error) => return Err(join2("URL HTTPS invalide : ", error.as_str())),
    };
    let ghost u = url@;
    let scheme_ok = str_eq(url.scheme.as_str(), "https");
    let host_ok = is_some_text(&url.host, OBJECT_HOST);
    let path = chars_of(url.path.as_str());
    let slash_ok = !require_trailing_slash || (path.len() > 0 && path[path.len() - 1] == '/');
    let no_user = url.username.as_str().is_empty();
    if !scheme_ok || !host_ok || !no_user || url.password.is_some() || url.port.is_some()
        || url.query.is_some() || url.fragment.is_some() || !slash_ok {
        return Err(owned("Le manifeste doit utiliser l’URL HTTPS officielle."));
    }
    Ok(())
}

/// A client version: 1 to 64 bytes of ASCII.
pub open spec fn client_version_ok(v: Seq<char>) -> bool {
    v.len() != 0 && bytes_of(v).len() <= 64 && is_ascii_chars(v)
}

/// Exactly 64 lower-case hexadecimal digits.
pub open spec fn lower_hex_sha256(b: Seq<u8>) -> bool {
    b.len() == 64 && forall|i: int| 0 <= i < b.len() ==> lower_hex_byte(#[trigger] b[i])
}

/// `0`-`9` or `a`-`f`.
pub open spec fn lower_hex_byte(b: u8) -> bool {
    (48 <= b && b <= 57) || (97 <= b && b <= 102)
}

/// The key under which a path is compared for duplicates: its ASCII lowercase form.
pub open spec fn path_key(path: Seq<char>) -> Seq<char> {
    ascii_lower_seq(path)
}

/// Whether an earlier entry than `files.last()` has the same path, ignoring ASCII case.
pub open spec fn duplicate_of_earlier(files: Seq<FileEntry>) -> bool {
    exists|j: int|
        0 <= j < files.len() - 1 && path_key(#[trigger] files[j].path@) == path_key(
            files.last().path@,
        )
}

/// Walks the entries in order; the first refused entry gives the error, otherwise the sum of
/// the sizes.
pub open spec fn files_scan(files: Seq<FileEntry>) -> Result<int, Seq<char>>
    decreases files.len(),
{
    if files.len() == 0 {
        Ok(0)
    } else {
        match files_scan(files.drop_last()) {
            Err(e) => Err(e),
            Ok(total) => {
                let e = files.last();
                if !safe_client_path(bytes_of(e.path@)) {
                    Err(unsafe_path_message(e.path@))
                } else if duplicate_of_earlier(files) {
                    Err("Chemin dupliqué sans tenir compte de la casse : "@ + e.path@)
                } else if !lower_hex_sha256(bytes_of(e.sha256@)) {
                    Err("SHA-256 invalide pour "@ + e.path@ + "."@)
                } else if total + e.size > u64::MAX {
                    Err("La taille totale du manifeste déborde."@)
                } else {
                    Ok(total + e.size)
                }
            },
        }
    }
}

/// Files every client release must contain, as lower-case relative paths.
pub open spec fn required_files() -> Seq<Seq<char>> {
    seq![
        "wow.exe"@,
        "d3d9.dll"@,
        "data/common.mpq"@,
        "data/patch-c.mpq"@,
        "data/patch-e.mpq"@,
        "data/patch-p.mpq"@,
        "data/patch-z.mpq"@,
        "data/frfr/locale-frfr.mpq"@,
    ]
}

/// Whether some entry's path, ignoring ASCII case, is `required`.
pub open spec fn lists_path(files: Seq<FileEntry>, required: Seq<char>) -> bool {
    exists|j: int| 0 <= j < files.len() && path_key(#[trigger] files[j].path@) == required
}

/// The first of the `required` keys, from index `k` on, that no entry lists.
pub open spec fn required_check(files: Seq<FileEntry>, required: Seq<Seq<char>>, k: int) -> Result<
    (),
    Seq<char>,
>
    decreases required.len() - k,
{
    if k >= required.len() || k < 0 {
        Ok(())
    } else if !lists_path(files, required[k]) {
        Err("Fichier client obligatoire absent : "@ + required[k])
    } else {
        required_check(files, required, k + 1)
    }
}

/// The language packs the launcher can install.
pub open spec fn supported_locale(l: Seq<char>) -> bool {
    l == "frFR"@ || l == "enUS"@
}

/// The names of the language packs a manifest offers.
pub open spec fn locale_names(m: Manifest) -> Seq<Seq<char>> {
    m.locales@.map_values(|s: String| s@)
}

/// The locales of a manifest of `schema`: none for schema 1; for schema 2 at least one,
/// each supported and listed once.
pub open spec fn locales_ok(schema: u32, locales: Seq<Seq<char>>) -> bool {
    if schema == 1 {
        locales.len() == 0
    } else {
        &&& locales.len() > 0
        &&& forall|i: int| 0 <= i < locales.len() ==> supported_locale(#[trigger] locales[i])
        &&& forall|i: int, j: int|
            0 <= i < j < locales.len() ==> #[trigger] locales[i] != #[trigger] locales[j]
    }
}

/// The folder of a language pack: `Data/<locale>/`.
pub open spec fn locale_dir(l: Seq<char>) -> Seq<char> {
    "Data/"@ + l + "/"@
}

/// Whether an entry's language tag agrees with its path: a tagged entry lies in the folder of
/// an offered locale; an untagged entry lies in none of them.
pub open spec fn entry_tag_ok(e: FileEntry, locales: Seq<Seq<char>>) -> bool {
    match e.locale {
        Some(l) => locales.contains(l@) && strip_prefix(e.path@, locale_dir(l@)) is Some,
        None => forall|i: int|
            0 <= i < locales.len() ==> strip_prefix(e.path@, locale_dir(#[trigger] locales[i])) is None,
    }
}

/// The first entry whose language tag disagrees with its path, as an error.
pub open spec fn tags_check(files: Seq<FileEntry>, locales: Seq<Seq<char>>) -> Result<(), Seq<char>>
    decreases files.len(),
{
    if files.len() == 0 {
        Ok(())
    } else {
        match tags_check(files.drop_last(), locales) {
            Err(e) => Err(e),
            Ok(()) => if entry_tag_ok(files.last(), locales) {
                Ok(())
            } else {
                Err("Langue de fichier incohérente : "@ + files.last().path@)
            },
        }
    }
}

/// The start and end of the names of a language pack's archives, around the locale name.
pub open spec fn archive_prefixes() -> Seq<Seq<char>> {
    seq![
        "backup-"@,
        "base-"@,
        "expansion-locale-"@,
        "expansion-speech-"@,
        "lichking-locale-"@,
        "lichking-speech-"@,
        "locale-"@,
        "patch-"@,
        "patch-"@,
        "patch-"@,
        "speech-"@,
    ]
}

/// See [`archive_prefixes`].
pub open spec fn archive_suffixes() -> Seq<Seq<char>> {
    seq![".MPQ"@, ".MPQ"@, ".MPQ"@, ".MPQ"@, ".MPQ"@, ".MPQ"@, ".MPQ"@, ".MPQ"@, "-2.MPQ"@, "-3.MPQ"@, ".MPQ"@]
}

/// The archives a language pack must contain: `Data/<l>/backup-<l>.MPQ` and the like.
pub open spec fn locale_paths(l: Seq<char>) -> Seq<Seq<char>> {
    Seq::new(11, |i: int| locale_dir(l) + archive_prefixes()[i] + l + archive_suffixes()[i])
}

/// The path keys of the archives a language pack must contain.
pub open spec fn locale_keys(l: Seq<char>) -> Seq<Seq<char>> {
    Seq::new(11, |i: int| path_key(locale_paths(l)[i]))
}

/// The path keys required by every offered language pack, pack after pack.
pub open spec fn locale_required(locales: Seq<Seq<char>>) -> Seq<Seq<char>>
    decreases locales.len(),
{
    if locales.len() == 0 {
        Seq::empty()
    } else {
        locale_required(locales.drop_last()) + locale_keys(locales.last())
    }
}

/// The path keys a manifest must list: for schema 2 the common files and every offered pack's
/// archives; for schema 1 the common files and the French locale archive.
pub open spec fn required_paths(m: Manifest) -> Seq<Seq<char>> {
    if m.schema_version == 2 {
        required_files().take(7) + locale_required(locale_names(m))
    } else {
        required_files()
    }
}

/// Everything a manifest must satisfy, checked in order; the first failure gives the error.
pub open spec fn manifest_check(m: Manifest) -> Result<(), Seq<char>> {
    if m.schema_version != 1 && m.schema_version != 2 {
        Err("Version de manifeste non prise en charge."@)
    } else if m.sequence == 0 {
        Err("La séquence du manifeste doit être positive."@)
    } else if !client_version_ok(m.client_version@) {
        Err("Version client invalide dans le manifeste."@)
    } else if !locales_ok(m.schema_version, locale_names(m)) {
        Err("Langues du manifeste invalides."@)
    } else if m.files@.len() == 0 || m.files@.len() > MAX_MANIFEST_FILES {
        Err("Nombre de fichiers invalide dans le manifeste."@)
    } else if m.file_count != m.files@.len() {
        Err("Le compteur de fichiers du manifeste est incohérent."@)
    } else if https_url_check(m.object_base_url@, true) is Err {
        https_url_check(m.object_base_url@, true)
    } else {
        match files_scan(m.files@) {
            Err(e) => Err(e),
            Ok(total) => if total != m.total_size {
                Err("La taille totale du manifeste est incohérente."@)
            } else {
                match tags_check(m.files@, locale_names(m)) {
                    Err(e) => Err(e),
                    Ok(()) => required_check(m.files@, required_paths(m), 0),
                }
            },
        }
    }
}

/// The set of path keys of the first `n` entries.
pub open spec fn keys_before(files: Seq<FileEntry>, n: int) -> Set<Seq<char>> {
    Set::new(|s: Seq<char>| exists|j: int| 0 <= j < n && path_key(#[trigger] files[j].path@) == s)
}

fn is_lower_hex_sha256(value: &str) -> (r: bool)
    ensures
        r == lower_hex_sha256(bytes_of(value@)),
{
    let b = value.as_bytes();
    if b.len() != 64 {
        return false;
    }
    let mut i: usize = 0;
    while i < b.len()
        invariant
            i <= b@.len(),
            b@ == bytes_of(value@),
            forall|j: int| 0 <= j < i ==> lower_hex_byte(#[trigger] b@[j]),
        decreases b.len() - i,
    {
        let c = b[i];
        if !((c >= 48 && c <= 57) || (c >= 97 && c <= 102)) {
            assert(!lower_hex_byte(b@[i as int]));
            return false;
        }
        i += 1;
    }
    true
}

fn key_of(path: &String) -> (r: String)
    ensures
        r@ == path_key(path@),
{
    let chars = chars_of(path.as_str());
    let lowered = ascii_lowercase(chars.as_slice());
    text_of(lowered.as_slice())
}

/// Once a prefix of the entries is refused, the whole list is refused with the same error.
proof fn lemma_scan_error_persists(files: Seq<FileEntry>, n: int)
    requires
        0 <= n <= files.len(),
        files_scan(files.take(n)) is Err,
    ensures
        files_scan(files) == files_scan(files.take(n)),
    decreases files.len() - n,
{
    if n < files.len() {
        lemma_files_scan_step(files, n);
        lemma_scan_error_persists(files, n + 1);
    } else {
        assert(files.take(n) == files);
    }
}

proof fn lemma_files_scan_step(files: Seq<FileEntry>, i: int)
    requires
        0 <= i < files.len(),
    ensures
        files.take(i + 1).drop_last() == files.take(i),
        files.take(i + 1).last() == files[i],
{
    assert(files.take(i + 1).drop_last() =~= files.take(i));
}

/// The checks made before the entries are walked.
pub open spec fn header_check(m: Manifest) -> Result<(), Seq<char>> {
    if m.schema_version != 1 && m.schema_version != 2 {
        Err("Version de manifeste non prise en charge."@)
    } else if m.sequence == 0 {
        Err("La séquence du manifeste doit être positive."@)
    } else if !client_version_ok(m.client_version@) {
        Err("Version client invalide dans le manifeste."@)
    } else if !locales_ok(m.schema_version, locale_names(m)) {
        Err("Langues du manifeste invalides."@)
    } else if m.files@.len() == 0 || m.files@.len() > MAX_MANIFEST_FILES {
        Err("Nombre de fichiers invalide dans le manifeste."@)
    } else if m.file_count != m.files@.len() {
        Err("Le compteur de fichiers du manifeste est incohérent."@)
    } else {
        https_url_check(m.object_base_url@, true)
    }
}

proof fn lemma_manifest_check_split(m: Manifest)
    ensures
        manifest_check(m) == (match header_check(m) {
            Err(e) => Err(e),
            Ok(()) => match files_scan(m.files@) {
                Err(e) => Err(e),
                Ok(total) => if total != m.total_size {
                    Err("La taille totale du manifeste est incohérente."@)
                } else {
                    match tags_check(m.files@, locale_names(m)) {
                        Err(e) => Err(e),
                        Ok(()) => required_check(m.files@, required_paths(m), 0),
                    }
                },
            },
        }),
{
}

fn check_locales(m: &Manifest) -> (r: bool)
    ensures
        r == locales_ok(m.schema_version, locale_names(*m)),
{
    let ls = &m.locales;
    let ghost v = locale_names(*m);
    if m.schema_version == 1 {
        return ls.len() == 0;
    }
    if ls.len() == 0 {
        return false;
    }
    let mut i: usize = 0;
    while i < ls.len()
        invariant
            i <= ls@.len(),
            ls@ == m.locales@,
            v == locale_names(*m),
            m.schema_version != 1,
            forall|k: int| 0 <= k < i ==> supported_locale(#[trigger] v[k]),
            forall|a: int, b: int| 0 <= a < b < i ==> #[trigger] v[a] != #[trigger] v[b],
        decreases ls.len() - i,
    {
        assert(v[i as int] == ls@[i as int]@);
        if !(str_eq(ls[i].as_str(), "frFR") || str_eq(ls[i].as_str(), "enUS")) {
            return false;
        }
        let mut j: usize = 0;
        while j < i
            invariant
                j <= i < ls@.len(),
                ls@ == m.locales@,
                v == locale_names(*m),
                forall|k: int| 0 <= k < j ==> v[k] != v[i as int],
            decreases i - j,
        {
            assert(v[j as int] == ls@[j as int]@);
            if str_eq(ls[j].as_str(), ls[i].as_str()) {
                assert(v[j as int] == v[i as int]);
                return false;
            }
            j += 1;
        }
        i += 1;
    }
    true
}

fn check_header(m: &Manifest) -> (r: Result<(), String>)
    ensures
        match r {
            Ok(()) => header_check(*m) is Ok,
            Err(e) => header_check(*m) == Err::<(), _>(e@),
        },
{
    if m.schema_version != 1 && m.schema_version != 2 {
        return Err(owned("Version de manifeste non prise en charge."));
    }
    if m.sequence == 0 {
        return Err(owned("La séquence du manifeste doit être positive."));
    }
    let cv = m.client_version.as_str();
    if cv.is_empty() || cv.as_bytes().len() > 64 || !cv.is_ascii() {
        return Err(owned("Version client invalide dans le manifeste."));
    }
    if !check_locales(m) {
        return Err(owned("Langues du manifeste invalides."));
    }
    if m.files.len() == 0 || m.files.len() > MAX_MANIFEST_FILES {
        return Err(owned("Nombre de fichiers invalide dans le manifeste."));
    }
    if m.file_count != m.files.len() {
        return Err(owned("Le compteur de fichiers du manifeste est incohérent."));
    }
    validate_https_url(m.object_base_url.as_str(), true)
}

proof fn lemma_keys_extend(files: Seq<FileEntry>, i: int, old_keys: Set<Seq<char>>, k: Seq<char>)
    requires
        0 <= i < files.len(),
        old_keys == keys_before(files, i),
        k == path_key(files[i].path@),
    ensures
        old_keys.insert(k) == keys_before(files, i + 1),
{
    assert forall|s: Seq<char>| keys_before(files, i + 1).contains(s) implies old_keys.insert(
        k,
    ).contains(s) by {
        let j = choose|j: int| 0 <= j < i + 1 && path_key(#[trigger] files[j].path@) == s;
        if j < i {
            assert(keys_before(files, i).contains(s));
        }
    }
    assert forall|s: Seq<char>| old_keys.insert(k).contains(s) implies keys_before(
        files,
        i + 1,
    ).contains(s) by {
        if s != k {
            let j = choose|j: int| 0 <= j < i && path_key(#[trigger] files[j].path@) == s;
            assert(0 <= j < i + 1);
        } else {
            assert(path_key(files[i].path@) == s);
        }
    }
    assert(old_keys.insert(k) =~= keys_before(files, i + 1));
}

proof fn lemma_duplicate_iff(files: Seq<FileEntry>, i: int, k: Seq<char>)
    requires
        0 <= i < files.len(),
        k == path_key(files[i].path@),
    ensures
        duplicate_of_earlier(files.take(i + 1)) == keys_before(files, i).contains(k),
{
    let prefix = files.take(i + 1);
    if duplicate_of_earlier(prefix) {
        let j = choose|j: int|
            0 <= j < prefix.len() - 1 && path_key(#[trigger] prefix[j].path@) == path_key(
                prefix.last().path@,
            );
        assert(prefix[j] == files[j]);
        assert(keys_before(files, i).contains(k));
    }
    if keys_before(files, i).contains(k) {
        let j = choose|j: int| 0 <= j < i && path_key(#[trigger] files[j].path@) == k;
        assert(prefix[j] == files[j]);
        assert(duplicate_of_earlier(prefix));
    }
}

/// Walks the entries: path rules, case-insensitive duplicates, digests and the size total.
fn scan_entries(files: &Vec<FileEntry>) -> (r: Result<(u64, StringHashSet), String>)
    ensures
        match r {
            Ok((total, keys)) => files_scan(files@) == Ok::<int, Seq<char>>(total as int)
                && keys@ == keys_before(files@, files@.len() as int),
            Err(e) => files_scan(files@) == Err::<int, _>(e@),
        },
{
    let mut paths = StringHashSet::new();
    let mut total: u64 = 0;
    let mut i: usize = 0;
    assert(paths@ =~= keys_before(files@, 0));
    assert(files@.take(0) =~= Seq::<FileEntry>::empty());
    while i < files.len()
        invariant
            i <= files@.len(),
            files_scan(files@.take(i as int)) == Ok::<int, Seq<char>>(total as int),
            paths@ == keys_before(files@, i as int),
        decreases files@.len() - i,
    {
        let entry = &files[i];
        proof {
            lemma_files_scan_step(files@, i as int);
        }
        match validate_windows_path(entry.path.as_str()) {
            Err(e) => {
                proof {
                    lemma_scan_error_persists(files@, i + 1);
                }
                return Err(e);
            },
            Ok(()) => {},
        }
        let key = key_of(&entry.path);
        let ghost k = key@;
        let ghost old_keys = paths@;
        proof {
            lemma_duplicate_iff(files@, i as int, k);
        }
        if !paths.insert(key) {
            proof {
                lemma_scan_error_persists(files@, i + 1);
            }
            return Err(
                join2("Chemin dupliqué sans tenir compte de la casse : ", entry.path.as_str()),
            );
        }
        if !is_lower_hex_sha256(entry.sha256.as_str()) {
            proof {
                lemma_scan_error_persists(files@, i + 1);
            }
            return Err(join3("SHA-256 invalide pour ", entry.path.as_str(), "."));
        }
        match total.checked_add(entry.size) {
            None => {
                proof {
                    lemma_scan_error_persists(files@, i + 1);
                }
                return Err(owned("La taille totale du manifeste déborde."));
            },
            Some(sum) => {
                total = sum;
            },
        }
        proof {
            lemma_keys_extend(files@, i as int, old_keys, k);
        }
        i += 1;
    }
    assert(files@.take(files@.len() as int) == files@);
    Ok((total, paths))
}

fn locale_dir_text(l: &str) -> (r: String)
    ensures
        r@ == locale_dir(l@),
{
    join3("Data/", l, "/")
}

fn offers_locale(locales: &Vec<String>, l: &str) -> (r: bool)
    ensures
        r == locales@.map_values(|s: String| s@).contains(l@),
{
    let ghost v = locales@.map_values(|s: String| s@);
    let mut i: usize = 0;
    while i < locales.len()
        invariant
            i <= locales@.len(),
            v == locales@.map_values(|s: String| s@),
            forall|k: int| 0 <= k < i ==> v[k] != l@,
        decreases locales.len() - i,
    {
        assert(v[i as int] == locales@[i as int]@);
        if str_eq(locales[i].as_str(), l) {
            assert(v[i as int] == l@);
            return true;
        }
        i += 1;
    }
    false
}

fn tag_ok(e: &FileEntry, locales: &Vec<String>) -> (r: bool)
    ensures
        r == entry_tag_ok(*e, locales@.map_values(|s: String| s@)),
{
    let ghost v = locales@.map_values(|s: String| s@);
    let path = chars_of(e.path.as_str());
    match &e.locale {
        Some(l) => {
            if !offers_locale(locales, l.as_str()) {
                return false;
            }
            let dir = locale_dir_text(l.as_str());
            strip_prefix_chars(path.as_slice(), dir.as_str()).is_some()
        },
        None => {
            let mut i: usize = 0;
            while i < locales.len()
                invariant
                    i <= locales@.len(),
                    v == locales@.map_values(|s: String| s@),
                    path@ == e.path@,
                    e.locale is None,
                    forall|k: int| 0 <= k < i ==> strip_prefix(e.path@, locale_dir(#[trigger] v[k])) is None,
                decreases locales.len() - i,
            {
                assert(v[i as int] == locales@[i as int]@);
                let dir = locale_dir_text(locales[i].as_str());
                if strip_prefix_chars(path.as_slice(), dir.as_str()).is_some() {
                    assert(strip_prefix(e.path@, locale_dir(v[i as int])) is Some);
                    return false;
                }
                i += 1;
            }
            true
        },
    }
}

proof fn lemma_tags_error_persists(files: Seq<FileEntry>, locales: Seq<Seq<char>>, n: int)
    requires
        0 <= n <= files.len(),
        tags_check(files.take(n), locales) is Err,
    ensures
        tags_check(files, locales) == tags_check(files.take(n), locales),
    decreases files.len() - n,
{
    if n < files.len() {
        assert(files.take(n + 1).drop_last() =~= files.take(n));
        lemma_tags_error_persists(files, locales, n + 1);
    } else {
        assert(files.take(n) =~= files);
    }
}

/// Checks, in order, that every entry's language tag agrees with its path.
fn check_tags(files: &Vec<FileEntry>, locales: &Vec<String>) -> (r: Result<(), String>)
    ensures
        match r {
            Ok(()) => tags_check(files@, locales@.map_values(|s: String| s@)) is Ok,
            Err(e) => tags_check(files@, locales@.map_values(|s: String| s@)) == Err::<(), _>(e@),
        },
{
    let ghost v = locales@.map_values(|s: String| s@);
    let mut i: usize = 0;
    assert(files@.take(0) =~= Seq::<FileEntry>::empty());
    while i < files.len()
        invariant
            i <= files@.len(),
            v == locales@.map_values(|s: String| s@),
            tags_check(files@.take(i as int), v) is Ok,
        decreases files.len() - i,
    {
        assert(files@.take(i + 1).drop_last() =~= files@.take(i as int));
        assert(files@.take(i + 1).last() == files@[i as int]);
        if !tag_ok(&files[i], locales) {
            proof {
                lemma_tags_error_persists(files@, v, i + 1);
            }
            return Err(join2("Langue de fichier incohérente : ", files[i].path.as_str()));
        }
        i += 1;
    }
    assert(files@.take(files@.len() as int) =~= files@);
    Ok(())
}

/// The archives language pack `locale` must contain, as relative client paths.
pub fn locale_required_files(locale: &str) -> (r: Vec<String>)
    ensures
        r@.map_values(|s: String| s@) == locale_paths(locale@),
{
    let prefixes: [&str; 11] = [
        "backup-",
        "base-",
        "expansion-locale-",
        "expansion-speech-",
        "lichking-locale-",
        "lichking-speech-",
        "locale-",
        "patch-",
        "patch-",
        "patch-",
        "speech-",
    ];
    let suffixes: [&str; 11] = [
        ".MPQ",
        ".MPQ",
        ".MPQ",
        ".MPQ",
        ".MPQ",
        ".MPQ",
        ".MPQ",
        ".MPQ",
        "-2.MPQ",
        "-3.MPQ",
        ".MPQ",
    ];
    assert(prefixes@.map_values(|s: &str| s@) =~= archive_prefixes());
    assert(suffixes@.map_values(|s: &str| s@) =~= archive_suffixes());
    let mut r: Vec<String> = Vec::new();
    let mut i: usize = 0;
    while i < 11
        invariant
            i <= 11,
            prefixes@.map_values(|s: &str| s@) == archive_prefixes(),
            suffixes@.map_values(|s: &str| s@) == archive_suffixes(),
            r@.map_values(|s: String| s@) == locale_paths(locale@).take(i as int),
        decreases 11 - i,
    {
        assert(prefixes@[i as int]@ == archive_prefixes()[i as int]);
        assert(suffixes@[i as int]@ == archive_suffixes()[i as int]);
        let mut full = locale_dir_text(locale);
        full.append(prefixes[i]);
        full.append(locale);
        full.append(suffixes[i]);
        assert(full@ == locale_paths(locale@)[i as int]);
        let ghost before = r@.map_values(|s: String| s@);
        let ghost fv = full@;
        r.push(full);
        assert(r@.map_values(|s: String| s@) =~= before.push(fv));
        assert(locale_paths(locale@).take(i + 1) =~= locale_paths(locale@).take(i as int).push(
            locale_paths(locale@)[i as int],
        ));
        i += 1;
    }
    assert(locale_paths(locale@).take(11) =~= locale_paths(locale@));
    r
}

/// The path keys of the archives of language pack `l`.
fn locale_key_list(l: &str) -> (r: Vec<String>)
    ensures
        r@.map_values(|s: String| s@) == locale_keys(l@),
{
    let paths = locale_required_files(l);
    assert(paths@.len() == paths@.map_values(|s: String| s@).len());
    let mut r: Vec<String> = Vec::new();
    let mut i: usize = 0;
    while i < paths.len()
        invariant
            i <= paths@.len(),
            paths@.len() == 11,
            paths@.map_values(|s: String| s@) == locale_paths(l@),
            r@.map_values(|s: String| s@) == locale_keys(l@).take(i as int),
        decreases paths.len() - i,
    {
        assert(paths@[i as int]@ == locale_paths(l@)[i as int]);
        let key = key_of(&paths[i]);
        let ghost before = r@.map_values(|s: String| s@);
        let ghost kv = key@;
        r.push(key);
        assert(r@.map_values(|s: String| s@) =~= before.push(kv));
        assert(locale_keys(l@).take(i + 1) =~= locale_keys(l@).take(i as int).push(
            locale_keys(l@)[i as int],
        ));
        i += 1;
    }
    assert(locale_keys(l@).take(11) =~= locale_keys(l@));
    r
}

/// The path keys the manifest must list.
fn required_key_list(m: &Manifest) -> (r: Vec<String>)
    ensures
        r@.map_values(|s: String| s@) == required_paths(*m),
{
    let common: [&str; 8] = [
        "wow.exe",
        "d3d9.dll",
        "data/common.mpq",
        "data/patch-c.mpq",
        "data/patch-e.mpq",
        "data/patch-p.mpq",
        "data/patch-z.mpq",
        "data/frfr/locale-frfr.mpq",
    ];
    assert(common@.map_values(|s: &str| s@) =~= required_files());
    let n: usize = if m.schema_version == 2 {
        7
    } else {
        8
    };
    let mut r: Vec<String> = Vec::new();
    let mut i: usize = 0;
    while i < n
        invariant
            i <= n <= 8,
            common@.map_values(|s: &str| s@) == required_files(),
            r@.map_values(|s: String| s@) == required_files().take(i as int),
        decreases n - i,
    {
        assert(common@[i as int]@ == required_files()[i as int]);
        let item = owned(common[i]);
        let ghost before = r@.map_values(|s: String| s@);
        let ghost iv = item@;
        r.push(item);
        assert(r@.map_values(|s: String| s@) =~= before.push(iv));
        assert(required_files().take(i + 1) =~= required_files().take(i as int).push(
            required_files()[i as int],
        ));
        i += 1;
    }
    if m.schema_version != 2 {
        assert(required_files().take(8) =~= required_files());
        return r;
    }
    let ghost ls = locale_names(*m);
    let ghost base = required_files().take(7);
    let mut k: usize = 0;
    assert(base + locale_required(ls.take(0)) =~= base) by {
        assert(ls.take(0) =~= Seq::<Seq<char>>::empty());
    }
    while k < m.locales.len()
        invariant
            k <= m.locales@.len(),
            ls == locale_names(*m),
            r@.map_values(|s: String| s@) == base + locale_required(ls.take(k as int)),
        decreases m.locales.len() - k,
    {
        assert(ls.take(k + 1).drop_last() =~= ls.take(k as int));
        assert(ls.take(k + 1).last() == m.locales@[k as int]@);
        let keys = locale_key_list(m.locales[k].as_str());
        let ghost before = r@.map_values(|s: String| s@);
        let mut j: usize = 0;
        while j < keys.len()
            invariant
                j <= keys@.len(),
                k < m.locales@.len(),
                keys@.map_values(|s: String| s@) == locale_keys(m.locales@[k as int]@),
                r@.map_values(|s: String| s@) == before + keys@.map_values(|s: String| s@).take(
                    j as int,
                ),
            decreases keys.len() - j,
        {
            let item = owned(keys[j].as_str());
            let ghost prev = r@.map_values(|s: String| s@);
            let ghost iv = item@;
            r.push(item);
            assert(r@.map_values(|s: String| s@) =~= prev.push(iv));
            assert(iv == keys@.map_values(|s: String| s@)[j as int]);
            assert(keys@.map_values(|s: String| s@).take(j + 1) =~= keys@.map_values(
                |s: String| s@,
            ).take(j as int).push(iv));
            assert(r@.map_values(|s: String| s@) =~= before + keys@.map_values(|s: String| s@).take(
                j + 1,
            ));
            j += 1;
        }
        assert(keys@.map_values(|s: String| s@).take(keys@.len() as int) =~= keys@.map_values(
            |s: String| s@,
        ));
        assert(r@.map_values(|s: String| s@) =~= base + locale_required(ls.take(k + 1)));
        k += 1;
    }
    assert(ls.take(m.locales@.len() as int) =~= ls);
    r
}

/// Checks, in order, that every required key is listed.
fn check_required(files: &Vec<FileEntry>, paths: &StringHashSet, required: &Vec<String>) -> (r:
    Result<(), String>)
    requires
        paths@ == keys_before(files@, files@.len() as int),
    ensures
        match r {
            Ok(()) => required_check(files@, required@.map_values(|s: String| s@), 0) is Ok,
            Err(e) => required_check(files@, required@.map_values(|s: String| s@), 0) == Err::<
                (),
                _,
            >(e@),
        },
{
    let ghost req = required@.map_values(|s: String| s@);
    let mut k: usize = 0;
    while k < required.len()
        invariant
            paths@ == keys_before(files@, files@.len() as int),
            req == required@.map_values(|s: String| s@),
            k <= required@.len(),
            required_check(files@, req, 0) == required_check(files@, req, k as int),
        decreases required.len() - k,
    {
        let name = required[k].as_str();
        assert(name@ == req[k as int]);
        if !paths.contains(name) {
            proof {
                if lists_path(files@, name@) {
                    let j = choose|j: int|
                        0 <= j < files@.len() && path_key(#[trigger] files@[j].path@) == name@;
                    assert(keys_before(files@, files@.len() as int).contains(name@));
                }
            }
            return Err(join2("Fichier client obligatoire absent : ", name));
        }
        proof {
            let j = choose|j: int|
                0 <= j < files@.len() && path_key(#[trigger] files@[j].path@) == name@;
            assert(lists_path(files@, name@));
        }
        k += 1;
    }
    Ok(())
}

impl Manifest {
    /// Checks a decoded manifest before anything is downloaded or written.
    pub fn validate(&self) -> (r: Result<(), String>)
        ensures
            match r {
                Ok(()) => manifest_check(*self) is Ok,
                Err(e) => manifest_check(*self) == Err::<(), _>(e@),
            },
            r is Ok ==> (url_parse(self.object_base_url@) matches Ok(u) && u.0 == "https"@ && u.1
                == Some(OBJECT_HOST@) && u.2.len() == 0 && u.3 is None && u.4 is None && u.5 is None
                && u.6 is None && u.7.len() > 0 && u.7.last() == '/'),
    {
        proof {
            lemma_manifest_check_split(*self);
        }
        check_header(self)?;
        let (total, paths) = scan_entries(&self.files)?;
        if total != self.total_size {
            return Err(owned("La taille totale du manifeste est incohérente."));
        }
        check_tags(&self.files, &self.locales)?;
        let required = required_key_list(self);
        let r = check_required(&self.files, &paths, &required);
        proof {
            if r is Ok {
                accepted_manifests_use_the_official_object_base(*self);
            }
        }
        r
    }
}

/// Largest signed manifest document accepted, in bytes.
pub const MAX_SIGNED_MANIFEST_SIZE: u64 = 16777216;

/// Number of attempts for one manifest or object request.
pub const HTTP_ATTEMPTS: u32 = 4;

/// The value of a lower-case hexadecimal digit.
pub open spec fn hex_value(b: u8) -> int {
    if b <= 57 {
        b - 48
    } else {
        b - 87
    }
}

/// The bytes written by a run of lower-case hexadecimal digit pairs.
pub open spec fn hex_bytes(b: Seq<u8>) -> Seq<u8> {
    Seq::new(b.len() / 2, |i: int| (hex_value(b[2 * i]) * 16 + hex_value(b[2 * i + 1])) as u8)
}

/// Whether `b` is exactly `2 * n` lower-case hexadecimal digits.
pub open spec fn hex_of_length(b: Seq<u8>, n: nat) -> bool {
    b.len() == 2 * n && forall|i: int| 0 <= i < b.len() ==> lower_hex_byte(#[trigger] b[i])
}

/// Decodes exactly `N` bytes written as `2 * N` lower-case hexadecimal digits; `name` names
/// the value in the error.
pub fn decode_hex<const N: usize>(value: &str, name: &str) -> (r: Result<[u8; N], String>)
    requires
        N <= usize::MAX / 2,
    ensures
        match r {
            Ok(bytes) => hex_of_length(bytes_of(value@), N as nat) && bytes@ == hex_bytes(
                bytes_of(value@),
            ),
            Err(e) => !hex_of_length(bytes_of(value@), N as nat) && e@ == name@
                + " hexadécimale invalide."@,
        },
{
    let b = value.as_bytes();
    if b.len() != N * 2 {
        return Err(join2(name, " hexadécimale invalide."));
    }
    let mut i: usize = 0;
    while i < b.len()
        invariant
            i <= b@.len(),
            b@ == bytes_of(value@),
            forall|j: int| 0 <= j < i ==> lower_hex_byte(#[trigger] b@[j]),
        decreases b.len() - i,
    {
        let c = b[i];
        if !((c >= 48 && c <= 57) || (c >= 97 && c <= 102)) {
            assert(!lower_hex_byte(b@[i as int]));
            return Err(join2(name, " hexadécimale invalide."));
        }
        i += 1;
    }
    let mut result = [0u8; N];
    let mut k: usize = 0;
    while k < N
        invariant
            k <= N,
            N <= usize::MAX / 2,
            b@ == bytes_of(value@),
            b@.len() == 2 * N,
            forall|j: int| 0 <= j < b@.len() ==> lower_hex_byte(#[trigger] b@[j]),
            forall|j: int| 0 <= j < k ==> result@[j] == hex_bytes(b@)[j],
        decreases N - k,
    {
        let hi = b[2 * k];
        let lo = b[2 * k + 1];
        assert(lower_hex_byte(b@[2 * k as int]) && lower_hex_byte(b@[2 * k + 1]));
        let h = if hi <= 57 { hi - 48 } else { hi - 87 };
        let l = if lo <= 57 { lo - 48 } else { lo - 87 };
        result[k] = h * 16 + l;
        k += 1;
    }
    assert(result@ =~= hex_bytes(b@));
    Ok(result)
}

/// Decodes the embedded 32-byte Ed25519 public key written in hex, around optional white space.
pub fn public_key(key_hex: &str) -> (r: Result<[u8; 32], String>)
    ensures
        match r {
            Ok(key) => hex_of_length(bytes_of(trim(key_hex@)), 32) && key@ == hex_bytes(
                bytes_of(trim(key_hex@)),
            ),
            Err(e) => !hex_of_length(bytes_of(trim(key_hex@)), 32) && e@
                == "clé publique hexadécimale invalide."@,
        },
{
    let chars = chars_of(key_hex);
    let t = text_of(trimmed(chars.as_slice()).as_slice());
    proof {
        reveal_strlit("clé publique");
        reveal_strlit(" hexadécimale invalide.");
        reveal_strlit("clé publique hexadécimale invalide.");
        assert("clé publique"@ + " hexadécimale invalide."@ =~= "clé publique hexadécimale invalide."@);
    }
    decode_hex::<32>(t.as_str(), "clé publique")
}

/// The lower-case hexadecimal SHA-256 of some bytes.
pub open spec fn sha256_hex_spec(data: Seq<u8>) -> Seq<char> {
    hex_lower(sha256_of(data))
}

/// Lower-case hexadecimal SHA-256 of some bytes.
pub fn sha256_bytes(data: &[u8]) -> (r: String)
    ensures
        r@ == sha256_hex_spec(data@),
        r@.len() == 64,
{
    let digest = sha256_digest(data);
    hex_text(digest.as_slice())
}

/// The outcome of authenticating a signed document whose envelope decoded to `envelope`
/// (or failed to decode with the given text).
pub open spec fn signed_payload(
    document_len: u64,
    envelope: Result<(u32, Seq<char>, Seq<char>), Seq<char>>,
    public_key: Seq<u8>,
) -> Result<Seq<char>, Seq<char>> {
    if document_len > MAX_SIGNED_MANIFEST_SIZE {
        Err("Le manifeste signé est trop volumineux."@)
    } else {
        match envelope {
            Err(e) => Err("Enveloppe signée invalide : "@ + e),
            Ok((schema, payload, signature)) => if schema != 1 {
                Err("Version d’enveloppe signée non prise en charge."@)
            } else if !hex_of_length(bytes_of(signature), 64) {
                Err("signature hexadécimale invalide."@)
            } else if !ed25519_key_decodes(public_key) {
                Err("Clé publique invalide : "@)
            } else if !ed25519_strict_verifies(
                public_key,
                bytes_of(payload),
                hex_bytes(bytes_of(signature)),
            ) {
                Err("Signature du document invalide."@)
            } else {
                Ok(payload)
            },
        }
    }
}

/// The view of a decoded envelope.
pub open spec fn envelope_view(envelope: Result<SignedDocument, String>) -> Result<
    (u32, Seq<char>, Seq<char>),
    Seq<char>,
> {
    match envelope {
        Ok(d) => Ok((d.schema_version, d.payload@, d.signature@)),
        Err(e) => Err(e@),
    }
}

/// Authenticates a signed document of `document_len` bytes whose JSON envelope decoded to
/// `envelope`: size limit, envelope version, signature hex and strict Ed25519 verification of
/// the payload. Returns the authenticated payload.
pub fn verify_signed_document(
    document_len: u64,
    envelope: Result<SignedDocument, String>,
    public_key: &[u8; 32],
) -> (r: Result<String, String>)
    ensures
        match r {
            Ok(payload) => signed_payload(document_len, envelope_view(envelope), public_key@)
                == Ok::<_, Seq<char>>(payload@),
            Err(e) => match signed_payload(document_len, envelope_view(envelope), public_key@) {
                Ok(_) => false,
                Err(expected) => if expected == "Clé publique invalide : "@ {
                    e@.len() >= expected.len() && e@.take(expected.len() as int) == expected
                } else {
                    e@ == expected
                },
            },
        },
{
    if document_len > MAX_SIGNED_MANIFEST_SIZE {
        return Err(owned("Le manifeste signé est trop volumineux."));
    }
    let signed = match envelope {
        Err(error) => return Err(join2("Enveloppe signée invalide : ", error.as_str())),
        Ok(signed) => signed,
    };
    if signed.schema_version != 1 {
        return Err(owned("Version d’enveloppe signée non prise en charge."));
    }
    proof {
        reveal_strlit("signature");
        reveal_strlit(" hexadécimale invalide.");
        reveal_strlit("signature hexadécimale invalide.");
        reveal_strlit("Clé publique invalide : ");
        assert("signature"@ + " hexadécimale invalide."@ =~= "signature hexadécimale invalide."@);
        assert("signature hexadécimale invalide."@ != "Clé publique invalide : "@);
    }
    let signature = decode_hex::<64>(signed.signature.as_str(), "signature")?;
    let payload_bytes = signed.payload.as_str().as_bytes();
    match ed25519_verify_strict(public_key, payload_bytes, &signature) {
        SignatureCheck::KeyRejected(text) => {
            let e = join2("Clé publique invalide : ", text.as_str());
            assert(e@.take("Clé publique invalide : "@.len() as int) =~= "Clé publique invalide : "@);
            assert("Clé publique invalide : "@ != "Signature du document invalide."@) by {
                reveal_strlit("Clé publique invalide : ");
                reveal_strlit("Signature du document invalide.");
            }
            Err(e)
        },
        SignatureCheck::SignatureRejected => {
            assert("Clé publique invalide : "@ != "Signature du document invalide."@) by {
                reveal_strlit("Clé publique invalide : ");
                reveal_strlit("Signature du document invalide.");
            }
            Err(owned("Signature du document invalide."))
        },
        SignatureCheck::Accepted => Ok(signed.payload),
    }
}

/// Accepts an authenticated payload once it has been decoded to `parsed` (or failed to decode
/// with the given text): the manifest must pass [`Manifest::validate`], and the result records the
/// SHA-256 of the payload.
pub fn accept_manifest(payload: &str, parsed: Result<Manifest, String>) -> (r: Result<
    LoadedManifest,
    String,
>)
    ensures
        match parsed {
            Err(e) => r matches Err(m) && m@ == "Manifeste JSON invalide : "@ + e@,
            Ok(m) => match r {
                Ok(loaded) => manifest_check(m) is Ok && loaded.manifest == m && loaded.sha256@
                    == sha256_hex_spec(bytes_of(payload@)),
                Err(e) => manifest_check(m) == Err::<(), _>(e@),
            },
        },
{
    let manifest = match parsed {
        Err(error) => return Err(join2("Manifeste JSON invalide : ", error.as_str())),
        Ok(manifest) => manifest,
    };
    manifest.validate()?;
    let sha256 = sha256_bytes(payload.as_bytes());
    Ok(LoadedManifest { manifest, sha256 })
}

/// Where the client stands before or after comparing it with the signed manifest.
#[derive(Clone, Copy, Debug, PartialEq, Eq, Structural)]
pub enum ClientState {
    InstallRequired,
    UpdateAvailable,
    Incomplete,
    Ready,
}

/// What the interface shows about the client folder.
#[derive(Debug)]
pub struct ClientStatus {
    pub state: ClientState,
    pub can_launch: bool,
    pub local_version: Option<String>,
    pub remote_version: Option<String>,
}

/// The version recorded by a readable local state of the current schema.
pub open spec fn recorded_version(state: Option<LocalState>) -> Option<Seq<char>> {
    match state {
        Some(s) => if s.schema_version == 1 {
            Some(s.client_version@)
        } else {
            None
        },
        None => None,
    }
}

fn recorded_version_of(state: &Option<LocalState>) -> (r: Option<String>)
    ensures
        crate::bindings::opt_view(r) == recorded_version(*state),
{
    match state {
        Some(s) => if s.schema_version == 1 {
            Some(s.client_version.clone())
        } else {
            None
        },
        None => None,
    }
}

/// The status of a client folder from what is on disk: whether `Wow.exe` is a regular file,
/// whether an update was interrupted, and the local state if one could be read.
pub fn client_status(has_client: bool, incomplete: bool, state: &Option<LocalState>) -> (r:
    ClientStatus)
    ensures
        r.state == (if incomplete {
            ClientState::Incomplete
        } else if has_client {
            ClientState::Ready
        } else {
            ClientState::InstallRequired
        }),
        r.can_launch == (has_client && !incomplete),
        crate::bindings::opt_view(r.local_version) == recorded_version(*state),
        r.remote_version is None,
{
    let state_now = if incomplete {
        ClientState::Incomplete
    } else if has_client {
        ClientState::Ready
    } else {
        ClientState::InstallRequired
    };
    ClientStatus {
        state: state_now,
        can_launch: has_client && !incomplete,
        local_version: recorded_version_of(state),
        remote_version: None,
    }
}

/// Whether the local state records exactly the signed manifest `loaded`.
pub open spec fn state_matches(state: Option<LocalState>, loaded: LoadedManifest) -> bool {
    match state {
        Some(s) => s.schema_version == 1 && s.sequence == loaded.manifest.sequence
            && s.client_version@ == loaded.manifest.client_version@ && s.manifest_sha256@
            == loaded.sha256@,
        None => false,
    }
}

/// The state shown once the signed manifest is known.
pub open spec fn status_against(
    has_client: bool,
    incomplete: bool,
    state: Option<LocalState>,
    loaded: LoadedManifest,
) -> ClientState {
    if incomplete {
        ClientState::Incomplete
    } else if !has_client {
        ClientState::InstallRequired
    } else if state_matches(state, loaded) {
        ClientState::Ready
    } else {
        ClientState::UpdateAvailable
    }
}

/// The status of a client folder compared with the signed manifest: the client may only be
/// launched when it is present, no update is pending and the installed state is exactly `loaded`.
pub fn client_status_against_manifest(
    has_client: bool,
    incomplete: bool,
    state: &Option<LocalState>,
    loaded: &LoadedManifest,
) -> (r: ClientStatus)
    ensures
        r.state == status_against(has_client, incomplete, *state, *loaded),
        r.can_launch == (r.state == ClientState::Ready),
        r.can_launch == (has_client && !incomplete && state_matches(*state, *loaded)),
        r.can_launch ==> (*state matches Some(s) && s.schema_version == 1 && s.sequence
            == loaded.manifest.sequence && s.client_version@ == loaded.manifest.client_version@
            && s.manifest_sha256@ == loaded.sha256@),
        crate::bindings::opt_view(r.local_version) == recorded_version(*state),
        crate::bindings::opt_view(r.remote_version) == Some(loaded.manifest.client_version@),
{
    let mut status = client_status(has_client, incomplete, state);
    let matches = match state {
        Some(s) => s.schema_version == 1 && s.sequence == loaded.manifest.sequence && str_eq(
            s.client_version.as_str(),
            loaded.manifest.client_version.as_str(),
        ) && str_eq(s.manifest_sha256.as_str(), loaded.sha256.as_str()),
        None => false,
    };
    status.remote_version = Some(loaded.manifest.client_version.clone());
    status.state = match status.state {
        ClientState::Incomplete => ClientState::Incomplete,
        ClientState::InstallRequired => ClientState::InstallRequired,
        _ => if matches {
            ClientState::Ready
        } else {
            ClientState::UpdateAvailable
        },
    };
    status.can_launch = status.state == ClientState::Ready;
    status
}

/// The path of `Wow.exe` once nothing blocks a launch: no interrupted update, and the executable
/// present as a regular file.
pub fn wow_path(wow: String, incomplete: bool, wow_present: bool) -> (r: Result<String, String>)
    ensures
        incomplete ==> (r matches Err(e) && e@
            == "La mise à jour du client est incomplète. Relance-la avant de jouer."@),
        !incomplete && !wow_present ==> (r matches Err(e) && e@
            == "Wow.exe est absent. Lance d’abord la mise à jour."@),
        !incomplete && wow_present ==> (r matches Ok(p) && p@ == wow@),
{
    if incomplete {
        return Err(owned("La mise à jour du client est incomplète. Relance-la avant de jouer."));
    }
    if !wow_present {
        return Err(owned("Wow.exe est absent. Lance d’abord la mise à jour."));
    }
    Ok(wow)
}

/// Pause before retrying after failed attempt number `attempt` (counted from 0), in
/// milliseconds: 500, 1000, 2000, then 4000 for every later attempt.
pub open spec fn retry_delay_ms(attempt: u32) -> u64 {
    if attempt == 0 {
        500
    } else if attempt == 1 {
        1000
    } else if attempt == 2 {
        2000
    } else {
        4000
    }
}

/// Pause before retrying after failed attempt number `attempt`, in milliseconds.
pub fn retry_delay(attempt: u32) -> (ms: u64)
    ensures
        ms == retry_delay_ms(attempt),
{
    let exponent = if attempt < 3 {
        attempt
    } else {
        3
    };
    let mut factor: u64 = 1;
    let mut i: u32 = 0;
    while i < exponent
        invariant
            i <= exponent <= 3,
            factor == (if i == 0 {
                1u64
            } else if i == 1 {
                2u64
            } else if i == 2 {
                4u64
            } else {
                8u64
            }),
        decreases exponent - i,
    {
        factor = factor * 2;
        i += 1;
    }
    500 * factor
}

/// The pause after failed attempt `attempt` (counted from 0), or `None` when no attempt
/// follows.
pub open spec fn retry_after_attempt(attempt: u32, retryable: bool) -> Option<u64> {
    if retryable && attempt + 1 < HTTP_ATTEMPTS {
        Some(retry_delay_ms(attempt))
    } else {
        None
    }
}

/// After a failed attempt, the pause before the next one, or `None` when the failure is final:
/// it cannot be retried, or it was the last of [`HTTP_ATTEMPTS`] attempts.
pub fn next_retry(attempt: u32, retryable: bool) -> (r: Option<u64>)
    requires
        attempt < HTTP_ATTEMPTS,
    ensures
        r == retry_after_attempt(attempt, retryable),
{
    if !retryable || attempt + 1 == HTTP_ATTEMPTS {
        None
    } else {
        Some(retry_delay(attempt))
    }
}

/// HTTP statuses worth retrying: 408, 429 and every server error (500-599).
pub open spec fn retryable_status(status: u16) -> bool {
    status == 408 || status == 429 || (500 <= status && status <= 599)
}

/// Whether an HTTP status is worth retrying.
pub fn is_retryable_status(status: u16) -> (r: bool)
    ensures
        r == retryable_status(status),
{
    status == 408 || status == 429 || (status >= 500 && status <= 599)
}

/// Checks the response to a manifest request before its body is read: a success status and
/// an announced length within [`MAX_SIGNED_MANIFEST_SIZE`]. An error says whether to retry.
pub fn check_manifest_response(status: u16, status_text: &str, content_length: Option<u64>) -> (r:
    Result<(), (bool, String)>)
    ensures
        !(200 <= status && status <= 299) ==> (r matches Err((retry, e)) && retry
            == retryable_status(status) && e@ == "Manifeste indisponible ("@ + status_text@
            + ")."@),
        (200 <= status && status <= 299) && (content_length matches Some(n) && n
            > MAX_SIGNED_MANIFEST_SIZE) ==> (r matches Err((retry, e)) && !retry && e@
            == "Le manifeste distant est trop volumineux."@),
        (200 <= status && status <= 299) && !(content_length matches Some(n) && n
            > MAX_SIGNED_MANIFEST_SIZE) ==> r is Ok,
{
    if !(status >= 200 && status <= 299) {
        return Err(
            (is_retryable_status(status), join3("Manifeste indisponible (", status_text, ").")),
        );
    }
    let announced = match content_length {
        Some(n) => n,
        None => 0,
    };
    if announced > MAX_SIGNED_MANIFEST_SIZE {
        return Err((false, owned("Le manifeste distant est trop volumineux.")));
    }
    Ok(())
}

/// Checks the length of a manifest body read with a limit of one byte past the maximum.
pub fn check_manifest_length(len: u64) -> (r: Result<(), (bool, String)>)
    ensures
        len > MAX_SIGNED_MANIFEST_SIZE ==> (r matches Err((retry, e)) && !retry && e@
            == "Le manifeste distant est trop volumineux."@),
        len <= MAX_SIGNED_MANIFEST_SIZE ==> r is Ok,
{
    if len > MAX_SIGNED_MANIFEST_SIZE {
        return Err((false, owned("Le manifeste distant est trop volumineux.")));
    }
    Ok(())
}

/// The outcome of checking a `Content-Range` header for a resumed download.
pub open spec fn content_range_check(value: Option<Seq<char>>, start: u64, size: u64) -> Result<
    (),
    Seq<char>,
> {
    match value {
        None => Err("Réponse partielle sans Content-Range."@),
        Some(v) => match strip_prefix(v, "bytes "@) {
            None => Err("Content-Range invalide."@),
            Some(rest) => match split_once(rest, '/') {
                None => Err("Content-Range invalide."@),
                Some((range, total)) => match split_once(range, '-') {
                    None => Err("Content-Range invalide."@),
                    Some((first, last)) => if parse_u64(first) != Some(start) || parse_u64(total)
                        != Some(size) || match parse_u64(last) {
                        None => true,
                        Some(end) => end < start || end >= size,
                    } {
                        Err("Content-Range incohérent."@)
                    } else {
                        Ok(())
                    },
                },
            },
        },
    }
}

/// Checks that a partial response resumes exactly at `expected_start` of an object of
/// `expected_size` bytes: `bytes <start>-<end>/<size>` with `start <= end < size`.
pub fn validate_content_range(value: Option<&str>, expected_start: u64, expected_size: u64) -> (r:
    Result<(), String>)
    ensures
        match r {
            Ok(()) => content_range_check(
                match value {
                    Some(v) => Some(v@),
                    None => None,
                },
                expected_start,
                expected_size,
            ) is Ok,
            Err(e) => content_range_check(
                match value {
                    Some(v) => Some(v@),
                    None => None,
                },
                expected_start,
                expected_size,
            ) == Err::<(), _>(e@),
        },
{
    let value = match value {
        None => return Err(owned("Réponse partielle sans Content-Range.")),
        Some(v) => v,
    };
    let chars = chars_of(value);
    let rest = match strip_prefix_chars(chars.as_slice(), "bytes ") {
        None => return Err(owned("Content-Range invalide.")),
        Some(rest) => rest,
    };
    let (range, total) = match split_once_chars(rest.as_slice(), '/') {
        None => return Err(owned("Content-Range invalide.")),
        Some(parts) => parts,
    };
    let (first, last) = match split_once_chars(range.as_slice(), '-') {
        None => return Err(owned("Content-Range invalide.")),
        Some(parts) => parts,
    };
    let end_bad = match parse_u64_chars(last.as_slice()) {
        None => true,
        Some(end) => end < expected_start || end >= expected_size,
    };
    if parse_u64_chars(first.as_slice()) != Some(expected_start) || parse_u64_chars(
        total.as_slice(),
    ) != Some(expected_size) || end_bad {
        return Err(owned("Content-Range incohérent."));
    }
    Ok(())
}

/// The `Range` header value asking to resume at `start`, when there is something to resume.
pub fn range_header(start: u64) -> (r: Option<String>)
    ensures
        start == 0 ==> r is None,
        start > 0 ==> (r matches Some(h) && h@ == "bytes="@ + decimal(start as nat) + "-"@),
{
    if start > 0 {
        Some(join3("bytes=", decimal_text(start).as_str(), "-"))
    } else {
        None
    }
}

/// The URL of a content-addressed object: the manifest's object base URL followed by the digest.
pub fn object_url(object_base_url: &str, sha256: &str) -> (r: String)
    ensures
        r@ == object_base_url@ + sha256@,
{
    join2(object_base_url, sha256)
}

/// Whether a leftover partial download is longer than the object and must be emptied first.
pub fn partial_must_restart(part_len: u64, size: u64) -> (r: bool)
    ensures
        r == (part_len > size),
{
    part_len > size
}

/// How to handle the response to an object request.
pub enum ObjectResponse {
    /// The object was already complete on disk (`416` while resuming at its full size).
    Complete,
    /// The server refused; whether to retry, and the message.
    Refused(bool, String),
    /// Write the body, appending to the partial file (`206`) or from scratch (`200`).
    Body { append: bool },
}

/// Classifies the status of an object response received while resuming at `start`.
pub fn classify_object_response(status: u16, status_text: &str, start: u64, expected_size: u64) -> (r:
    ObjectResponse)
    ensures
        status == 416 && start == expected_size ==> r is Complete,
        !(status == 416 && start == expected_size) && status != 200 && status != 206 ==> (r matches ObjectResponse::Refused(retry, e) && retry
            == retryable_status(status) && e@ == "Téléchargement refusé par le serveur ("@
            + status_text@ + ")."@),
        status == 200 ==> r == (ObjectResponse::Body { append: false }),
        status == 206 ==> r == (ObjectResponse::Body { append: true }),
{
    if status == 416 && start == expected_size {
        return ObjectResponse::Complete;
    }
    if status != 200 && status != 206 {
        return ObjectResponse::Refused(
            is_retryable_status(status),
            join3("Téléchargement refusé par le serveur (", status_text, ")."),
        );
    }
    ObjectResponse::Body { append: status == 206 }
}

/// Refuses a body whose announced `Content-Length` exceeds what remains of the object.
pub fn check_announced_length(content_length: Option<&str>, expected_size: u64, start: u64) -> (r:
    Result<(), (bool, String)>)
    ensures
        r is Err <==> (match content_length {
            Some(v) => parse_u64(v@) matches Some(n) && n > (if start <= expected_size {
                expected_size - start
            } else {
                0
            }),
            None => false,
        }),
        r matches Err((retry, e)) ==> !retry && e@
            == "Le serveur annonce un objet trop volumineux."@,
{
    let remaining = expected_size.saturating_sub(start);
    let too_large = match content_length {
        Some(v) => {
            let chars = chars_of(v);
            match parse_u64_chars(chars.as_slice()) {
                Some(n) => n > remaining,
                None => false,
            }
        },
        None => false,
    };
    if too_large {
        return Err((false, owned("Le serveur annonce un objet trop volumineux.")));
    }
    Ok(())
}

/// Accounts for `count` more bytes of an object body after `written` bytes; the body may never
/// exceed `expected_size`.
pub fn accept_chunk(written: u64, count: usize, expected_size: u64) -> (r: Result<u64, (bool, String)>)
    ensures
        written + count > u64::MAX ==> (r matches Err((retry, e)) && !retry && e@
            == "Taille téléchargée hors limites."@),
        written + count <= u64::MAX && written + count > expected_size ==> (r matches Err((retry, e))
            && !retry && e@ == "Le serveur a envoyé trop de données."@),
        written + count <= expected_size ==> r == Ok::<u64, (bool, String)>((written + count) as u64),
{
    let total = match written.checked_add(count as u64) {
        None => return Err((false, owned("Taille téléchargée hors limites."))),
        Some(total) => total,
    };
    if total > expected_size {
        return Err((false, owned("Le serveur a envoyé trop de données.")));
    }
    Ok(total)
}

/// Checks that a finished body has exactly the object's size; a short body can be resumed.
pub fn finish_body(written: u64, expected_size: u64) -> (r: Result<(), (bool, String)>)
    ensures
        written == expected_size ==> r is Ok,
        written != expected_size ==> (r matches Err((retry, e)) && retry && e@ == "Objet incomplet ("@
            + decimal(written as nat) + "/"@ + decimal(expected_size as nat) + " octets)."@),
{
    if written != expected_size {
        let mut e = join2("Objet incomplet (", decimal_text(written).as_str());
        e = join3(e.as_str(), "/", decimal_text(expected_size).as_str());
        e = join2(e.as_str(), " octets).");
        return Err((true, e));
    }
    Ok(())
}

/// Checks the size of a downloaded partial file before its digest is computed.
pub fn check_downloaded_size(entry: &FileEntry, part_size: Option<u64>) -> (r: Result<(), String>)
    ensures
        part_size == Some(entry.size) ==> r is Ok,
        part_size != Some(entry.size) ==> (r matches Err(e) && e@ == "Téléchargement incomplet : "@
            + entry.path@),
{
    match part_size {
        Some(n) => if n == entry.size {
            return Ok(());
        },
        None => {},
    }
    Err(join2("Téléchargement incomplet : ", entry.path.as_str()))
}

/// Checks the digest of a downloaded object; only a matching object may replace the file.
pub fn check_downloaded_digest(entry: &FileEntry, digest: &str) -> (r: Result<(), String>)
    ensures
        digest@ == entry.sha256@ ==> r is Ok,
        digest@ != entry.sha256@ ==> (r matches Err(e) && e@ == "SHA-256 incorrect pour "@
            + entry.path@ + "."@),
{
    if str_eq(digest, entry.sha256.as_str()) {
        Ok(())
    } else {
        Err(join3("SHA-256 incorrect pour ", entry.path.as_str(), "."))
    }
}

/// Why an update must not proceed from the recorded state: the manifest is older than the
/// installed client, or it reuses the installed sequence for another payload.
pub open spec fn update_refusal(previous: Option<LocalState>, loaded: LoadedManifest) -> Option<
    Seq<char>,
> {
    match previous {
        Some(s) => if s.sequence > loaded.manifest.sequence {
            Some("Mise à jour refusée : manifeste plus ancien que le client."@)
        } else if s.sequence == loaded.manifest.sequence && s.manifest_sha256@ != loaded.sha256@ {
            Some("Mise à jour refusée : cette séquence désigne un autre manifeste."@)
        } else {
            None
        },
        None => None,
    }
}

/// Whether file sizes alone may be trusted: a normal update of the very manifest installed.
pub open spec fn trusts_sizes(previous: Option<LocalState>, loaded: LoadedManifest, repair: bool) -> bool {
    !repair && match previous {
        Some(s) => s.manifest_sha256@ == loaded.sha256@,
        None => false,
    }
}

/// Decides whether an update may start and whether file sizes may be trusted instead of
/// digests: the realm address must be valid and the manifest must not roll the client back.
pub fn plan_update(
    realm_address: &str,
    previous: &Option<LocalState>,
    loaded: &LoadedManifest,
    repair: bool,
) -> (r: Result<bool, String>)
    ensures
        !valid_realm_address(bytes_of(realm_address@)) ==> (r matches Err(e) && e@
            == "Adresse du realm invalide."@),
        valid_realm_address(bytes_of(realm_address@)) ==> match update_refusal(*previous, *loaded) {
            Some(m) => r matches Err(e) && e@ == m,
            None => r == Ok::<bool, String>(trusts_sizes(*previous, *loaded, repair)),
        },
        r == Ok::<bool, String>(true) ==> !repair && (*previous matches Some(s)
            && s.manifest_sha256@ == loaded.sha256@),
{
    validate_realm_address(realm_address)?;
    let mut trust = false;
    match previous {
        Some(state) => {
            if state.sequence > loaded.manifest.sequence {
                return Err(owned("Mise à jour refusée : manifeste plus ancien que le client."));
            }
            let same = str_eq(state.manifest_sha256.as_str(), loaded.sha256.as_str());
            if state.sequence == loaded.manifest.sequence && !same {
                return Err(owned("Mise à jour refusée : cette séquence désigne un autre manifeste."));
            }
            trust = !repair && same;
        },
        None => {},
    }
    Ok(trust)
}

/// Whether a file on disk must be hashed: its size matches and sizes are not trusted.
pub fn needs_digest(entry: &FileEntry, size: Option<u64>, trust_sizes: bool) -> (r: bool)
    ensures
        r == (size == Some(entry.size) && !trust_sizes),
{
    match size {
        Some(n) => n == entry.size && !trust_sizes,
        None => false,
    }
}

/// Whether a file on disk already holds the listed object: right size, and, unless sizes are
/// trusted, the right digest.
pub open spec fn entry_current(e: FileEntry, size: Option<u64>, trust_sizes: bool, digest: Option<
    Seq<char>,
>) -> bool {
    size == Some(e.size) && (trust_sizes || digest == Some(e.sha256@))
}

/// The entries among the first `n` that must be downloaded, in manifest order.
pub open spec fn changed_upto(
    files: Seq<FileEntry>,
    sizes: Seq<Option<u64>>,
    digests: Seq<Option<Seq<char>>>,
    trust_sizes: bool,
    n: int,
) -> Seq<FileEntry>
    decreases n,
{
    if n <= 0 {
        Seq::empty()
    } else {
        let before = changed_upto(files, sizes, digests, trust_sizes, n - 1);
        if entry_current(files[n - 1], sizes[n - 1], trust_sizes, digests[n - 1]) {
            before
        } else {
            before.push(files[n - 1])
        }
    }
}

/// The views of optional digests.
pub open spec fn digests_view(d: Seq<Option<String>>) -> Seq<Option<Seq<char>>> {
    d.map_values(|o: Option<String>| crate::bindings::opt_view(o))
}

/// The entries that must be downloaded, given for each entry the size of the file on disk
/// (`None` when absent) and, where it was computed, its digest.
pub fn changed_entries(
    files: &Vec<FileEntry>,
    sizes: &Vec<Option<u64>>,
    digests: &Vec<Option<String>>,
    trust_sizes: bool,
) -> (r: Vec<FileEntry>)
    requires
        sizes@.len() == files@.len(),
        digests@.len() == files@.len(),
    ensures
        r@ == changed_upto(files@, sizes@, digests_view(digests@), trust_sizes, files@.len() as int),
        forall|k: int|
            0 <= k < files@.len() && sizes@[k] != Some(files@[k].size) ==> r@.contains(
                #[trigger] files@[k],
            ),
{
    let mut r: Vec<FileEntry> = Vec::new();
    let mut i: usize = 0;
    while i < files.len()
        invariant
            i <= files@.len(),
            sizes@.len() == files@.len(),
            digests@.len() == files@.len(),
            r@ == changed_upto(files@, sizes@, digests_view(digests@), trust_sizes, i as int),
        decreases files@.len() - i,
    {
        let entry = &files[i];
        let current = match sizes[i] {
            Some(n) => n == entry.size && (trust_sizes || match &digests[i] {
                Some(d) => str_eq(d.as_str(), entry.sha256.as_str()),
                None => false,
            }),
            None => false,
        };
        assert(current == entry_current(files@[i as int], sizes@[i as int], trust_sizes, digests_view(digests@)[i as int]));
        if !current {
            r.push(entry.copied());
        }
        i += 1;
    }
    proof {
        files_that_differ_are_downloaded(
            files@,
            sizes@,
            digests_view(digests@),
            trust_sizes,
            files@.len() as int,
        );
    }
    r
}

/// The sum of the sizes of some entries.
pub open spec fn sizes_sum(entries: Seq<FileEntry>) -> int
    decreases entries.len(),
{
    if entries.len() == 0 {
        0
    } else {
        sizes_sum(entries.drop_last()) + entries.last().size
    }
}

proof fn lemma_sizes_sum_monotone(entries: Seq<FileEntry>, n: int)
    requires
        0 <= n <= entries.len(),
    ensures
        sizes_sum(entries.take(n)) <= sizes_sum(entries),
    decreases entries.len() - n,
{
    if n < entries.len() {
        assert(entries.drop_last().take(n) =~= entries.take(n));
        lemma_sizes_sum_monotone(entries.drop_last(), n);
    } else {
        assert(entries.take(n) =~= entries);
    }
}

/// The number of bytes to download, refused when it does not fit in 64 bits.
pub fn download_total(changed: &Vec<FileEntry>) -> (r: Result<u64, String>)
    ensures
        sizes_sum(changed@) <= u64::MAX ==> r == Ok::<u64, String>(sizes_sum(changed@) as u64),
        sizes_sum(changed@) > u64::MAX ==> (r matches Err(e) && e@
            == "La taille des téléchargements déborde."@),
{
    let mut sum: u64 = 0;
    let mut i: usize = 0;
    while i < changed.len()
        invariant
            i <= changed@.len(),
            sum == sizes_sum(changed@.take(i as int)),
        decreases changed@.len() - i,
    {
        assert(changed@.take(i + 1).drop_last() =~= changed@.take(i as int));
        match sum.checked_add(changed[i].size) {
            None => {
                proof {
                    lemma_sizes_sum_monotone(changed@, i + 1);
                }
                return Err(owned("La taille des téléchargements déborde."));
            },
            Some(next) => {
                sum = next;
            },
        }
        i += 1;
    }
    assert(changed@.take(changed@.len() as int) =~= changed@);
    Ok(sum)
}

/// Custom patches of earlier releases, removed once the manifest no longer lists them.
pub open spec fn legacy_patches() -> Seq<Seq<char>> {
    seq!["Data/patch-4.MPQ"@, "Data/frFR/patch-frFR-4.MPQ"@]
}

/// The legacy patches that the manifest does not list (ignoring ASCII case), in order.
pub open spec fn legacy_to_remove(files: Seq<FileEntry>) -> Seq<Seq<char>> {
    let first = if lists_path(files, path_key(legacy_patches()[0])) {
        Seq::<Seq<char>>::empty()
    } else {
        seq![legacy_patches()[0]]
    };
    if lists_path(files, path_key(legacy_patches()[1])) {
        first
    } else {
        first.push(legacy_patches()[1])
    }
}

/// The legacy patches to look for on disk: those the manifest does not list.
pub fn legacy_patch_candidates(manifest: &Manifest) -> (r: Vec<String>)
    ensures
        r@.map_values(|s: String| s@) == legacy_to_remove(manifest.files@),
{
    let mut keys = StringHashSet::new();
    let mut i: usize = 0;
    assert(keys@ =~= keys_before(manifest.files@, 0));
    while i < manifest.files.len()
        invariant
            i <= manifest.files@.len(),
            keys@ == keys_before(manifest.files@, i as int),
        decreases manifest.files@.len() - i,
    {
        let key = key_of(&manifest.files[i].path);
        let ghost old_keys = keys@;
        keys.insert(key);
        proof {
            lemma_keys_extend(manifest.files@, i as int, old_keys, path_key(manifest.files@[i as int].path@));
        }
        i += 1;
    }
    let legacy: [&str; 2] = ["Data/patch-4.MPQ", "Data/frFR/patch-frFR-4.MPQ"];
    let mut r: Vec<String> = Vec::new();
    let mut k: usize = 0;
    while k < 2
        invariant
            k <= 2,
            keys@ == keys_before(manifest.files@, manifest.files@.len() as int),
            legacy@.map_values(|s: &str| s@) == legacy_patches(),
            r@.map_values(|s: String| s@) == (if k == 0 {
                Seq::<Seq<char>>::empty()
            } else if k == 1 {
                if lists_path(manifest.files@, path_key(legacy_patches()[0])) {
                    Seq::<Seq<char>>::empty()
                } else {
                    seq![legacy_patches()[0]]
                }
            } else {
                legacy_to_remove(manifest.files@)
            }),
        decreases 2 - k,
    {
        let name = owned(legacy[k]);
        assert(name@ == legacy_patches()[k as int]);
        let key = key_of(&name);
        let listed = keys.contains(key.as_str());
        proof {
            if listed {
                let j = choose|j: int|
                    0 <= j < manifest.files@.len() && path_key(#[trigger] manifest.files@[j].path@)
                        == key@;
                assert(lists_path(manifest.files@, path_key(legacy_patches()[k as int])));
            } else if lists_path(manifest.files@, path_key(legacy_patches()[k as int])) {
                let j = choose|j: int|
                    0 <= j < manifest.files@.len() && path_key(#[trigger] manifest.files@[j].path@)
                        == key@;
                assert(keys_before(manifest.files@, manifest.files@.len() as int).contains(key@));
            }
        }
        let ghost before = r@.map_values(|s: String| s@);
        if !listed {
            r.push(name);
            assert(r@.map_values(|s: String| s@) =~= before.push(legacy_patches()[k as int]));
        }
        k += 1;
    }
    r
}

/// Whether the interrupted-update marker must be written before the client is touched.
pub fn marks_incomplete(changed: usize, legacy: usize) -> (r: bool)
    ensures
        r == (changed > 0 || legacy > 0),
{
    changed > 0 || legacy > 0
}

/// What an update reports when it completes.
#[derive(Debug)]
pub struct UpdateSummary {
    pub version: String,
    pub changed_files: usize,
}

/// Progress of a scan or download, for the interface.
#[derive(Clone, Debug)]
pub struct Progress {
    pub message: String,
    pub items_done: u64,
    pub items_total: u64,
    pub bytes_done: u64,
    pub bytes_total: u64,
}

/// The local state recorded once `loaded` is fully installed.
pub fn installed_state(loaded: &LoadedManifest) -> (r: LocalState)
    ensures
        r.schema_version == 1,
        r.sequence == loaded.manifest.sequence,
        r.client_version@ == loaded.manifest.client_version@,
        r.manifest_sha256@ == loaded.sha256@,
        state_matches(Some(r), *loaded),
{
    LocalState {
        schema_version: 1,
        sequence: loaded.manifest.sequence,
        client_version: loaded.manifest.client_version.clone(),
        manifest_sha256: loaded.sha256.clone(),
    }
}

/// The summary of a completed update: the installed version and how many files changed,
/// legacy patches removed included.
pub fn update_summary(loaded: &LoadedManifest, changed: usize, legacy: usize) -> (r: UpdateSummary)
    requires
        changed + legacy <= usize::MAX,
    ensures
        r.version@ == loaded.manifest.client_version@,
        r.changed_files == changed + legacy,
{
    UpdateSummary { version: loaded.manifest.client_version.clone(), changed_files: changed + legacy }
}

/// Progress of an object transfer: `current` bytes of the object after `base` bytes of
/// earlier objects, saturating at the largest count.
pub fn transfer_progress(
    message: String,
    index: u64,
    items_total: u64,
    base: u64,
    current: u64,
    bytes_total: u64,
) -> (r: Progress)
    ensures
        r.message == message,
        r.items_done == index,
        r.items_total == items_total,
        r.bytes_done == (if base + current > u64::MAX {
            u64::MAX as int
        } else {
            base + current
        }),
        r.bytes_total == bytes_total,
{
    Progress {
        message,
        items_done: index,
        items_total,
        bytes_done: base.saturating_add(current),
        bytes_total,
    }
}

/// Whether a local state file may be read: a regular file, not a link, of at most 64 KiB.
pub fn state_file_readable(is_file: bool, is_link: bool, len: u64) -> (r: bool)
    ensures
        r == (is_file && !is_link && len <= 65536),
{
    is_file && !is_link && len <= 65536
}

proof fn lemma_scan_accepts(files: Seq<FileEntry>)
    requires
        files_scan(files) is Ok,
    ensures
        files_scan(files) == Ok::<int, Seq<char>>(sizes_sum(files)),
        forall|i: int|
            0 <= i < files.len() ==> safe_client_path(bytes_of(#[trigger] files[i].path@))
                && lower_hex_sha256(bytes_of(files[i].sha256@)),
        forall|i: int, j: int|
            0 <= i < j < files.len() ==> path_key(#[trigger] files[i].path@) != path_key(
                #[trigger] files[j].path@,
            ),
    decreases files.len(),
{
    if files.len() > 0 {
        let init = files.drop_last();
        lemma_scan_accepts(init);
        assert forall|i: int|
            0 <= i < files.len() implies safe_client_path(bytes_of(#[trigger] files[i].path@))
            && lower_hex_sha256(bytes_of(files[i].sha256@)) by {
            if i < init.len() {
                assert(files[i] == init[i]);
            }
        }
        assert forall|i: int, j: int| 0 <= i < j < files.len() implies path_key(
            #[trigger] files[i].path@,
        ) != path_key(#[trigger] files[j].path@) by {
            if j < init.len() {
                assert(files[i] == init[i]);
                assert(files[j] == init[j]);
            } else {
                assert(files[j] == files.last());
                if path_key(files[i].path@) == path_key(files[j].path@) {
                    assert(duplicate_of_earlier(files));
                }
            }
        }
    }
}

proof fn lemma_required_listed(files: Seq<FileEntry>, required: Seq<Seq<char>>, k: int)
    requires
        0 <= k <= required.len(),
        required_check(files, required, k) is Ok,
    ensures
        forall|r: int| k <= r < required.len() ==> lists_path(files, #[trigger] required[r]),
    decreases required.len() - k,
{
    if k < required.len() {
        lemma_required_listed(files, required, k + 1);
    }
}

proof fn lemma_tags_accepted(files: Seq<FileEntry>, locales: Seq<Seq<char>>)
    requires
        tags_check(files, locales) is Ok,
    ensures
        forall|i: int| 0 <= i < files.len() ==> entry_tag_ok(#[trigger] files[i], locales),
    decreases files.len(),
{
    if files.len() > 0 {
        lemma_tags_accepted(files.drop_last(), locales);
        assert forall|i: int| 0 <= i < files.len() implies entry_tag_ok(#[trigger] files[i], locales) by {
            if i < files.len() - 1 {
                assert(files[i] == files.drop_last()[i]);
            }
        }
    }
}

/// Every accepted manifest describes a well-formed release: as many entries as it declares,
/// each with a safe relative path and a lower-case SHA-256, no two paths equal ignoring ASCII
/// case, sizes adding up to the declared total, language tags that agree with the paths of the
/// offered packs, and every required client file listed, every offered pack complete.
pub proof fn accepted_manifests_are_well_formed(m: Manifest)
    requires
        manifest_check(m) is Ok,
    ensures
        m.schema_version == 1 || m.schema_version == 2,
        locales_ok(m.schema_version, locale_names(m)),
        m.sequence > 0,
        m.file_count == m.files@.len(),
        0 < m.files@.len() <= MAX_MANIFEST_FILES,
        sizes_sum(m.files@) == m.total_size,
        forall|i: int|
            0 <= i < m.files@.len() ==> safe_client_path(bytes_of(#[trigger] m.files@[i].path@))
                && lower_hex_sha256(bytes_of(m.files@[i].sha256@)),
        forall|i: int, j: int|
            0 <= i < j < m.files@.len() ==> path_key(#[trigger] m.files@[i].path@) != path_key(
                #[trigger] m.files@[j].path@,
            ),
        forall|i: int| 0 <= i < m.files@.len() ==> entry_tag_ok(#[trigger] m.files@[i], locale_names(m)),
        forall|r: int|
            0 <= r < required_paths(m).len() ==> lists_path(m.files@, #[trigger] required_paths(m)[r]),
{
    lemma_scan_accepts(m.files@);
    lemma_tags_accepted(m.files@, locale_names(m));
    lemma_required_listed(m.files@, required_paths(m), 0);
}

/// A manifest that may be installed never rolls the client back: its sequence is at least the
/// installed one, and an equal sequence names the very manifest installed.
pub proof fn updates_never_roll_back(previous: LocalState, loaded: LoadedManifest)
    requires
        update_refusal(Some(previous), loaded) is None,
    ensures
        previous.sequence <= loaded.manifest.sequence,
        previous.sequence == loaded.manifest.sequence ==> previous.manifest_sha256@
            == loaded.sha256@,
{
}

/// Once `loaded` is fully installed and recorded, the client is ready to launch against it:
/// present, with no interrupted update, it shows `Ready`.
pub proof fn installed_client_is_ready(loaded: LoadedManifest, recorded: LocalState)
    requires
        recorded.schema_version == 1,
        recorded.sequence == loaded.manifest.sequence,
        recorded.client_version@ == loaded.manifest.client_version@,
        recorded.manifest_sha256@ == loaded.sha256@,
    ensures
        status_against(true, false, Some(recorded), loaded) == ClientState::Ready,
{
}

/// Play stays blocked while an update is interrupted or the client is missing, whatever the
/// recorded state and the signed manifest.
pub proof fn play_is_blocked_until_updated(
    has_client: bool,
    incomplete: bool,
    state: Option<LocalState>,
    loaded: LoadedManifest,
)
    requires
        incomplete || !has_client || !state_matches(state, loaded),
    ensures
        status_against(has_client, incomplete, state, loaded) != ClientState::Ready,
{
}

/// Only the two legacy custom patches are ever removed, and only when the manifest no longer
/// lists them (ignoring ASCII case): no other file of the player's folder is deleted.
pub proof fn only_unlisted_legacy_patches_are_removed(files: Seq<FileEntry>)
    ensures
        legacy_to_remove(files).len() <= 2,
        forall|i: int|
            0 <= i < legacy_to_remove(files).len() ==> legacy_patches().contains(
                #[trigger] legacy_to_remove(files)[i],
            ) && !lists_path(files, path_key(legacy_to_remove(files)[i])),
{
    let l = legacy_patches();
    assert(l[0] == l[0]);
    assert(l.contains(l[0]));
    assert(l.contains(l[1]));
}

/// Only a payload carrying a valid strict Ed25519 signature under the release key, inside a
/// document within the size limit, is ever accepted: a tampered payload or signature is refused.
pub proof fn accepted_payloads_are_signed(
    document_len: u64,
    envelope: Result<(u32, Seq<char>, Seq<char>), Seq<char>>,
    public_key: Seq<u8>,
)
    requires
        signed_payload(document_len, envelope, public_key) is Ok,
    ensures
        document_len <= MAX_SIGNED_MANIFEST_SIZE,
        envelope matches Ok((schema, payload, signature)) && schema == 1 && signed_payload(
            document_len,
            envelope,
            public_key,
        ) == Ok::<_, Seq<char>>(payload) && ed25519_key_decodes(public_key)
            && ed25519_strict_verifies(public_key, bytes_of(payload), hex_bytes(bytes_of(signature))),
{
}

/// The suffix of the partial download of an object: `.moba.part.{sha256}`, so that a partial
/// file is only ever resumed for the same object.
pub fn download_part_suffix(sha256: &str) -> (r: String)
    ensures
        r@ == ".moba.part."@ + sha256@,
{
    join2(".moba.part.", sha256)
}

/// The SHA-256 of a file read chunk by chunk, in lower-case hexadecimal.
pub struct FileDigest {
    stream: crate::bindings::Sha256Stream,
}

impl FileDigest {
    /// The bytes absorbed so far.
    pub closed spec fn absorbed(&self) -> Seq<u8> {
        crate::bindings::stream_absorbed(self.stream)
    }

    /// A digest that has absorbed nothing.
    pub fn new() -> (r: FileDigest)
        ensures
            r.absorbed() == Seq::<u8>::empty(),
    {
        FileDigest { stream: crate::bindings::stream_start() }
    }

    /// Absorbs the next chunk of the file.
    pub fn update(&mut self, chunk: &[u8])
        ensures
            final(self).absorbed() == old(self).absorbed() + chunk@,
    {
        crate::bindings::stream_update(&mut self.stream, chunk);
    }

    /// The lower-case hexadecimal SHA-256 of everything absorbed.
    pub fn finish(self) -> (r: String)
        ensures
            r@ == sha256_hex_spec(self.absorbed()),
            r@.len() == 64,
    {
        let digest = crate::bindings::stream_finish(self.stream);
        hex_text(digest.as_slice())
    }
}

/// Whether file metadata describes a link the launcher must not follow: a symbolic link, or
/// (on Windows, where the attributes are known) a reparse point.
pub fn link_or_reparse(is_symlink: bool, attributes: Option<u32>) -> (r: bool)
    ensures
        r == (is_symlink || match attributes {
            Some(a) => a & 0x400 != 0,
            None => false,
        }),
{
    if is_symlink {
        return true;
    }
    match attributes {
        Some(a) => a & 0x400 != 0,
        None => false,
    }
}

/// Whether a file stayed the same while it was hashed: same length and modification time
/// before and after, and every byte of it read.
pub fn unchanged_while_hashing(before_len: u64, after_len: u64, same_modified: bool, read: u64) -> (r:
    bool)
    ensures
        r == (before_len == after_len && same_modified && read == after_len),
{
    before_len == after_len && same_modified && read == after_len
}

/// Transient failures are retried after a pause that never shrinks from one attempt to the
/// next, lasts at least half a second and at most four seconds.
pub proof fn retry_pauses_grow_and_stay_bounded(a: u32, b: u32)
    requires
        a <= b,
    ensures
        500 <= retry_delay_ms(a) <= retry_delay_ms(b) <= 4000,
{
}

/// A partial download is only ever resumed for the same object: objects with different
/// digests get different partial-file suffixes.
pub proof fn partial_files_are_per_object(sha_a: Seq<char>, sha_b: Seq<char>)
    requires
        sha_a != sha_b,
    ensures
        ".moba.part."@ + sha_a != ".moba.part."@ + sha_b,
{
    let p = ".moba.part."@;
    if p + sha_a == p + sha_b {
        assert((p + sha_a).skip(p.len() as int) =~= sha_a);
        assert((p + sha_b).skip(p.len() as int) =~= sha_b);
    }
}

/// Where the realm list is written: in the folder of every language pack a schema-2 manifest
/// offers, else in the French folder.
pub open spec fn realmlist_targets(m: Manifest) -> Seq<Seq<char>> {
    if m.schema_version == 2 {
        locale_names(m).map_values(|l: Seq<char>| locale_dir(l) + "realmlist.wtf"@)
    } else {
        seq!["Data/frFR/realmlist.wtf"@]
    }
}

/// The relative paths of the realm lists to write for manifest `m`.
pub fn realmlist_paths(m: &Manifest) -> (r: Vec<String>)
    ensures
        r@.map_values(|s: String| s@) == realmlist_targets(*m),
{
    let mut r: Vec<String> = Vec::new();
    if m.schema_version != 2 {
        r.push(owned("Data/frFR/realmlist.wtf"));
        assert(r@.map_values(|s: String| s@) =~= seq!["Data/frFR/realmlist.wtf"@]);
        return r;
    }
    let ghost targets = realmlist_targets(*m);
    let mut i: usize = 0;
    while i < m.locales.len()
        invariant
            i <= m.locales@.len(),
            m.schema_version == 2,
            targets == realmlist_targets(*m),
            r@.map_values(|s: String| s@) == targets.take(i as int),
        decreases m.locales.len() - i,
    {
        let mut path = locale_dir_text(m.locales[i].as_str());
        path.append("realmlist.wtf");
        assert(path@ == targets[i as int]);
        let ghost before = r@.map_values(|s: String| s@);
        let ghost pv = path@;
        r.push(path);
        assert(r@.map_values(|s: String| s@) =~= before.push(pv));
        assert(targets.take(i + 1) =~= targets.take(i as int).push(targets[i as int]));
        i += 1;
    }
    assert(targets.take(m.locales@.len() as int) =~= targets);
    r
}

/// A manifest or object request is tried at most [`HTTP_ATTEMPTS`] times: attempts are
/// numbered from 0 and a further attempt follows attempt `a` only when `a + 1` is still below
/// the limit; a refusal that cannot be retried is never retried.
pub proof fn requests_are_tried_at_most_four_times(attempt: u32, retryable: bool)
    ensures
        retry_after_attempt(attempt, retryable) is Some ==> attempt + 1 < HTTP_ATTEMPTS && retryable,
        attempt + 1 >= HTTP_ATTEMPTS ==> retry_after_attempt(attempt, retryable) is None,
{
}

/// One step of an update, in the order the steps are carried out.
#[derive(PartialEq, Eq, Structural, Clone, Copy, Debug)]
pub enum UpdateStep {
    /// Record that an update is under way: Play stays blocked until the record is cleared.
    MarkIncomplete,
    /// Download and replace the changed entry with this index.
    Replace(usize),
    /// Remove the legacy patch with this index.
    RemoveLegacy(usize),
    /// Write the realm list with this index.
    WriteRealmlist(usize),
    /// Record the installed manifest.
    RecordState,
    /// Clear the record that an update is under way.
    ClearMark,
}

/// The steps of an update that replaces `changed` entries, removes `legacy` patches and
/// writes `realmlists` realm lists: the in-progress record first when any game file changes,
/// the replacements, the removals, the realm lists, then the installed state and, last, the
/// clearing of the in-progress record.
pub open spec fn update_plan(changed: nat, legacy: nat, realmlists: nat) -> Seq<UpdateStep> {
    (if changed > 0 || legacy > 0 {
        seq![UpdateStep::MarkIncomplete]
    } else {
        Seq::empty()
    }) + Seq::new(changed, |i: int| UpdateStep::Replace(i as usize)) + Seq::new(
        legacy,
        |i: int| UpdateStep::RemoveLegacy(i as usize),
    ) + Seq::new(realmlists, |i: int| UpdateStep::WriteRealmlist(i as usize)) + seq![
        UpdateStep::RecordState,
        UpdateStep::ClearMark,
    ]
}

/// The steps of an update, in order.
pub fn update_steps(changed: usize, legacy: usize, realmlists: usize) -> (r: Vec<UpdateStep>)
    ensures
        r@ == update_plan(changed as nat, legacy as nat, realmlists as nat),
{
    let mut r: Vec<UpdateStep> = Vec::new();
    if changed > 0 || legacy > 0 {
        r.push(UpdateStep::MarkIncomplete);
    }
    let ghost head = r@;
    let mut i: usize = 0;
    while i < changed
        invariant
            i <= changed,
            r@ == head + Seq::new(i as nat, |k: int| UpdateStep::Replace(k as usize)),
        decreases changed - i,
    {
        r.push(UpdateStep::Replace(i));
        assert(r@ =~= head + Seq::new((i + 1) as nat, |k: int| UpdateStep::Replace(k as usize)));
        i += 1;
    }
    let ghost head = r@;
    let mut i: usize = 0;
    while i < legacy
        invariant
            i <= legacy,
            r@ == head + Seq::new(i as nat, |k: int| UpdateStep::RemoveLegacy(k as usize)),
        decreases legacy - i,
    {
        r.push(UpdateStep::RemoveLegacy(i));
        assert(r@ =~= head + Seq::new((i + 1) as nat, |k: int| UpdateStep::RemoveLegacy(k as usize)));
        i += 1;
    }
    let ghost head = r@;
    let mut i: usize = 0;
    while i < realmlists
        invariant
            i <= realmlists,
            r@ == head + Seq::new(i as nat, |k: int| UpdateStep::WriteRealmlist(k as usize)),
        decreases realmlists - i,
    {
        r.push(UpdateStep::WriteRealmlist(i));
        assert(r@ =~= head + Seq::new((i + 1) as nat, |k: int| UpdateStep::WriteRealmlist(k as usize)));
        i += 1;
    }
    r.push(UpdateStep::RecordState);
    r.push(UpdateStep::ClearMark);
    assert(r@ =~= update_plan(changed as nat, legacy as nat, realmlists as nat));
    r
}

/// Whether a step replaces or removes a game file.
pub open spec fn changes_game_files(step: UpdateStep) -> bool {
    step is Replace || step is RemoveLegacy
}

/// An update changes game files only while the in-progress record is set: any interrupted
/// prefix of the steps that replaced or removed a file has set the record and not cleared it,
/// so Play stays blocked; the record is cleared only by the last step, right after the
/// installed state is written.
pub proof fn game_files_change_only_while_marked(changed: nat, legacy: nat, realmlists: nat, k: int)
    requires
        0 <= k < update_plan(changed, legacy, realmlists).len(),
    ensures
        ({
            let plan = update_plan(changed, legacy, realmlists);
            &&& (exists|j: int| 0 <= j < k && changes_game_files(#[trigger] plan[j])) ==> (exists|
                j: int,
            | 0 <= j < k && #[trigger] plan[j] == UpdateStep::MarkIncomplete)
            &&& forall|j: int| 0 <= j < k ==> #[trigger] plan[j] != UpdateStep::ClearMark
            &&& plan.last() == UpdateStep::ClearMark
            &&& plan[plan.len() - 2] == UpdateStep::RecordState
        }),
{
    let plan = update_plan(changed, legacy, realmlists);
    let m: int = if changed > 0 || legacy > 0 { 1 } else { 0 };
    assert(plan.len() == m + changed + legacy + realmlists + 2);
    assert forall|j: int| 0 <= j < m + changed + legacy + realmlists implies !(#[trigger] plan[j]
        is ClearMark) && !(plan[j] is RecordState) by {
        if j < m {
        } else if j < m + changed {
            assert(plan[j] == UpdateStep::Replace((j - m) as usize));
        } else if j < m + changed + legacy {
            assert(plan[j] == UpdateStep::RemoveLegacy((j - m - changed) as usize));
        } else {
            assert(plan[j] == UpdateStep::WriteRealmlist((j - m - changed - legacy) as usize));
        }
    }
    assert(plan[m + changed + legacy + realmlists] == UpdateStep::RecordState);
    assert forall|j: int| 0 <= j < k implies #[trigger] plan[j] != UpdateStep::ClearMark by {
        if j < m + changed + legacy + realmlists {
        } else {
            assert(plan[j] == UpdateStep::RecordState);
        }
    }
    if exists|j: int| 0 <= j < k && changes_game_files(#[trigger] plan[j]) {
        let j = choose|j: int| 0 <= j < k && changes_game_files(#[trigger] plan[j]);
        if m == 0 {
            assert(changed == 0 && legacy == 0);
            if j < realmlists {
                assert(plan[j] == UpdateStep::WriteRealmlist(j as usize));
            }
        }
        assert(plan[0] == UpdateStep::MarkIncomplete);
        assert(0 < k);
    }
}

/// The entries among the first `n` that must be downloaded are entries of the manifest.
proof fn lemma_changed_are_listed(
    files: Seq<FileEntry>,
    sizes: Seq<Option<u64>>,
    digests: Seq<Option<Seq<char>>>,
    trust_sizes: bool,
    n: int,
)
    requires
        0 <= n <= files.len(),
    ensures
        forall|i: int|
            0 <= i < changed_upto(files, sizes, digests, trust_sizes, n).len() ==> files.contains(
                #[trigger] changed_upto(files, sizes, digests, trust_sizes, n)[i],
            ),
    decreases n,
{
    if n > 0 {
        lemma_changed_are_listed(files, sizes, digests, trust_sizes, n - 1);
        let before = changed_upto(files, sizes, digests, trust_sizes, n - 1);
        let now = changed_upto(files, sizes, digests, trust_sizes, n);
        assert forall|i: int| 0 <= i < now.len() implies files.contains(#[trigger] now[i]) by {
            if i < before.len() {
                assert(now[i] == before[i]);
            } else {
                assert(now[i] == files[n - 1]);
            }
        }
    }
}

/// The client path a step writes or removes, if any.
pub open spec fn touched_path(
    step: UpdateStep,
    changed: Seq<FileEntry>,
    legacy: Seq<Seq<char>>,
    realmlists: Seq<Seq<char>>,
) -> Option<Seq<char>> {
    match step {
        UpdateStep::Replace(i) => Some(changed[i as int].path@),
        UpdateStep::RemoveLegacy(i) => Some(legacy[i as int]),
        UpdateStep::WriteRealmlist(i) => Some(realmlists[i as int]),
        _ => None,
    }
}

/// The client paths the launcher manages for a manifest: its entries, the legacy custom
/// patches and the realm lists. Every other file of the player's folder is theirs.
pub open spec fn managed_path(m: Manifest, p: Seq<char>) -> bool {
    ||| exists|i: int| 0 <= i < m.files@.len() && #[trigger] m.files@[i].path@ == p
    ||| legacy_patches().contains(p)
    ||| realmlist_targets(m).contains(p)
}

/// An update touches only managed paths: the entries found changed, legacy patches the
/// manifest no longer lists, and its realm lists; files the player owns are preserved.
pub proof fn updates_touch_only_managed_paths(
    m: Manifest,
    sizes: Seq<Option<u64>>,
    digests: Seq<Option<Seq<char>>>,
    trust_sizes: bool,
    legacy: Seq<Seq<char>>,
    k: int,
)
    requires
        forall|i: int| 0 <= i < legacy.len() ==> legacy_to_remove(m.files@).contains(#[trigger] legacy[i]),
        0 <= k < update_plan(
            changed_upto(m.files@, sizes, digests, trust_sizes, m.files@.len() as int).len(),
            legacy.len(),
            realmlist_targets(m).len(),
        ).len(),
    ensures
        ({
            let changed = changed_upto(m.files@, sizes, digests, trust_sizes, m.files@.len() as int);
            let plan = update_plan(changed.len(), legacy.len(), realmlist_targets(m).len());
            touched_path(plan[k], changed, legacy, realmlist_targets(m)) matches Some(p) ==> managed_path(m, p)
        }),
{
    let files = m.files@;
    let changed = changed_upto(files, sizes, digests, trust_sizes, files.len() as int);
    let r = realmlist_targets(m);
    let plan = update_plan(changed.len(), legacy.len(), r.len());
    lemma_changed_are_listed(files, sizes, digests, trust_sizes, files.len() as int);
    only_unlisted_legacy_patches_are_removed(files);
    let mk: int = if changed.len() > 0 || legacy.len() > 0 { 1 } else { 0 };
    let c = changed.len() as int;
    let l = legacy.len() as int;
    if mk <= k < mk + c {
        let i = k - mk;
        assert(plan[k] == UpdateStep::Replace(i as usize));
        assert(files.contains(changed[i]));
        let j = choose|j: int| 0 <= j < files.len() && files[j] == changed[i];
        assert(m.files@[j].path@ == changed[i].path@);
    } else if mk + c <= k < mk + c + l {
        let i = k - mk - c;
        assert(plan[k] == UpdateStep::RemoveLegacy(i as usize));
        assert(legacy_to_remove(files).contains(legacy[i]));
        let j = choose|j: int| 0 <= j < legacy_to_remove(files).len() && legacy_to_remove(files)[j] == legacy[i];
        assert(legacy_patches().contains(legacy_to_remove(files)[j]));
    } else if mk + c + l <= k < mk + c + l + r.len() {
        let i = k - mk - c - l;
        assert(plan[k] == UpdateStep::WriteRealmlist(i as usize));
        assert(r[i] == r[i]);
        assert(r.contains(r[i]));
    } else if k < mk {
        assert(plan[k] == UpdateStep::MarkIncomplete);
    } else {
        assert(plan[k] is RecordState || plan[k] is ClearMark);
    }
}

/// Every accepted manifest fetches its objects from the official object store: its object
/// base URL parses as `https` on [`OBJECT_HOST`], without credentials, port, query or
/// fragment, and its path is not empty and ends with `/`, so that an object's URL is the base
/// followed by the digest.
pub proof fn accepted_manifests_use_the_official_object_base(m: Manifest)
    requires
        manifest_check(m) is Ok,
    ensures
        (url_parse(m.object_base_url@) matches Ok(u) && u.0 == "https"@ && u.1 == Some(OBJECT_HOST@)
            && u.2.len() == 0 && u.3 is None && u.4 is None && u.5 is None && u.6 is None
            && u.7.len() > 0 && u.7.last() == '/'),
{
}

/// A file of the wrong size, or missing, is always downloaded, whether sizes are trusted or
/// not; a file whose digest differs from the listed one is downloaded unless sizes are
/// trusted; and only such files are downloaded.
pub proof fn files_that_differ_are_downloaded(
    files: Seq<FileEntry>,
    sizes: Seq<Option<u64>>,
    digests: Seq<Option<Seq<char>>>,
    trust_sizes: bool,
    n: int,
)
    requires
        0 <= n <= files.len(),
        sizes.len() == files.len(),
        digests.len() == files.len(),
    ensures
        forall|k: int|
            0 <= k < n && (sizes[k] != Some(files[k].size) || (!trust_sizes && digests[k] != Some(
                files[k].sha256@,
            ))) ==> changed_upto(files, sizes, digests, trust_sizes, n).contains(#[trigger] files[k]),
        forall|j: int|
            0 <= j < changed_upto(files, sizes, digests, trust_sizes, n).len() ==> exists|k: int|
                0 <= k < n && #[trigger] changed_upto(files, sizes, digests, trust_sizes, n)[j]
                    == files[k] && (sizes[k] != Some(files[k].size) || (!trust_sizes && digests[k]
                    != Some(files[k].sha256@))),
    decreases n,
{
    if n > 0 {
        files_that_differ_are_downloaded(files, sizes, digests, trust_sizes, n - 1);
        let before = changed_upto(files, sizes, digests, trust_sizes, n - 1);
        let now = changed_upto(files, sizes, digests, trust_sizes, n);
        assert forall|k: int|
            0 <= k < n && (sizes[k] != Some(files[k].size) || (!trust_sizes && digests[k] != Some(
                files[k].sha256@,
            ))) implies now.contains(#[trigger] files[k]) by {
            if k < n - 1 {
                let x = choose|x: int| 0 <= x < before.len() && before[x] == files[k];
                if now != before {
                    assert(now[x] == before[x]);
                }
            } else {
                assert(now[now.len() - 1] == files[k]);
            }
        }
        assert forall|j: int| 0 <= j < now.len() implies exists|k: int|
            0 <= k < n && #[trigger] now[j] == files[k] && (sizes[k] != Some(files[k].size) || (
            !trust_sizes && digests[k] != Some(files[k].sha256@))) by {
            if j < before.len() {
                assert(now[j] == before[j]);
            } else {
                assert(now[j] == files[n - 1]);
            }
        }
    }
}

/// Sizes alone are trusted only for a normal update of the very manifest installed: a
/// repair, a first install or any other manifest is checked by digest.
pub proof fn sizes_are_trusted_only_for_the_installed_manifest(
    previous: Option<LocalState>,
    loaded: LoadedManifest,
    repair: bool,
)
    ensures
        trusts_sizes(previous, loaded, repair) <==> (!repair && (previous matches Some(s)
            && s.manifest_sha256@ == loaded.sha256@)),
{
}

/// The client is ready to play only when it is present, no update is interrupted, and the
/// recorded state is exactly the signed manifest: schema 1, the same sequence, the same client
/// version and the same manifest digest.
pub proof fn ready_means_the_signed_manifest_is_installed(
    has_client: bool,
    incomplete: bool,
    state: Option<LocalState>,
    loaded: LoadedManifest,
)
    ensures
        status_against(has_client, incomplete, state, loaded) == ClientState::Ready <==> (
        has_client && !incomplete && (state matches Some(s) && s.schema_version == 1 && s.sequence
            == loaded.manifest.sequence && s.client_version@ == loaded.manifest.client_version@
            && s.manifest_sha256@ == loaded.sha256@)),
{
}

} // verus!

