use ed25519_dalek::{Signer, SigningKey};
use moba_launcher_core::paths::{realmlist_contents, validate_realm_address, validate_windows_path};
use moba_launcher_core::updater::{
    accept_manifest, check_announced_length, check_downloaded_digest, check_downloaded_size,
    check_manifest_length, check_manifest_response, classify_object_response, client_status,
    client_status_against_manifest, decode_hex, download_part_suffix, download_total, finish_body,
    installed_state, is_retryable_status, legacy_patch_candidates, marks_incomplete, needs_digest,
    next_retry, object_url, partial_must_restart, plan_update, public_key, range_header,
    retry_delay, sha256_bytes, state_file_readable, transfer_progress, update_summary,
    validate_content_range, validate_https_url, verify_signed_document, wow_path, accept_chunk,
    changed_entries, ClientState, FileEntry, LoadedManifest, LocalState, Manifest, ObjectResponse,
    SignedDocument,
};
use moba_launcher_core::updater::{
    link_or_reparse, locale_required_files, realmlist_paths, unchanged_while_hashing, update_steps,
    FileDigest, UpdateStep,
};
use serde_json::Value;

fn valid_manifest() -> Manifest {
    let paths = [
        "Wow.exe",
        "d3d9.dll",
        "Data/common.MPQ",
        "Data/patch-C.mpq",
        "Data/patch-E.mpq",
        "Data/patch-P.mpq",
        "Data/PATCH-Z.MPQ",
        "Data/frFR/locale-frFR.MPQ",
    ];
    let files: Vec<_> = paths
        .into_iter()
        .map(|path| FileEntry { path: path.into(), locale: None, size: 1, sha256: "00".repeat(32) })
        .collect();
    Manifest {
        schema_version: 1,
        locales: Vec::new(),
        sequence: 1,
        client_version: "test".into(),
        object_base_url: "https://moba-data.nbg1.your-objectstorage.com/client/objects/sha256/"
            .into(),
        file_count: files.len(),
        total_size: files.len() as u64,
        files,
    }
}

fn manifest_json(m: &Manifest) -> String {
    let files: Vec<Value> = m
        .files
        .iter()
        .map(|f| {
            let mut map = serde_json::Map::new();
            map.insert("path".into(), Value::from(f.path.clone()));
            if let Some(locale) = &f.locale {
                map.insert("locale".into(), Value::from(locale.clone()));
            }
            map.insert("size".into(), Value::from(f.size));
            map.insert("sha256".into(), Value::from(f.sha256.clone()));
            Value::Object(map)
        })
        .collect();
    let mut map = serde_json::Map::new();
    map.insert("schema_version".into(), Value::from(m.schema_version));
    if !m.locales.is_empty() {
        map.insert("locales".into(), Value::from(m.locales.clone()));
    }
    map.insert("sequence".into(), Value::from(m.sequence));
    map.insert("client_version".into(), Value::from(m.client_version.clone()));
    map.insert("object_base_url".into(), Value::from(m.object_base_url.clone()));
    map.insert("file_count".into(), Value::from(m.file_count));
    map.insert("total_size".into(), Value::from(m.total_size));
    map.insert("files".into(), Value::Array(files));
    Value::Object(map).to_string()
}

fn sign(manifest: &Manifest) -> (Vec<u8>, [u8; 32]) {
    let payload = manifest_json(manifest);
    let signing = SigningKey::from_bytes(&[7; 32]);
    let signature = signing.sign(payload.as_bytes());
    let mut document = serde_json::Map::new();
    document.insert("schema_version".into(), Value::from(1));
    document.insert("payload".into(), Value::from(payload));
    document.insert(
        "signature".into(),
        Value::from(
            signature.to_bytes().iter().map(|byte| format!("{byte:02x}")).collect::<String>(),
        ),
    );
    (serde_json::to_vec(&Value::Object(document)).unwrap(), signing.verifying_key().to_bytes())
}

fn only_fields(value: &Value, fields: &[&str]) -> Result<(), String> {
    let object = value.as_object().ok_or("expected an object")?;
    match object.keys().find(|k| !fields.contains(&k.as_str())) {
        Some(k) => Err(format!("unknown field `{k}`")),
        None => Ok(()),
    }
}

fn text(value: &Value, key: &str) -> Result<String, String> {
    value.get(key).and_then(Value::as_str).map(str::to_owned).ok_or(format!("missing field `{key}`"))
}

fn number(value: &Value, key: &str) -> Result<u64, String> {
    value.get(key).and_then(Value::as_u64).ok_or(format!("missing field `{key}`"))
}

fn decode_envelope(document: &[u8]) -> Result<SignedDocument, String> {
    let value: Value = serde_json::from_slice(document).map_err(|e| e.to_string())?;
    only_fields(&value, &["schema_version", "payload", "signature"])?;
    Ok(SignedDocument {
        schema_version: u32::try_from(number(&value, "schema_version")?).map_err(|e| e.to_string())?,
        payload: text(&value, "payload")?,
        signature: text(&value, "signature")?,
    })
}

fn decode_manifest(payload: &str) -> Result<Manifest, String> {
    let value: Value = serde_json::from_str(payload).map_err(|e| e.to_string())?;
    only_fields(
        &value,
        &["schema_version", "locales", "sequence", "client_version", "object_base_url", "file_count", "total_size", "files"],
    )?;
    let mut files = Vec::new();
    for f in value.get("files").and_then(Value::as_array).ok_or("missing field `files`")? {
        only_fields(f, &["path", "locale", "size", "sha256"])?;
        let locale = match f.get("locale") {
            None | Some(Value::Null) => None,
            Some(_) => Some(text(f, "locale")?),
        };
        files.push(FileEntry { path: text(f, "path")?, locale, size: number(f, "size")?, sha256: text(f, "sha256")? });
    }
    let locales = match value.get("locales") {
        None => Vec::new(),
        Some(list) => list
            .as_array()
            .ok_or("invalid type for `locales`")?
            .iter()
            .map(|l| l.as_str().map(str::to_owned).ok_or("invalid locale".to_string()))
            .collect::<Result<Vec<_>, _>>()?,
    };
    Ok(Manifest {
        schema_version: u32::try_from(number(&value, "schema_version")?).map_err(|e| e.to_string())?,
        locales,
        sequence: number(&value, "sequence")?,
        client_version: text(&value, "client_version")?,
        object_base_url: text(&value, "object_base_url")?,
        file_count: usize::try_from(number(&value, "file_count")?).map_err(|e| e.to_string())?,
        total_size: number(&value, "total_size")?,
        files,
    })
}

fn load_signed_manifest(document: &[u8], key: [u8; 32]) -> Result<LoadedManifest, String> {
    let payload = verify_signed_document(document.len() as u64, decode_envelope(document), &key)?;
    accept_manifest(&payload, decode_manifest(&payload))
}

#[test]
fn signed_manifest_rejects_tampering_and_unsafe_paths() {
    let manifest = valid_manifest();
    let (document, key) = sign(&manifest);
    assert_eq!(load_signed_manifest(&document, key).unwrap().manifest.client_version, "test");

    let mut tampered = document.clone();
    let position = tampered.windows(b"test".len()).position(|window| window == b"test").unwrap();
    tampered[position] = b'X';
    assert!(load_signed_manifest(&tampered, key).unwrap_err().contains("Signature"));

    let mut unsafe_manifest = valid_manifest();
    unsafe_manifest.files[0].path = "Data/../Wow.exe".into();
    let (unsafe_document, key) = sign(&unsafe_manifest);
    assert!(load_signed_manifest(&unsafe_document, key)
        .unwrap_err()
        .contains("Chemin client non sûr"));
}

#[test]
fn signed_documents_report_each_refusal() {
    let (document, key) = sign(&valid_manifest());
    let loaded = load_signed_manifest(&document, key).unwrap();
    let payload = verify_signed_document(document.len() as u64, decode_envelope(&document), &key).unwrap();
    assert_eq!(loaded.sha256, sha256_bytes(payload.as_bytes()));
    assert_eq!(
        verify_signed_document(16 * 1024 * 1024 + 1, decode_envelope(&document), &key).unwrap_err(),
        "Le manifeste signé est trop volumineux."
    );
    let mut envelope = decode_envelope(&document).unwrap();
    envelope.schema_version = 2;
    assert_eq!(
        verify_signed_document(10, Ok(envelope), &key).unwrap_err(),
        "Version d’enveloppe signée non prise en charge."
    );
    let mut envelope = decode_envelope(&document).unwrap();
    envelope.signature = "zz".into();
    assert_eq!(
        verify_signed_document(10, Ok(envelope), &key).unwrap_err(),
        "signature hexadécimale invalide."
    );
    assert!(verify_signed_document(10, Err("eof".into()), &key)
        .unwrap_err()
        .starts_with("Enveloppe signée invalide : "));
    let mut other = [0u8; 32];
    other[0] = 1;
    assert!(load_signed_manifest(&document, other).is_err());
    let hex: String = key.iter().map(|b| format!("{b:02x}")).collect();
    assert_eq!(public_key(&hex).unwrap(), key);
    assert!(public_key("abc").is_err());
    assert_eq!(decode_hex::<2>("0aff", "x").unwrap(), [10, 255]);
    assert!(decode_hex::<2>("0a", "x").is_err());
    assert!(accept_manifest("{}", Err("eof".into())).unwrap_err().starts_with("Manifeste JSON invalide : "));
}

#[test]
fn manifests_are_refused_for_each_inconsistency() {
    let mut m = valid_manifest();
    m.sequence = 0;
    assert_eq!(m.validate().unwrap_err(), "La séquence du manifeste doit être positive.");
    let mut m = valid_manifest();
    m.file_count = 3;
    assert!(m.validate().is_err());
    let mut m = valid_manifest();
    m.total_size = 1;
    assert_eq!(m.validate().unwrap_err(), "La taille totale du manifeste est incohérente.");
    let mut m = valid_manifest();
    m.files[1].path = "WOW.EXE".into();
    assert!(m.validate().unwrap_err().starts_with("Chemin dupliqué"));
    let mut m = valid_manifest();
    m.files[1].sha256 = "AA".repeat(32);
    assert!(m.validate().unwrap_err().starts_with("SHA-256 invalide"));
    let mut m = valid_manifest();
    m.files.pop();
    m.file_count -= 1;
    m.total_size -= 1;
    assert!(m.validate().unwrap_err().starts_with("Fichier client obligatoire absent"));
    let mut m = valid_manifest();
    m.object_base_url = "http://moba-data.nbg1.your-objectstorage.com/x/".into();
    assert!(m.validate().is_err());
    assert!(valid_manifest().validate().is_ok());
    assert!(validate_https_url("https://moba-data.nbg1.your-objectstorage.com/a/", true).is_ok());
    assert!(validate_https_url("https://moba-data.nbg1.your-objectstorage.com/a", true).is_err());
    assert!(validate_https_url("https://example.com/a/", false).is_err());
}

fn loaded() -> LoadedManifest {
    LoadedManifest { manifest: valid_manifest(), sha256: "11".repeat(32) }
}

#[test]
fn client_states_follow_presence_interruption_and_the_recorded_manifest() {
    assert_eq!(client_status(false, false, &None).state, ClientState::InstallRequired);
    let status = client_status(true, false, &None);
    assert_eq!(status.state, ClientState::Ready);
    assert!(status.can_launch);
    assert_eq!(client_status(true, true, &None).state, ClientState::Incomplete);
    let l = loaded();
    let against = client_status_against_manifest(true, false, &None, &l);
    assert_eq!(against.state, ClientState::UpdateAvailable);
    assert!(!against.can_launch);
    assert_eq!(against.remote_version.as_deref(), Some("test"));
    let state = Some(installed_state(&l));
    let ready = client_status_against_manifest(true, false, &state, &l);
    assert_eq!(ready.state, ClientState::Ready);
    assert!(ready.can_launch);
    assert_eq!(ready.local_version.as_deref(), Some("test"));
    assert!(!client_status_against_manifest(true, true, &state, &l).can_launch);
    assert_eq!(
        client_status_against_manifest(false, false, &state, &l).state,
        ClientState::InstallRequired
    );
    let old = Some(LocalState { schema_version: 2, sequence: 1, client_version: "x".into(), manifest_sha256: "y".into() });
    assert!(client_status(true, false, &old).local_version.is_none());
    assert_eq!(wow_path("C:/g/Wow.exe".into(), false, true).unwrap(), "C:/g/Wow.exe");
    assert!(wow_path("w".into(), true, true).unwrap_err().contains("incomplète"));
    assert!(wow_path("w".into(), false, false).is_err());
}

#[test]
fn updates_refuse_rollbacks_and_trust_sizes_only_for_the_installed_manifest() {
    let l = loaded();
    let same = Some(installed_state(&l));
    assert_eq!(plan_update("moba.rivalsbeyond.com", &same, &l, false), Ok(true));
    assert_eq!(plan_update("moba.rivalsbeyond.com", &same, &l, true), Ok(false));
    assert_eq!(plan_update("127.0.0.1", &None, &l, false), Ok(false));
    assert_eq!(plan_update("bad realm!", &None, &l, false).unwrap_err(), "Adresse du realm invalide.");
    let newer = Some(LocalState { schema_version: 1, sequence: 5, client_version: "x".into(), manifest_sha256: "y".into() });
    assert!(plan_update("127.0.0.1", &newer, &l, false).unwrap_err().contains("plus ancien"));
    let other = Some(LocalState { schema_version: 1, sequence: 1, client_version: "x".into(), manifest_sha256: "y".into() });
    assert!(plan_update("127.0.0.1", &other, &l, false).unwrap_err().contains("autre manifeste"));
    assert!(validate_realm_address("moba.rivalsbeyond.com").is_ok());
    assert!(validate_realm_address("").is_err());
    assert_eq!(realmlist_contents("127.0.0.1"), "set realmlist 127.0.0.1\r\n");
}

#[test]
fn legacy_candidates_follow_the_manifest_listing() {
    let mut m = valid_manifest();
    assert_eq!(
        legacy_patch_candidates(&m),
        vec!["Data/patch-4.MPQ".to_string(), "Data/frFR/patch-frFR-4.MPQ".to_string()]
    );
    m.files.push(FileEntry { path: "data/PATCH-4.mpq".into(), locale: None, size: 1, sha256: "00".repeat(32) });
    assert_eq!(legacy_patch_candidates(&m), vec!["Data/frFR/patch-frFR-4.MPQ".to_string()]);
    m.files.push(FileEntry { path: "Data/frFR/patch-frFR-4.MPQ".into(), locale: None, size: 1, sha256: "00".repeat(32) });
    assert!(legacy_patch_candidates(&m).is_empty());
    assert!(marks_incomplete(0, 1));
    assert!(!marks_incomplete(0, 0));
    let summary = update_summary(&loaded(), 2, 1);
    assert_eq!((summary.version.as_str(), summary.changed_files), ("test", 3));
}

#[test]
fn downloads_resume_only_consistent_ranges_and_verify_digests() {
    assert!(validate_content_range(Some("bytes 9-24/25"), 9, 25).is_ok());
    assert_eq!(validate_content_range(None, 9, 25).unwrap_err(), "Réponse partielle sans Content-Range.");
    assert_eq!(validate_content_range(Some("items 9-24/25"), 9, 25).unwrap_err(), "Content-Range invalide.");
    assert_eq!(validate_content_range(Some("bytes 8-24/25"), 9, 25).unwrap_err(), "Content-Range incohérent.");
    assert_eq!(validate_content_range(Some("bytes 9-25/25"), 9, 25).unwrap_err(), "Content-Range incohérent.");
    assert_eq!(range_header(0), None);
    assert_eq!(range_header(9).unwrap(), "bytes=9-");
    assert_eq!(object_url("https://h/o/", "ab"), "https://h/o/ab");
    assert!(partial_must_restart(10, 9));
    assert!(!partial_must_restart(9, 9));
    assert!(matches!(classify_object_response(416, "416", 5, 5), ObjectResponse::Complete));
    assert!(matches!(classify_object_response(206, "206", 5, 9), ObjectResponse::Body { append: true }));
    assert!(matches!(classify_object_response(200, "200", 5, 9), ObjectResponse::Body { append: false }));
    assert!(matches!(classify_object_response(503, "503", 0, 9), ObjectResponse::Refused(true, _)));
    assert!(matches!(classify_object_response(404, "404", 0, 9), ObjectResponse::Refused(false, _)));
    assert!(check_announced_length(Some("5"), 9, 4).is_ok());
    assert!(check_announced_length(Some("6"), 9, 4).is_err());
    assert!(check_announced_length(Some("x"), 9, 4).is_ok());
    assert_eq!(accept_chunk(4, 5, 9), Ok(9));
    assert!(accept_chunk(5, 5, 9).is_err());
    assert!(finish_body(9, 9).is_ok());
    assert_eq!(finish_body(8, 9).unwrap_err(), (true, "Objet incomplet (8/9 octets).".to_string()));
    let entry = FileEntry { path: "Data/patch.MPQ".into(), locale: None, size: 9, sha256: "expected".into() };
    assert!(check_downloaded_digest(&entry, "expected").is_ok());
    assert_eq!(check_downloaded_digest(&entry, "other").unwrap_err(), "SHA-256 incorrect pour Data/patch.MPQ.");
    assert!(check_downloaded_size(&entry, Some(9)).is_ok());
    assert!(check_downloaded_size(&entry, Some(8)).is_err());
    assert_eq!(download_part_suffix("ab"), ".moba.part.ab");
    assert_ne!(download_part_suffix("ab"), download_part_suffix("ac"));
    assert!(needs_digest(&entry, Some(9), false));
    assert!(!needs_digest(&entry, Some(9), true));
    assert!(!needs_digest(&entry, None, false));
}

#[test]
fn scans_download_only_changed_files_and_retry_transient_failures() {
    let files = vec![
        FileEntry { path: "a".into(), locale: None, size: 1, sha256: "x".into() },
        FileEntry { path: "b".into(), locale: None, size: 2, sha256: "y".into() },
        FileEntry { path: "c".into(), locale: None, size: 3, sha256: "z".into() },
    ];
    let sizes = vec![Some(1), Some(2), None];
    let digests = vec![Some("x".to_string()), Some("nope".to_string()), None];
    let changed = changed_entries(&files, &sizes, &digests, false);
    assert_eq!(changed.iter().map(|f| f.path.as_str()).collect::<Vec<_>>(), vec!["b", "c"]);
    let trusted = changed_entries(&files, &sizes, &vec![None, None, None], true);
    assert_eq!(trusted.len(), 1);
    assert_eq!(download_total(&changed), Ok(5));
    assert_eq!(retry_delay(0), 500);
    assert_eq!(retry_delay(1), 1000);
    assert_eq!(retry_delay(2), 2000);
    assert_eq!(retry_delay(9), 4000);
    assert_eq!(next_retry(0, true), Some(500));
    assert_eq!(next_retry(3, true), None);
    assert_eq!(next_retry(0, false), None);
    assert!(is_retryable_status(429));
    assert!(is_retryable_status(503));
    assert!(!is_retryable_status(404));
    assert!(check_manifest_response(200, "200 OK", Some(10)).is_ok());
    assert_eq!(check_manifest_response(503, "503 Service Unavailable", None).unwrap_err().0, true);
    assert!(check_manifest_length(16 * 1024 * 1024 + 1).is_err());
    let p = transfer_progress("m".into(), 1, 3, u64::MAX, 5, 9);
    assert_eq!(p.bytes_done, u64::MAX);
    assert!(state_file_readable(true, false, 65536));
    assert!(!state_file_readable(true, true, 10));
    assert!(validate_windows_path("Data/patch.MPQ").is_ok());
    assert!(validate_windows_path("Data/../Wow.exe").unwrap_err().starts_with("Chemin client non sûr : "));
    assert!(validate_windows_path("CON").is_err());
}

#[test]
fn files_are_hashed_in_chunks_and_must_not_change_meanwhile() {
    let mut digest = FileDigest::new();
    digest.update(b"complete ");
    digest.update(b"immutable object");
    assert_eq!(digest.finish(), sha256_bytes(b"complete immutable object"));
    assert_eq!(
        FileDigest::new().finish(),
        "e3b0c44298fc1c149afbf4c8996fb92427ae41e4649b934ca495991b7852b855"
    );
    assert!(unchanged_while_hashing(5, 5, true, 5));
    assert!(!unchanged_while_hashing(5, 6, true, 6));
    assert!(!unchanged_while_hashing(5, 5, false, 5));
    assert!(!unchanged_while_hashing(5, 5, true, 4));
    assert!(link_or_reparse(true, None));
    assert!(link_or_reparse(false, Some(0x400)));
    assert!(!link_or_reparse(false, Some(0x20)));
    assert!(!link_or_reparse(false, None));
}

fn bilingual_manifest() -> Manifest {
    let mut manifest = valid_manifest();
    manifest.schema_version = 2;
    manifest.locales = vec!["frFR".into(), "enUS".into()];
    manifest.files.retain(|entry| !entry.path.starts_with("Data/frFR/"));
    for locale in manifest.locales.clone() {
        for path in locale_required_files(&locale) {
            manifest.files.push(FileEntry {
                path,
                locale: Some(locale.clone()),
                size: 4,
                sha256: sha256_bytes(b"test"),
            });
        }
    }
    manifest.file_count = manifest.files.len();
    manifest.total_size = manifest.files.iter().map(|entry| entry.size).sum();
    manifest
}

fn copy(m: &Manifest) -> Manifest {
    decode_manifest(&manifest_json(m)).unwrap()
}

#[test]
fn signed_optional_packs_require_complete_chains_and_consistent_tags() {
    let manifest = bilingual_manifest();
    let (document, key) = sign(&manifest);
    assert!(load_signed_manifest(&document, key).is_ok());
    let mut broken = copy(&manifest);
    broken.files.last_mut().unwrap().locale = None;
    assert!(broken.validate().is_err());
    let mut missing = copy(&manifest);
    missing.files.pop();
    missing.file_count -= 1;
    missing.total_size -= 4;
    assert!(missing.validate().is_err());
    let mut wrong = copy(&manifest);
    wrong.files[0].locale = Some("enUS".into());
    assert!(wrong.validate().is_err());
    let mut legacy = manifest;
    legacy.schema_version = 1;
    assert!(legacy.validate().is_err());
}

#[test]
fn language_packs_are_checked_and_get_their_realm_lists() {
    let manifest = bilingual_manifest();
    assert_eq!(locale_required_files("enUS").len(), 11);
    assert_eq!(locale_required_files("enUS")[6], "Data/enUS/locale-enUS.MPQ");
    assert_eq!(
        realmlist_paths(&manifest),
        vec!["Data/frFR/realmlist.wtf".to_string(), "Data/enUS/realmlist.wtf".to_string()]
    );
    assert_eq!(realmlist_paths(&valid_manifest()), vec!["Data/frFR/realmlist.wtf".to_string()]);
    let mut unknown = copy(&manifest);
    unknown.locales.push("deDE".into());
    assert_eq!(unknown.validate().unwrap_err(), "Langues du manifeste invalides.");
    let mut twice = copy(&manifest);
    twice.locales = vec!["frFR".into(), "frFR".into()];
    assert!(twice.validate().is_err());
    let mut none = copy(&manifest);
    none.locales.clear();
    assert!(none.validate().is_err());
    let mut tagged = valid_manifest();
    tagged.files[7].locale = Some("frFR".into());
    assert!(tagged.validate().unwrap_err().starts_with("Langue de fichier incohérente"));
    let mut missing = copy(&manifest);
    let index = missing.files.iter().position(|f| f.path == "Data/frFR/speech-frFR.MPQ").unwrap();
    missing.files.remove(index);
    missing.file_count -= 1;
    missing.total_size -= 4;
    assert_eq!(
        missing.validate().unwrap_err(),
        "Fichier client obligatoire absent : data/frfr/speech-frfr.mpq"
    );
    let mut three = copy(&manifest);
    three.schema_version = 3;
    assert_eq!(three.validate().unwrap_err(), "Version de manifeste non prise en charge.");
}

#[test]
fn update_steps_mark_before_changing_files_and_clear_last() {
    assert_eq!(
        update_steps(2, 1, 2),
        vec![
            UpdateStep::MarkIncomplete,
            UpdateStep::Replace(0),
            UpdateStep::Replace(1),
            UpdateStep::RemoveLegacy(0),
            UpdateStep::WriteRealmlist(0),
            UpdateStep::WriteRealmlist(1),
            UpdateStep::RecordState,
            UpdateStep::ClearMark
        ]
    );
    assert_eq!(update_steps(0, 0, 1), vec![UpdateStep::WriteRealmlist(0), UpdateStep::RecordState, UpdateStep::ClearMark]);
    assert_eq!(update_steps(0, 1, 0), vec![UpdateStep::MarkIncomplete, UpdateStep::RemoveLegacy(0), UpdateStep::RecordState, UpdateStep::ClearMark]);
    for attempt in 0..4u32 {
        assert_eq!(next_retry(attempt, true).is_some(), attempt + 1 < 4);
    }
}
