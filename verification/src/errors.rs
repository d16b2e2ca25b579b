//! Errors shown to the player: a stable code, a French sentence saying what to do, the raw
//! detail for support, and whether retrying can help.
use crate::bindings::{lowercase_text, unicode_lowercase};
use crate::text::{chars_of, contains_str, has_infix};
use vstd::prelude::*;

verus! {

/// An error as the interface presents it.
pub struct LauncherError {
    pub code: &'static str,
    pub message: &'static str,
    pub detail: String,
    pub retryable: bool,
}

/// The code, message and retry advice for a detail text, given in lowercase: the first
/// matching family wins, in the order disk space, file in use, permission, mandatory update,
/// network, corrupt download, authentication.
pub open spec fn error_class_of(lower: Seq<char>) -> (&'static str, &'static str, bool) {
    if has_infix(lower, "os error 112"@) || has_infix(lower, "espace disque"@) || has_infix(
        lower,
        "not enough space"@,
    ) {
        ("disk_full", "L’espace disque disponible est insuffisant.", false)
    } else if has_infix(lower, "os error 32"@) || has_infix(lower, "utilisé par un autre processus"@)
        || has_infix(lower, "being used by another process"@) {
        ("client_running", "Ferme le jeu, puis relance la mise à jour.", true)
    } else if has_infix(lower, "os error 5"@) || has_infix(lower, "permission denied"@) {
        ("permission", "Le launcher ne peut pas écrire dans ce dossier.", false)
    } else if has_infix(lower, "mise à jour obligatoire"@) {
        ("update_required", "Une nouvelle mise à jour est obligatoire avant de jouer.", true)
    } else if has_infix(lower, "connexion"@) || has_infix(lower, "lecture réseau"@) || has_infix(
        lower,
        "manifeste indisponible"@,
    ) || has_infix(lower, "téléchargement du manifeste"@) || has_infix(
        lower,
        "initialisation réseau"@,
    ) {
        ("network", "Connexion au serveur de mise à jour interrompue.", true)
    } else if has_infix(lower, "sha-256 incorrect"@) {
        ("corrupt_download", "Le fichier téléchargé est corrompu et doit être repris.", true)
    } else if has_infix(lower, "signature"@) || has_infix(lower, "séquence"@) || has_infix(
        lower,
        "manifeste json invalide"@,
    ) || has_infix(lower, "url https officielle"@) {
        ("security", "La mise à jour n’a pas pu être authentifiée.", false)
    } else {
        ("unknown", "Le launcher a rencontré une erreur.", false)
    }
}

/// The code, message and retry advice for a detail text already in lowercase.
pub fn error_class(lower: &str) -> (r: (&'static str, &'static str, bool))
    ensures
        r == error_class_of(lower@),
{
    let l = chars_of(lower);
    let t = l.as_slice();
    if contains_str(t, "os error 112") || contains_str(t, "espace disque") || contains_str(
        t,
        "not enough space",
    ) {
        ("disk_full", "L’espace disque disponible est insuffisant.", false)
    } else if contains_str(t, "os error 32") || contains_str(t, "utilisé par un autre processus")
        || contains_str(t, "being used by another process") {
        ("client_running", "Ferme le jeu, puis relance la mise à jour.", true)
    } else if contains_str(t, "os error 5") || contains_str(t, "permission denied") {
        ("permission", "Le launcher ne peut pas écrire dans ce dossier.", false)
    } else if contains_str(t, "mise à jour obligatoire") {
        ("update_required", "Une nouvelle mise à jour est obligatoire avant de jouer.", true)
    } else if contains_str(t, "connexion") || contains_str(t, "lecture réseau") || contains_str(
        t,
        "manifeste indisponible",
    ) || contains_str(t, "téléchargement du manifeste") || contains_str(
        t,
        "initialisation réseau",
    ) {
        ("network", "Connexion au serveur de mise à jour interrompue.", true)
    } else if contains_str(t, "sha-256 incorrect") {
        ("corrupt_download", "Le fichier téléchargé est corrompu et doit être repris.", true)
    } else if contains_str(t, "signature") || contains_str(t, "séquence") || contains_str(
        t,
        "manifeste json invalide",
    ) || contains_str(t, "url https officielle") {
        ("security", "La mise à jour n’a pas pu être authentifiée.", false)
    } else {
        ("unknown", "Le launcher a rencontré une erreur.", false)
    }
}

/// The error presented for a detail text: classified on its Unicode lowercase form.
pub open spec fn launcher_error_of(detail: String) -> LauncherError {
    let (code, message, retryable) = error_class_of(unicode_lowercase(detail@));
    LauncherError { code, message, detail, retryable }
}

impl From<String> for LauncherError {
    fn from(detail: String) -> (r: Self) {
        let lower = lowercase_text(detail.as_str());
        let (code, message, retryable) = error_class(lower.as_str());
        LauncherError { code, message, detail, retryable }
    }
}

impl vstd::std_specs::convert::FromSpecImpl<String> for LauncherError {
    open spec fn obeys_from_spec() -> bool {
        true
    }

    open spec fn from_spec(v: String) -> LauncherError {
        launcher_error_of(v)
    }
}

/// Why the launcher's own update failed, as far as the interface cares.
#[derive(PartialEq, Eq, Structural, Clone, Copy, Debug)]
pub enum UpdaterFailure {
    /// The signature, its encoding, the update description or the transport could not be
    /// trusted.
    Authentication,
    /// The update service could not be reached, or published no release.
    Network,
    /// Anything else.
    Other,
}

/// The error presented when the launcher's own update fails.
pub open spec fn launcher_update_error_of(failure: UpdaterFailure, detail: String) -> LauncherError {
    match failure {
        UpdaterFailure::Authentication => LauncherError {
            code: "security",
            message: "La mise à jour du launcher n’a pas pu être authentifiée.",
            detail,
            retryable: false,
        },
        UpdaterFailure::Network => LauncherError {
            code: "network",
            message: "Connexion au service de mise à jour du launcher interrompue.",
            detail,
            retryable: true,
        },
        UpdaterFailure::Other => LauncherError {
            code: "launcher_update",
            message: "La mise à jour du launcher a échoué.",
            detail,
            retryable: true,
        },
    }
}

/// The error presented when the launcher's own update fails with `detail`.
pub fn launcher_update_error(failure: UpdaterFailure, detail: String) -> (r: LauncherError)
    ensures
        r == launcher_update_error_of(failure, detail),
{
    match failure {
        UpdaterFailure::Authentication => LauncherError {
            code: "security",
            message: "La mise à jour du launcher n’a pas pu être authentifiée.",
            detail,
            retryable: false,
        },
        UpdaterFailure::Network => LauncherError {
            code: "network",
            message: "Connexion au service de mise à jour du launcher interrompue.",
            detail,
            retryable: true,
        },
        UpdaterFailure::Other => LauncherError {
            code: "launcher_update",
            message: "La mise à jour du launcher a échoué.",
            detail,
            retryable: true,
        },
    }
}

} // verus!
