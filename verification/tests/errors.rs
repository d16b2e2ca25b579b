use moba_launcher_core::errors::{error_class, launcher_update_error, LauncherError, UpdaterFailure};

#[test]
fn launcher_errors_expose_a_safe_action_instead_of_raw_network_text() {
    let network = LauncherError::from(
        "Lecture réseau interrompue : request or response body error".to_string(),
    );
    assert_eq!(network.code, "network");
    assert!(network.retryable);

    let security = LauncherError::from("Signature du manifeste invalide.".to_string());
    assert_eq!(security.code, "security");
    assert!(!security.retryable);

    let update = LauncherError::from("Mise à jour obligatoire avant de jouer.".to_string());
    assert_eq!(update.code, "update_required");
    assert!(update.retryable);
}

#[test]
fn every_error_family_has_its_code_and_advice() {
    let cases = [
        ("Échec : OS ERROR 112", "disk_full", false),
        ("The process cannot access the file because it is being used by another process", "client_running", true),
        ("Permission denied (os error 5)", "permission", false),
        ("Téléchargement du manifeste impossible", "network", true),
        ("SHA-256 incorrect pour Data/patch.MPQ.", "corrupt_download", true),
        ("La séquence du manifeste doit être positive.", "security", false),
        ("Manifeste JSON invalide : eof", "security", false),
        ("something odd", "unknown", false),
    ];
    for (detail, code, retryable) in cases {
        let error = LauncherError::from(detail.to_string());
        assert_eq!(error.code, code, "{detail}");
        assert_eq!(error.retryable, retryable, "{detail}");
        assert_eq!(error.detail, detail);
    }
    assert_eq!(error_class("os error 112 and signature").0, "disk_full");
    assert_eq!(
        error_class("connexion").1,
        "Connexion au serveur de mise à jour interrompue."
    );
}

#[test]
fn launcher_update_failures_map_to_their_family() {
    let e = launcher_update_error(UpdaterFailure::Authentication, "bad signature".into());
    assert_eq!((e.code, e.retryable), ("security", false));
    assert_eq!(e.detail, "bad signature");
    let e = launcher_update_error(UpdaterFailure::Network, "offline".into());
    assert_eq!((e.code, e.retryable), ("network", true));
    let e = launcher_update_error(UpdaterFailure::Other, "disk".into());
    assert_eq!(e.code, "launcher_update");
    assert_eq!(e.message, "La mise à jour du launcher a échoué.");
}
