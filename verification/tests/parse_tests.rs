use pkgman::dependency::{
    BootstrapConfiguration, BootstrapConfigurationTemp, Dependency, Package, parse_dependency,
};
use pkgman::errors::{GlobalError, PackageManagerError, SoftwareManagerError};
use pkgman::payload::interpret_download_response;
use pkgman::run_profile::profile_handler;
use pkgman::version::{VersionWrapper, parse_version, u64_dec_string};

fn ver(major: u64, minor: u64, patch: u64) -> VersionWrapper {
    VersionWrapper::new(major, minor, patch)
}

#[test]
fn parse_version_reads_three_numeric_parts() {
    assert_eq!(parse_version("1.2.3"), Some(ver(1, 2, 3)));
    assert_eq!(parse_version("0.0.0"), Some(ver(0, 0, 0)));
    assert_eq!(parse_version("10.20.30"), Some(ver(10, 20, 30)));
}

#[test]
fn parse_version_rejects_malformed_strings() {
    assert_eq!(parse_version(""), None);
    assert_eq!(parse_version("1.2"), None);
    assert_eq!(parse_version("1.2.3.4"), None);
    assert_eq!(parse_version("1..3"), None);
    assert_eq!(parse_version("a.b.c"), None);
    assert_eq!(parse_version("1.2.x"), None);
    // the component no longer fits in 64 bits
    assert_eq!(parse_version("99999999999999999999.0.0"), None);
    assert_eq!(parse_version("18446744073709551615.0.0"), Some(ver(u64::MAX, 0, 0)));
}

#[test]
fn parse_dependency_splits_name_and_version_on_dashes() {
    let d = parse_dependency("app-1.0.0").unwrap();
    assert_eq!(d.archive, "app");
    assert_eq!(d.version_wrapper, ver(1, 0, 0));
}

#[test]
fn parse_dependency_reports_malformed_tokens() {
    match parse_dependency("noversion") {
        Err(SoftwareManagerError::ParseDependencyError(tok)) => assert_eq!(tok, "noversion"),
        _ => panic!("a token without a dash must fail"),
    }
    match parse_dependency("app-1.0") {
        Err(SoftwareManagerError::ParseDependencyError(part)) => assert_eq!(part, "1.0"),
        _ => panic!("a two-part version must fail"),
    }
    assert!(parse_dependency("app-").is_err());
}

#[test]
fn bootstrap_profile_parses_both_token_lists() {
    let temp = BootstrapConfigurationTemp {
        depends: vec!["app-1.0.0".to_string(), "lib-2.0.0".to_string()],
        recommended: vec!["extra-0.1.0".to_string()],
    };
    let config = BootstrapConfiguration::from_temp(temp).unwrap();
    let depends = config.get_depends();
    assert_eq!(depends.len(), 2);
    assert_eq!(depends[0].archive, "app");
    assert_eq!(depends[1].version_wrapper, ver(2, 0, 0));
    let rec = config.get_recommends();
    assert_eq!(rec.len(), 1);
    assert_eq!(rec[0].archive, "extra");
}

#[test]
fn bootstrap_profile_fails_on_the_first_bad_token() {
    let temp = BootstrapConfigurationTemp {
        depends: vec!["app-1.0.0".to_string(), "bad".to_string()],
        recommended: vec![],
    };
    assert!(matches!(
        BootstrapConfiguration::from_temp(temp),
        Err(SoftwareManagerError::ParseDependencyError(_))
    ));
}

#[test]
fn profile_handler_parses_token_lists() {
    let handler = profile_handler();
    let out = handler
        .from_tokens_to_dependencies(&vec!["a-1.0.0".to_string(), "b-2.1.0".to_string()])
        .unwrap();
    assert_eq!(out.len(), 2);
    assert_eq!(out[1].archive, "b");
    assert!(handler
        .from_tokens_to_dependencies(&vec!["broken".to_string()])
        .is_err());
}

#[test]
fn version_and_dependency_spellings_round_trip() {
    assert_eq!(ver(1, 2, 3).to_string(), "1.2.3");
    assert_eq!(ver(0, 0, 0).to_string(), "0.0.0");
    assert_eq!(ver(10, 0, 205).to_string(), "10.0.205");
    assert_eq!(u64_dec_string(0), "0");
    assert_eq!(u64_dec_string(907), "907");
    let d = Dependency::new("app".to_string(), ver(1, 0, 0));
    assert_eq!(d.to_string(), "app-1.0.0");
    assert_eq!(parse_version(&ver(44, 5, 6).to_string()), Some(ver(44, 5, 6)));
    let p = Package::new(
        "lib".to_string(),
        ver(2, 0, 0),
        String::new(),
        String::new(),
        String::new(),
        String::new(),
        "http://x".to_string(),
        String::new(),
    );
    assert_eq!(p.to_string(), "lib-2.0.0");
    assert_eq!(p.download(), "http://x");
}

#[test]
fn error_messages_match_their_variants() {
    assert_eq!(
        PackageManagerError::PackageNotFound("x".to_string()).to_string(),
        "Package x not found"
    );
    assert_eq!(
        PackageManagerError::PackageInstalled.to_string(),
        "Package already installed"
    );
    assert_eq!(
        SoftwareManagerError::DownloadError("boom".to_string()).to_string(),
        "download error: boom"
    );
    let cycle = SoftwareManagerError::CircularDependency(vec![
        Dependency::new("a".to_string(), ver(1, 0, 0)),
        Dependency::new("b".to_string(), ver(1, 0, 0)),
    ]);
    assert_eq!(cycle.to_string(), "a-1.0.0b-1.0.0");
}

#[test]
fn software_errors_lift_into_the_global_taxonomy() {
    let g = GlobalError::from_software(SoftwareManagerError::DownloadError("x".to_string()));
    assert!(matches!(g, GlobalError::DownloadError(s) if s == "x"));
    let g = GlobalError::from_software(SoftwareManagerError::PackageUninstallFailed);
    assert!(matches!(g, GlobalError::RemoveDependencyError(s) if s == "package uninstall failed"));
    let s = SoftwareManagerError::from(PackageManagerError::PackageLockFailed);
    assert!(matches!(s, SoftwareManagerError::PackageLockFailed));
    let g = GlobalError::from(pkgman::errors::ConfigurationManagerError::DuplicateConfiguration);
    assert!(matches!(g, GlobalError::DuplicateConfiguration));
}

#[test]
fn download_payload_decisions_follow_the_envelope() {
    // a status code means the server refused; its message is surfaced
    match interpret_download_response(true, "denied".to_string(), None) {
        Err(SoftwareManagerError::DownloadError(m)) => assert_eq!(m, "denied"),
        _ => panic!("a status code must surface the message"),
    }
    // no payload field
    match interpret_download_response(false, String::new(), None) {
        Err(SoftwareManagerError::DownloadError(m)) => assert_eq!(m, "data is none"),
        _ => panic!("a missing payload must fail"),
    }
    // a real base64 payload decodes
    match interpret_download_response(false, String::new(), Some("aGVsbG8=".to_string())) {
        Ok(bytes) => assert_eq!(bytes, b"hello".to_vec()),
        _ => panic!("valid base64 must decode"),
    }
    // garbage is rejected by the decoder
    match interpret_download_response(false, String::new(), Some("!!!".to_string())) {
        Err(SoftwareManagerError::DownloadError(m)) => {
            assert_eq!(m, "Failed to decode Base64 string.")
        }
        _ => panic!("invalid base64 must fail"),
    }
}

#[test]
fn version_order_is_lexicographic() {
    assert!(ver(1, 9, 9).le(&ver(2, 0, 0)));
    assert!(ver(2, 0, 0).le(&ver(2, 0, 0)));
    assert!(!ver(2, 0, 1).le(&ver(2, 0, 0)));
    assert!(ver(2, 1, 0).le(&ver(2, 2, 0)));
}
