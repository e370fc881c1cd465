use dreamcoder::engine::config::Config;
use dreamcoder::secrets::{
    command_outcome, AgeProvider, BitwardenProvider, OnePasswordProvider, Provider, SecretError, SecretManager,
};
use dreamcoder::templates::{exists_probe_path, os_block_renders, render_error, TemplateError};

#[test]
fn first_available_provider_is_active() {
    let names = vec!["age".to_string(), "1password".to_string(), "bitwarden".to_string()];
    assert_eq!(SecretManager::choose_active(&names, &vec![false, true, true]), "1password");
    assert_eq!(SecretManager::choose_active(&names, &vec![false, false, false]), "age");
    let m = SecretManager::new(&Config::for_home("/home/u"));
    assert_eq!(m.providers.len(), 3);
    assert!(m.get_active_provider().is_some());
}

#[test]
fn age_commands() {
    let age = Provider::Age(AgeProvider { identity_file: Some("/k".to_string()) });
    let e = age.encrypt_command("in", "out").ok().unwrap();
    assert_eq!(e.program, "age");
    assert_eq!(e.args, vec!["-r", "/k", "-o", "out", "in"]);
    let d = age.decrypt_command("in", Some("out")).ok().unwrap();
    assert_eq!(d.args, vec!["-d", "-i", "/k", "in", "-o", "out"]);
    let keyless = Provider::Age(AgeProvider { identity_file: None });
    assert!(matches!(keyless.encrypt_command("a", "b"), Err(SecretError::Encryption(m)) if m == "No identity file"));
    assert!(matches!(keyless.decrypt_command("a", None), Err(SecretError::Decryption(m)) if m == "No identity file"));
    assert_eq!(AgeProvider::key_file_under("/home/u"), "/home/u/.config/dreamcoder/age.key");
    assert_eq!(age.name(), "age");
}

#[test]
fn vault_commands() {
    let op = Provider::OnePassword(OnePasswordProvider::new());
    assert!(matches!(op.encrypt_command("a", "b"), Err(SecretError::ProviderNotAvailable(_))));
    let read = op.decrypt_command("a", None).ok().unwrap();
    assert_eq!(read.program, "op");
    assert_eq!(read.args, vec!["read", "op://Personal/dotfiles/config"]);
    let bw = Provider::Bitwarden(BitwardenProvider::new());
    assert_eq!(bw.decrypt_command("a", None).ok().unwrap().args, vec!["get", "item", "dotfiles"]);
    assert_eq!(bw.name(), "bitwarden");
}

#[test]
fn manager_without_the_active_provider_refuses() {
    let m = SecretManager { providers: Vec::new(), active_provider: "age".to_string() };
    assert!(matches!(m.encrypt("a", "b"), Err(SecretError::ProviderNotAvailable(p)) if p == "age"));
    assert!(matches!(m.decrypt("a", None), Err(SecretError::ProviderNotAvailable(p)) if p == "age"));
    let chosen = SecretManager {
        providers: vec![Provider::Bitwarden(BitwardenProvider::new()), Provider::Age(AgeProvider { identity_file: None })],
        active_provider: "bitwarden".to_string(),
    };
    assert_eq!(chosen.decrypt("x", None).ok().unwrap().program, "bw");
}

#[test]
fn command_outcomes() {
    assert_eq!(command_outcome(true, true, "ok".to_string(), String::new()).ok().unwrap(), "ok");
    assert!(matches!(command_outcome(true, false, String::new(), "bad".to_string()), Err(SecretError::Encryption(m)) if m == "bad"));
    assert!(matches!(command_outcome(false, false, String::new(), "bad".to_string()), Err(SecretError::Decryption(m)) if m == "bad"));
}

#[test]
fn template_helpers_decide() {
    assert!(os_block_renders(Some("linux"), "linux"));
    assert!(!os_block_renders(Some("macos"), "linux"));
    assert!(!os_block_renders(None, "linux"));
    assert_eq!(exists_probe_path(Some("/etc/hosts"), Some("/home/u")), "/etc/hosts");
    assert_eq!(exists_probe_path(Some("~user/x"), Some("/home/u")), "~user/x");
    assert_eq!(exists_probe_path(None, Some("/home/u")), "");
    assert_eq!(exists_probe_path(Some("~/.config/custom"), Some("/home/u")), "/home/u/.config/custom");
    assert_eq!(exists_probe_path(Some("~"), Some("/home/u")), "/home/u");
    assert_eq!(exists_probe_path(Some("~/.config/custom"), None), "~/.config/custom");
    assert!(matches!(render_error("x".to_string()), TemplateError::Render(m) if m == "x"));
}
