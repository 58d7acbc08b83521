use neuromitosis::records::{StoreConfig, TrustclawConfig};
use neuromitosis::security::{is_command_allowed, is_path_forbidden, AutonomyLevel, SecurityPolicy};

#[test]
fn default_policy() {
    let p = SecurityPolicy::default();
    assert_eq!(p.autonomy, AutonomyLevel::Supervised);
    assert_eq!(AutonomyLevel::default(), AutonomyLevel::Supervised);
    assert!(p.workspace_only && p.require_pairing);
    assert_eq!(p.allowed_commands, vec!["git", "cargo", "ls", "cat", "grep"]);
    assert_eq!(p.forbidden_paths.len(), 7);
}

#[test]
fn commands_by_first_word() {
    let p = SecurityPolicy::default();
    assert!(is_command_allowed(&p, "git status"));
    assert!(is_command_allowed(&p, "  ls\t-la"));
    assert!(!is_command_allowed(&p, "rm -rf /"));
    assert!(!is_command_allowed(&p, "gitx"));
    assert!(!is_command_allowed(&p, ""));
    assert!(!is_command_allowed(&p, "   "));
}

#[test]
fn paths_by_prefix() {
    let p = SecurityPolicy::default();
    assert!(is_path_forbidden(&p, "/etc/passwd"));
    assert!(is_path_forbidden(&p, "~/.ssh/id_rsa"));
    assert!(!is_path_forbidden(&p, "/home/user/etc"));
    assert!(!is_path_forbidden(&p, "/et"));
}

#[test]
fn default_configs() {
    let s = StoreConfig::default();
    assert_eq!(s.registry_url, "https://llm.store/api/v1");
    assert!(s.api_key.is_none());
    let t = TrustclawConfig::default();
    assert_eq!(t.name, "Trustclaw");
    assert_eq!(t.autonomy, "supervised");
}
