use revius::config::{
    config_scope, default_case_sensitive, default_chunk_avg, default_chunk_max, default_chunk_min, default_chunking,
    default_compression, default_compression_level, load_default_repo_config, merge, parse_bool, parse_u32, parse_u8,
    set_repo_config_value, set_user_config_value, set_user_identity, validate, Config, ConfigScope, CoreConfig,
    RepoConfig, UserConfig, UserInfo,
};
use revius::config_manager;
use revius::content::CdcParams;
use revius::ReviusError;

fn config_msg(r: Result<impl std::fmt::Debug, ReviusError>) -> String {
    match r {
        Err(ReviusError::Config(m)) => m,
        other => panic!("expected a config error, got {:?}", other),
    }
}

fn cfg() -> Config {
    Config {
        compression: true,
        compression_level: 3,
        chunking: true,
        chunk_min: 8192,
        chunk_avg: 16384,
        chunk_max: 32768,
        user_name: Some("A".to_string()),
        user_email: Some("a@b".to_string()),
    }
}

#[test]
fn defaults() {
    assert!(default_compression());
    assert_eq!(default_compression_level(), 3);
    assert!(default_chunking());
    assert_eq!((default_chunk_min(), default_chunk_avg(), default_chunk_max()), (8192, 16384, 32768));
    assert!(default_case_sensitive());
    let r = load_default_repo_config();
    assert!(r.core.compression && r.core.chunking && r.core.case_sensitive);
    assert_eq!(r.core.compression_level, 3);
    assert_eq!(r.core.chunk_max, 32768);
    let c = CoreConfig::default();
    assert_eq!(c.chunk_min, 8192);
    assert!(UserConfig::default().user.is_none());
    let u = UserInfo::default();
    assert!(u.name.is_none() && u.email.is_none());
}

#[test]
fn validation_rules_in_order() {
    assert!(validate(&cfg()).is_ok());
    let mut c = cfg();
    c.chunk_min = 0;
    assert_eq!(config_msg(validate(&c)), "chunk_min must be > 0");
    let mut c = cfg();
    c.chunk_avg = 100;
    assert_eq!(config_msg(validate(&c)), "chunk_avg must be >= chunk_min");
    let mut c = cfg();
    c.chunk_max = 10000;
    assert_eq!(config_msg(validate(&c)), "chunk_max must be >= chunk_avg");
    let mut c = cfg();
    c.chunking = false;
    c.chunk_min = 0;
    assert!(validate(&c).is_ok());
    let mut c = cfg();
    c.compression_level = 0;
    assert_eq!(config_msg(validate(&c)), "compression_level must be between 1 and 22");
    let mut c = cfg();
    c.compression_level = 23;
    assert_eq!(config_msg(validate(&c)), "compression_level must be between 1 and 22");
    let mut c = cfg();
    c.user_email = Some("nobody".to_string());
    assert_eq!(config_msg(validate(&c)), "user.email appears invalid");
}

#[test]
fn merge_takes_identity_from_user_file() {
    let repo = RepoConfig::default();
    let user = UserConfig { user: Some(UserInfo { name: Some("Ann".to_string()), email: Some("ann@x".to_string()) }) };
    let c = merge(repo, Some(user)).unwrap();
    assert_eq!(c.user_name.as_deref(), Some("Ann"));
    assert_eq!(c.user_email.as_deref(), Some("ann@x"));
    assert_eq!(c.chunk_avg, 16384);
    let c = merge(RepoConfig::default(), None).unwrap();
    assert!(c.user_name.is_none());
    let bad = UserConfig { user: Some(UserInfo { name: None, email: Some("bad".to_string()) }) };
    assert_eq!(config_msg(merge(RepoConfig::default(), Some(bad))), "user.email appears invalid");
}

#[test]
fn parsing_values() {
    assert!(parse_bool("true").unwrap());
    assert!(!parse_bool("false").unwrap());
    assert_eq!(config_msg(parse_bool("yes")), "Invalid boolean value: 'yes' (expected true/false)");
    assert_eq!(parse_u8("255").unwrap(), 255);
    assert_eq!(parse_u8("+7").unwrap(), 7);
    assert_eq!(config_msg(parse_u8("256")), "Invalid number: '256'");
    assert_eq!(config_msg(parse_u8("-1")), "Invalid number: '-1'");
    assert_eq!(config_msg(parse_u8("")), "Invalid number: ''");
    assert_eq!(parse_u32("4294967295").unwrap(), 4294967295);
    assert_eq!(config_msg(parse_u32("4294967296")), "Invalid number: '4294967296'");
}

#[test]
fn scopes_of_keys() {
    assert_eq!(config_scope("user.name").unwrap(), ConfigScope::User);
    assert_eq!(config_scope("core.chunking").unwrap(), ConfigScope::Repo);
    assert_eq!(
        config_msg(config_scope("other.x")),
        "Unknown configuration scope for key 'other.x'. Keys must start with 'user.' or 'core.'"
    );
}

#[test]
fn setting_repo_values() {
    let mut r = RepoConfig::default();
    assert_eq!(set_repo_config_value(&mut r, "core.compression", "false").unwrap(), "local");
    assert!(!r.core.compression);
    set_repo_config_value(&mut r, "core.compression_level", "9").unwrap();
    assert_eq!(r.core.compression_level, 9);
    assert_eq!(config_msg(set_repo_config_value(&mut r, "core.compression_level", "30")), "compression_level must be between 1 and 22");
    assert_eq!(r.core.compression_level, 9);
    set_repo_config_value(&mut r, "core.chunk_min", "100").unwrap();
    set_repo_config_value(&mut r, "core.chunk_avg", "200").unwrap();
    set_repo_config_value(&mut r, "core.chunk_max", "300").unwrap();
    set_repo_config_value(&mut r, "core.chunking", "false").unwrap();
    set_repo_config_value(&mut r, "core.case_sensitive", "false").unwrap();
    assert_eq!((r.core.chunk_min, r.core.chunk_avg, r.core.chunk_max), (100, 200, 300));
    assert!(!r.core.chunking && !r.core.case_sensitive);
    assert_eq!(config_msg(set_repo_config_value(&mut r, "core.nope", "1")), "Unknown core config key: 'core.nope'");
    assert_eq!(config_msg(set_repo_config_value(&mut r, "core.chunk_min", "x")), "Invalid number: 'x'");
}

#[test]
fn setting_user_values() {
    let mut u = UserConfig::default();
    assert_eq!(set_user_config_value(&mut u, "user.name", "Bo").unwrap(), "global");
    set_user_config_value(&mut u, "user.email", "bo@x").unwrap();
    let info = u.user.as_ref().unwrap();
    assert_eq!(info.name.as_deref(), Some("Bo"));
    assert_eq!(info.email.as_deref(), Some("bo@x"));
    assert_eq!(config_msg(set_user_config_value(&mut u, "user.age", "3")), "Unknown user config key: 'user.age'");
    let mut v = UserConfig::default();
    set_user_identity(&mut v, "Cy", "cy@x");
    let info = v.user.as_ref().unwrap();
    assert_eq!((info.name.as_deref(), info.email.as_deref()), (Some("Cy"), Some("cy@x")));
}

#[test]
fn settings_files_overlay_defaults() {
    let mut c = config_manager::Config::default();
    assert_eq!(c.user_name, "Unknown");
    assert_eq!(c.user_email, "unknown@example.com");
    assert_eq!((c.cdc.min_size, c.cdc.avg_size, c.cdc.max_size), (16384, 32768, 65536));
    assert_eq!((c.zstd_level, c.repo_format), (3, 1));
    c.merge(config_manager::ConfigFile {
        user: Some(config_manager::UserConfig { name: "Dee".to_string(), email: String::new() }),
        core: Some(config_manager::CoreConfig { cdc_min: Some(100), cdc_avg: None, cdc_max: None, zstd_level: Some(7), repository_format: None }),
    });
    assert_eq!(c.user_name, "Dee");
    assert_eq!(c.user_email, "unknown@example.com");
    assert_eq!(c.cdc.min_size, 100);
    assert_eq!(c.cdc.avg_size, 32768);
    assert_eq!(c.zstd_level, 7);
    assert_eq!(c.repo_format, 1);
    let _ = CdcParams { min_size: 1, avg_size: 2, max_size: 3 };
}
