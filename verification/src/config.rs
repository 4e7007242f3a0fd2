use vstd::prelude::*;
use crate::error::ReviusError;
use crate::text::{contains_char, parse_unsigned, spec_parse_unsigned, str_eq, starts_with, has_prefix};

verus! {

pub fn default_compression() -> (r: bool)
    ensures
        r,
{
    true
}

pub fn default_compression_level() -> (r: u8)
    ensures
        r == 3,
{
    3
}

pub fn default_chunking() -> (r: bool)
    ensures
        r,
{
    true
}

pub fn default_chunk_min() -> (r: u32)
    ensures
        r == 8192,
{
    8192
}

pub fn default_chunk_avg() -> (r: u32)
    ensures
        r == 16384,
{
    16384
}

pub fn default_chunk_max() -> (r: u32)
    ensures
        r == 32768,
{
    32768
}

pub fn default_case_sensitive() -> (r: bool)
    ensures
        r,
{
    true
}

/// Storage settings of a repository.
#[derive(Debug, Clone, Copy)]
pub struct CoreConfig {
    pub compression: bool,
    pub compression_level: u8,
    pub chunking: bool,
    pub chunk_min: u32,
    pub chunk_avg: u32,
    pub chunk_max: u32,
    pub case_sensitive: bool,
}

/// The settings the repository's own file holds.
#[derive(Debug, Clone, Copy)]
pub struct RepoConfig {
    pub core: CoreConfig,
}

/// The default storage settings: compression at level 3, chunking with
/// 8 KiB / 16 KiB / 32 KiB chunks, case-sensitive paths.
pub open spec fn default_core(c: CoreConfig) -> bool {
    &&& c.compression
    &&& c.compression_level == 3
    &&& c.chunking
    &&& c.chunk_min == 8192
    &&& c.chunk_avg == 16384
    &&& c.chunk_max == 32768
    &&& c.case_sensitive
}

impl Default for CoreConfig {
    fn default() -> (c: CoreConfig)
        ensures
            default_core(c),
    {
        CoreConfig {
            compression: default_compression(),
            compression_level: default_compression_level(),
            chunking: default_chunking(),
            chunk_min: default_chunk_min(),
            chunk_avg: default_chunk_avg(),
            chunk_max: default_chunk_max(),
            case_sensitive: default_case_sensitive(),
        }
    }
}

impl Default for RepoConfig {
    fn default() -> (c: RepoConfig)
        ensures
            default_core(c.core),
    {
        RepoConfig { core: CoreConfig::default() }
    }
}

/// The identity in the user's own file.
#[derive(Debug)]
pub struct UserInfo {
    pub name: Option<String>,
    pub email: Option<String>,
}

impl Default for UserInfo {
    fn default() -> (u: UserInfo)
        ensures
            u.name is None && u.email is None,
    {
        UserInfo { name: None, email: None }
    }
}

/// The settings the user's own file holds.
#[derive(Debug)]
pub struct UserConfig {
    pub user: Option<UserInfo>,
}

impl Default for UserConfig {
    fn default() -> (u: UserConfig)
        ensures
            u.user is None,
    {
        UserConfig { user: None }
    }
}

/// The settings a repository runs with.
#[derive(Debug)]
pub struct Config {
    pub compression: bool,
    pub compression_level: u8,
    pub chunking: bool,
    pub chunk_min: u32,
    pub chunk_avg: u32,
    pub chunk_max: u32,
    pub user_name: Option<String>,
    pub user_email: Option<String>,
}

/// The first rule that settings break, if any: with chunking on, chunk
/// sizes must be positive and ordered min <= avg <= max; the compression
/// level lies in 1..=22; an email holds an '@'.
pub open spec fn config_rules(
    compression_level: u8,
    chunking: bool,
    chunk_min: u32,
    chunk_avg: u32,
    chunk_max: u32,
    email: Option<Seq<char>>,
) -> Option<Seq<char>> {
    if chunking && chunk_min == 0 {
        Some("chunk_min must be > 0"@)
    } else if chunking && chunk_avg < chunk_min {
        Some("chunk_avg must be >= chunk_min"@)
    } else if chunking && chunk_max < chunk_avg {
        Some("chunk_max must be >= chunk_avg"@)
    } else if compression_level < 1 || compression_level > 22 {
        Some("compression_level must be between 1 and 22"@)
    } else if email matches Some(e) && !e.contains('@') {
        Some("user.email appears invalid"@)
    } else {
        None
    }
}

pub open spec fn opt_str(o: Option<String>) -> Option<Seq<char>> {
    match o {
        Some(s) => Some(s@),
        None => None,
    }
}

/// The first rule the settings break, if any.
pub open spec fn config_error(cfg: Config) -> Option<Seq<char>> {
    config_rules(cfg.compression_level, cfg.chunking, cfg.chunk_min, cfg.chunk_avg, cfg.chunk_max, opt_str(cfg.user_email))
}

/// Checks the settings.
pub fn validate(cfg: &Config) -> (r: Result<(), ReviusError>)
    ensures
        match config_error(*cfg) {
            Some(msg) => r matches Err(ReviusError::Config(m)) && m@ == msg,
            None => r is Ok,
        },
{
    if cfg.chunking {
        if cfg.chunk_min == 0 {
            return Err(ReviusError::Config(String::from_str("chunk_min must be > 0")));
        }
        if cfg.chunk_avg < cfg.chunk_min {
            return Err(ReviusError::Config(String::from_str("chunk_avg must be >= chunk_min")));
        }
        if cfg.chunk_max < cfg.chunk_avg {
            return Err(ReviusError::Config(String::from_str("chunk_max must be >= chunk_avg")));
        }
    }
    if cfg.compression_level < 1 || cfg.compression_level > 22 {
        return Err(ReviusError::Config(String::from_str("compression_level must be between 1 and 22")));
    }
    match &cfg.user_email {
        Some(email) => {
            if !contains_char(email.as_str(), '@') {
                return Err(ReviusError::Config(String::from_str("user.email appears invalid")));
            }
        },
        None => {},
    }
    Ok(())
}

/// The user's name and email from the user's file, if set.
pub open spec fn user_name_of(user: Option<UserConfig>) -> Option<Seq<char>> {
    match user {
        Some(UserConfig { user: Some(info) }) => opt_str(info.name),
        _ => None,
    }
}

pub open spec fn user_email_of(user: Option<UserConfig>) -> Option<Seq<char>> {
    match user {
        Some(UserConfig { user: Some(info) }) => opt_str(info.email),
        _ => None,
    }
}

/// The settings from the repository's file and the user's identity from the
/// user's file, checked.
pub fn merge(repo: RepoConfig, user: Option<UserConfig>) -> (r: Result<Config, ReviusError>)
    ensures
        match config_rules(repo.core.compression_level, repo.core.chunking, repo.core.chunk_min,
            repo.core.chunk_avg, repo.core.chunk_max, user_email_of(user)) {
            Some(msg) => r matches Err(ReviusError::Config(m)) && m@ == msg,
            None => r is Ok,
        },
        r matches Ok(c) ==> c.compression == repo.core.compression && c.compression_level == repo.core.compression_level
            && c.chunking == repo.core.chunking && c.chunk_min == repo.core.chunk_min
            && c.chunk_avg == repo.core.chunk_avg && c.chunk_max == repo.core.chunk_max
            && opt_str(c.user_name) == user_name_of(user) && opt_str(c.user_email) == user_email_of(user),
{
    let (user_name, user_email) = match user {
        Some(UserConfig { user: Some(info) }) => (info.name, info.email),
        _ => (None, None),
    };
    let config = Config {
        compression: repo.core.compression,
        compression_level: repo.core.compression_level,
        chunking: repo.core.chunking,
        chunk_min: repo.core.chunk_min,
        chunk_avg: repo.core.chunk_avg,
        chunk_max: repo.core.chunk_max,
        user_name,
        user_email,
    };
    validate(&config)?;
    Ok(config)
}

/// The repository settings used when the repository has no file of its own.
pub fn load_default_repo_config() -> (r: RepoConfig)
    ensures
        default_core(r.core),
{
    RepoConfig::default()
}

/// The value of a boolean setting (`str::parse::<bool>`): exactly "true" or "false".
pub open spec fn spec_parse_bool(v: Seq<char>) -> Option<bool> {
    if v == "true"@ {
        Some(true)
    } else if v == "false"@ {
        Some(false)
    } else {
        None
    }
}

pub open spec fn bool_error(v: Seq<char>) -> Seq<char> {
    "Invalid boolean value: '"@ + v + "' (expected true/false)"@
}

pub open spec fn number_error(v: Seq<char>) -> Seq<char> {
    "Invalid number: '"@ + v + "'"@
}

fn quoted_error(prefix: &str, v: &str, suffix: &str) -> (r: ReviusError)
    ensures
        r matches ReviusError::Config(m) && m@ == prefix@ + v@ + suffix@,
{
    let mut m = String::from_str(prefix);
    m.append(v);
    m.append(suffix);
    ReviusError::Config(m)
}

/// Parses a boolean setting.
pub fn parse_bool(v: &str) -> (r: Result<bool, ReviusError>)
    ensures
        match spec_parse_bool(v@) {
            Some(b) => r == Ok::<bool, ReviusError>(b),
            None => r matches Err(ReviusError::Config(m)) && m@ == bool_error(v@),
        },
{
    if str_eq(v, "true") {
        Ok(true)
    } else if str_eq(v, "false") {
        Ok(false)
    } else {
        Err(quoted_error("Invalid boolean value: '", v, "' (expected true/false)"))
    }
}

/// Parses an 8-bit setting.
pub fn parse_u8(v: &str) -> (r: Result<u8, ReviusError>)
    ensures
        match spec_parse_unsigned(v@, 255) {
            Some(n) => r matches Ok(x) && x as nat == n,
            None => r matches Err(ReviusError::Config(m)) && m@ == number_error(v@),
        },
{
    match parse_unsigned(v, 255) {
        Some(n) => Ok(n as u8),
        None => Err(quoted_error("Invalid number: '", v, "'")),
    }
}

/// Parses a 32-bit setting.
pub fn parse_u32(v: &str) -> (r: Result<u32, ReviusError>)
    ensures
        match spec_parse_unsigned(v@, 4294967295) {
            Some(n) => r matches Ok(x) && x as nat == n,
            None => r matches Err(ReviusError::Config(m)) && m@ == number_error(v@),
        },
{
    match parse_unsigned(v, 4294967295) {
        Some(n) => Ok(n as u32),
        None => Err(quoted_error("Invalid number: '", v, "'")),
    }
}

/// Which file a setting belongs to.
#[derive(Debug, PartialEq, Eq, Structural, Clone, Copy)]
pub enum ConfigScope {
    User,
    Repo,
}

/// The file a key belongs to: "user." keys to the user's file, "core." keys
/// to the repository's.
pub fn config_scope(key: &str) -> (r: Result<ConfigScope, ReviusError>)
    ensures
        has_prefix(key@, "user."@) ==> r == Ok::<ConfigScope, ReviusError>(ConfigScope::User),
        !has_prefix(key@, "user."@) && has_prefix(key@, "core."@) ==> r == Ok::<ConfigScope, ReviusError>(ConfigScope::Repo),
        !has_prefix(key@, "user."@) && !has_prefix(key@, "core."@) ==> (r matches Err(ReviusError::Config(m))
            && m@ == "Unknown configuration scope for key '"@ + key@ + "'. Keys must start with 'user.' or 'core.'"@),
{
    if starts_with(key, "user.") {
        Ok(ConfigScope::User)
    } else if starts_with(key, "core.") {
        Ok(ConfigScope::Repo)
    } else {
        Err(quoted_error("Unknown configuration scope for key '", key, "'. Keys must start with 'user.' or 'core.'"))
    }
}

/// The user's file after setting `key` ("user.name" or "user.email").
pub open spec fn user_key_ok(key: Seq<char>) -> bool {
    key == "user.name"@ || key == "user.email"@
}

pub open spec fn info_of(c: UserConfig) -> (Option<Seq<char>>, Option<Seq<char>>) {
    match c.user {
        Some(info) => (opt_str(info.name), opt_str(info.email)),
        None => (None, None),
    }
}

/// Sets "user.name" or "user.email" in the user's file; the scope written
/// is "global".
pub fn set_user_config_value(config: &mut UserConfig, key: &str, value: &str) -> (r: Result<String, ReviusError>)
    ensures
        user_key_ok(key@) ==> (r matches Ok(s) && s@ == "global"@) && final(config).user is Some
            && info_of(*final(config)) == (if key@ == "user.name"@ {
                (Some(value@), info_of(*old(config)).1)
            } else {
                (info_of(*old(config)).0, Some(value@))
            }),
        !user_key_ok(key@) ==> (r matches Err(ReviusError::Config(m)) && m@ == "Unknown user config key: '"@ + key@ + "'"@)
            && info_of(*final(config)) == info_of(*old(config)),
{
    let is_name = str_eq(key, "user.name");
    let is_email = str_eq(key, "user.email");
    if !is_name && !is_email {
        return Err(quoted_error("Unknown user config key: '", key, "'"));
    }
    let mut info = match config.user.take() {
        Some(i) => i,
        None => UserInfo::default(),
    };
    if is_name {
        info.name = Some(String::from_str(value));
    } else {
        info.email = Some(String::from_str(value));
    }
    config.user = Some(info);
    Ok(String::from_str("global"))
}

/// Sets the name and email in the user's file.
pub fn set_user_identity(config: &mut UserConfig, name: &str, email: &str)
    ensures
        final(config).user is Some,
        info_of(*final(config)) == (Some(name@), Some(email@)),
{
    let mut info = match config.user.take() {
        Some(i) => i,
        None => UserInfo::default(),
    };
    info.name = Some(String::from_str(name));
    info.email = Some(String::from_str(email));
    config.user = Some(info);
}

/// The repository settings after setting `key` to the text `value`, or why
/// it cannot be set.
pub open spec fn repo_key_update(c: CoreConfig, key: Seq<char>, value: Seq<char>) -> Result<CoreConfig, Seq<char>> {
    if key == "core.compression"@ {
        match spec_parse_bool(value) { Some(b) => Ok(CoreConfig { compression: b, ..c }), None => Err(bool_error(value)) }
    } else if key == "core.compression_level"@ {
        match spec_parse_unsigned(value, 255) {
            Some(n) => if 1 <= n <= 22 {
                Ok(CoreConfig { compression_level: n as u8, ..c })
            } else {
                Err("compression_level must be between 1 and 22"@)
            },
            None => Err(number_error(value)),
        }
    } else if key == "core.chunking"@ {
        match spec_parse_bool(value) { Some(b) => Ok(CoreConfig { chunking: b, ..c }), None => Err(bool_error(value)) }
    } else if key == "core.chunk_min"@ {
        match spec_parse_unsigned(value, 4294967295) { Some(n) => Ok(CoreConfig { chunk_min: n as u32, ..c }), None => Err(number_error(value)) }
    } else if key == "core.chunk_avg"@ {
        match spec_parse_unsigned(value, 4294967295) { Some(n) => Ok(CoreConfig { chunk_avg: n as u32, ..c }), None => Err(number_error(value)) }
    } else if key == "core.chunk_max"@ {
        match spec_parse_unsigned(value, 4294967295) { Some(n) => Ok(CoreConfig { chunk_max: n as u32, ..c }), None => Err(number_error(value)) }
    } else if key == "core.case_sensitive"@ {
        match spec_parse_bool(value) { Some(b) => Ok(CoreConfig { case_sensitive: b, ..c }), None => Err(bool_error(value)) }
    } else {
        Err("Unknown core config key: '"@ + key + "'"@)
    }
}

/// Sets one "core." key in the repository's file; the scope written is "local".
pub fn set_repo_config_value(config: &mut RepoConfig, key: &str, value: &str) -> (r: Result<String, ReviusError>)
    ensures
        match repo_key_update(old(config).core, key@, value@) {
            Ok(c) => (r matches Ok(s) && s@ == "local"@) && final(config).core == c,
            Err(msg) => (r matches Err(ReviusError::Config(m)) && m@ == msg) && final(config).core == old(config).core,
        },
{
    if str_eq(key, "core.compression") {
        config.core.compression = parse_bool(value)?;
    } else if str_eq(key, "core.compression_level") {
        let v = parse_u8(value)?;
        if v < 1 || v > 22 {
            return Err(ReviusError::Config(String::from_str("compression_level must be between 1 and 22")));
        }
        config.core.compression_level = v;
    } else if str_eq(key, "core.chunking") {
        config.core.chunking = parse_bool(value)?;
    } else if str_eq(key, "core.chunk_min") {
        config.core.chunk_min = parse_u32(value)?;
    } else if str_eq(key, "core.chunk_avg") {
        config.core.chunk_avg = parse_u32(value)?;
    } else if str_eq(key, "core.chunk_max") {
        config.core.chunk_max = parse_u32(value)?;
    } else if str_eq(key, "core.case_sensitive") {
        config.core.case_sensitive = parse_bool(value)?;
    } else {
        return Err(quoted_error("Unknown core config key: '", key, "'"));
    }
    Ok(String::from_str("local"))
}

} // verus!
