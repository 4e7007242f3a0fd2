use vstd::prelude::*;
use crate::error::ReviusError;
use crate::text::{parse_unsigned, spec_parse_unsigned, spec_signed_decimal, push_signed_decimal, concat, str_chars};

verus! {

/// The value `str::parse::<i64>` gives: an optional sign, then decimal
/// digits, within the range of `i64`.
pub open spec fn spec_parse_i64(s: Seq<char>) -> Option<int> {
    if s.len() > 0 && s[0] == '-' {
        let r = s.drop_first();
        if r.len() > 0 && r[0] == '+' {
            None
        } else {
            match spec_parse_unsigned(r, 9223372036854775808) {
                Some(n) => Some(-n),
                None => None,
            }
        }
    } else {
        match spec_parse_unsigned(s, 9223372036854775807) {
            Some(n) => Some(n as int),
            None => None,
        }
    }
}

/// Parses a signed 64-bit decimal number.
pub fn parse_i64(s: &str) -> (r: Option<i64>)
    ensures
        match spec_parse_i64(s@) {
            Some(n) => r matches Some(v) && v as int == n,
            None => r is None,
        },
{
    let cs = str_chars(s);
    if cs.len() > 0 && cs[0] == '-' {
        let n = cs.len();
        let rest = crate::text::string_from_chars(&cs.as_slice()[1..n]);
        proof {
            assert(rest@ =~= s@.drop_first());
        }
        if cs.len() > 1 && cs[1] == '+' {
            return None;
        }
        match parse_unsigned(rest.as_str(), 9223372036854775808) {
            Some(v) => {
                if v == 9223372036854775808 {
                    Some(-9223372036854775807i64 - 1)
                } else {
                    Some(-(v as i64))
                }
            },
            None => None,
        }
    } else {
        match parse_unsigned(s, 9223372036854775807) {
            Some(v) => Some(v as i64),
            None => None,
        }
    }
}

/// The schema version this program reads and writes.
pub const CURRENT_SCHEMA_VERSION: i64 = 1;

/// The schema version recorded in a repository, as text.
pub fn parse_schema_version(text: &str) -> (r: Result<i64, ReviusError>)
    ensures
        match spec_parse_i64(text@) {
            Some(n) => r matches Ok(v) && v as int == n,
            None => r matches Err(ReviusError::Db(m)) && m@ == "Invalid schema version format: "@ + text@,
        },
{
    match parse_i64(text) {
        Some(v) => Ok(v),
        None => Err(ReviusError::Db(concat("Invalid schema version format: ", text))),
    }
}

/// Why a repository with this schema version cannot be opened, if it cannot.
pub open spec fn schema_version_error(version: i64) -> Option<Seq<char>> {
    if version > 1 {
        Some("Repository uses schema version "@ + spec_signed_decimal(version as int)
            + ", but this Revius version only supports up to 1.\nPlease upgrade Revius to open this repository."@)
    } else if version < 1 {
        Some("Repository uses outdated schema version "@ + spec_signed_decimal(version as int)
            + " (current: 1).\nAutomatic migrations not yet implemented.\nOptions:\n1. Use an older Revius version (schema "@
            + spec_signed_decimal(version as int)
            + ")\n2. Recreate the repository\n3. Wait for migration support in future release"@)
    } else {
        None
    }
}

/// Checks that a repository's schema version is the current one.
pub fn check_schema_version(version: i64) -> (r: Result<(), ReviusError>)
    ensures
        match schema_version_error(version) {
            Some(msg) => r matches Err(ReviusError::Config(m)) && m@ == msg,
            None => r is Ok,
        },
{
    if version > CURRENT_SCHEMA_VERSION {
        let mut m = String::from_str("Repository uses schema version ");
        push_signed_decimal(&mut m, version);
        m.append(", but this Revius version only supports up to 1.\nPlease upgrade Revius to open this repository.");
        return Err(ReviusError::Config(m));
    }
    if version < CURRENT_SCHEMA_VERSION {
        let mut m = String::from_str("Repository uses outdated schema version ");
        push_signed_decimal(&mut m, version);
        m.append(" (current: 1).\nAutomatic migrations not yet implemented.\nOptions:\n1. Use an older Revius version (schema ");
        push_signed_decimal(&mut m, version);
        m.append(")\n2. Recreate the repository\n3. Wait for migration support in future release");
        return Err(ReviusError::Config(m));
    }
    Ok(())
}

/// A client opens repositories up to version 1.
pub fn check_repository_version(version: i64) -> (r: Result<(), ReviusError>)
    ensures
        version <= 1 ==> r is Ok,
        version > 1 ==> (r matches Err(ReviusError::Db(m)) && m@ == "Repository version "@
            + spec_signed_decimal(version as int) + " is too new for this client (max supported: 1)"@),
{
    if version > 1 {
        let mut m = String::from_str("Repository version ");
        push_signed_decimal(&mut m, version);
        m.append(" is too new for this client (max supported: 1)");
        return Err(ReviusError::Db(m));
    }
    Ok(())
}

/// The metadata a new repository starts with: its schema version, its
/// identifier and HEAD on branch main.
pub fn initial_meta(uuid: &str) -> (r: Vec<(String, String)>)
    ensures
        r@.map_values(|e: (String, String)| (e.0@, e.1@)) == seq![
            ("schema_version"@, "1"@),
            ("repository_uuid"@, uuid@),
            ("HEAD"@, "ref: refs/heads/main"@),
        ],
{
    let mut v: Vec<(String, String)> = Vec::new();
    v.push((String::from_str("schema_version"), String::from_str("1")));
    v.push((String::from_str("repository_uuid"), String::from_str(uuid)));
    v.push((String::from_str("HEAD"), String::from_str("ref: refs/heads/main")));
    assert(v@.map_values(|e: (String, String)| (e.0@, e.1@)) =~= seq![
        ("schema_version"@, "1"@),
        ("repository_uuid"@, uuid@),
        ("HEAD"@, "ref: refs/heads/main"@),
    ]);
    v
}

/// The error for initializing where a repository directory already exists:
/// already initialized when it opens, corrupt otherwise.
pub fn existing_repo_error(opened: Result<String, ReviusError>) -> (r: ReviusError)
    ensures
        match opened {
            Ok(root) => r matches ReviusError::AlreadyInitialized(s) && s@ == root@,
            Err(ReviusError::Corrupt(msg)) => r matches ReviusError::Corrupt(s)
                && s@ == "existing .rvs found but repo is corrupt: "@ + msg@,
            Err(_) => r matches ReviusError::Corrupt(s) && s@ == "existing .rvs found but cannot open repository"@,
        },
{
    match opened {
        Ok(root) => ReviusError::AlreadyInitialized(root),
        Err(ReviusError::Corrupt(msg)) => ReviusError::Corrupt(concat("existing .rvs found but repo is corrupt: ", msg.as_str())),
        Err(_) => ReviusError::Corrupt(String::from_str("existing .rvs found but cannot open repository")),
    }
}

/// Checks the schema version stored in a repository's metadata when it is
/// opened: it must be present, a 32-bit integer, and 1.
pub fn check_meta_version(value: Option<&str>) -> (r: Result<(), ReviusError>)
    ensures
        match value {
            None => r matches Err(ReviusError::Corrupt(m)) && m@ == "Missing schema_version in Meta"@,
            Some(t) => match spec_parse_i64(t@) {
                Some(n) => if n < -2147483648 || n > 2147483647 {
                    r matches Err(ReviusError::Corrupt(m)) && m@ == "Invalid schema_version in Meta"@
                } else if n != 1 {
                    r matches Err(ReviusError::Corrupt(m)) && m@ == "Unsupported repository version: "@ + spec_signed_decimal(n)
                } else {
                    r is Ok
                },
                None => r matches Err(ReviusError::Corrupt(m)) && m@ == "Invalid schema_version in Meta"@,
            },
        },
{
    let text = match value {
        None => {
            return Err(ReviusError::Corrupt(String::from_str("Missing schema_version in Meta")));
        },
        Some(t) => t,
    };
    let v = match parse_i64(text) {
        Some(v) => v,
        None => {
            return Err(ReviusError::Corrupt(String::from_str("Invalid schema_version in Meta")));
        },
    };
    if v < -2147483648 || v > 2147483647 {
        return Err(ReviusError::Corrupt(String::from_str("Invalid schema_version in Meta")));
    }
    if v != 1 {
        let mut m = String::from_str("Unsupported repository version: ");
        push_signed_decimal(&mut m, v);
        return Err(ReviusError::Corrupt(m));
    }
    Ok(())
}

} // verus!
