use vstd::prelude::*;
use crate::content::CdcParams;

verus! {

/// The identity a settings file names.
#[derive(Debug)]
pub struct UserConfig {
    pub name: String,
    pub email: String,
}

/// The storage settings a settings file may name; missing ones are kept.
#[derive(Debug)]
pub struct CoreConfig {
    pub cdc_min: Option<usize>,
    pub cdc_avg: Option<usize>,
    pub cdc_max: Option<usize>,
    pub zstd_level: Option<i32>,
    pub repository_format: Option<i32>,
}

/// One settings file.
#[derive(Debug)]
pub struct ConfigFile {
    pub user: Option<UserConfig>,
    pub core: Option<CoreConfig>,
}

/// The settings after all files are laid over the defaults.
#[derive(Debug)]
pub struct Config {
    pub user_name: String,
    pub user_email: String,
    pub cdc: CdcParams,
    pub zstd_level: i32,
    pub repo_format: i32,
}

impl Default for Config {
    fn default() -> (c: Config)
        ensures
            c.user_name@ == "Unknown"@,
            c.user_email@ == "unknown@example.com"@,
            c.cdc.min_size == 16384 && c.cdc.avg_size == 32768 && c.cdc.max_size == 65536,
            c.zstd_level == 3,
            c.repo_format == 1,
    {
        Config {
            user_name: String::from_str("Unknown"),
            user_email: String::from_str("unknown@example.com"),
            cdc: CdcParams { min_size: 16 * 1024, avg_size: 32 * 1024, max_size: 64 * 1024 },
            zstd_level: 3,
            repo_format: 1,
        }
    }
}

pub open spec fn or_keep<T>(o: Option<T>, cur: T) -> T {
    match o {
        Some(v) => v,
        None => cur,
    }
}

impl Config {
    /// Lays a settings file over the current settings: a non-empty name or
    /// email replaces the current one, and each storage setting the file
    /// names replaces the current one.
    pub fn merge(&mut self, file: ConfigFile)
        ensures
            final(self).user_name@ == (match file.user {
                Some(u) => if u.name@.len() > 0 { u.name@ } else { old(self).user_name@ },
                None => old(self).user_name@,
            }),
            final(self).user_email@ == (match file.user {
                Some(u) => if u.email@.len() > 0 { u.email@ } else { old(self).user_email@ },
                None => old(self).user_email@,
            }),
            match file.core {
                Some(c) => {
                    &&& final(self).cdc.min_size == or_keep(c.cdc_min, old(self).cdc.min_size)
                    &&& final(self).cdc.avg_size == or_keep(c.cdc_avg, old(self).cdc.avg_size)
                    &&& final(self).cdc.max_size == or_keep(c.cdc_max, old(self).cdc.max_size)
                    &&& final(self).zstd_level == or_keep(c.zstd_level, old(self).zstd_level)
                    &&& final(self).repo_format == or_keep(c.repository_format, old(self).repo_format)
                },
                None => final(self).cdc == old(self).cdc && final(self).zstd_level == old(self).zstd_level
                    && final(self).repo_format == old(self).repo_format,
            },
    {
        match file.user {
            Some(u) => {
                if u.name.unicode_len() > 0 {
                    self.user_name = u.name;
                }
                if u.email.unicode_len() > 0 {
                    self.user_email = u.email;
                }
            },
            None => {},
        }
        match file.core {
            Some(c) => {
                match c.cdc_min {
                    Some(v) => { self.cdc.min_size = v; },
                    None => {},
                }
                match c.cdc_avg {
                    Some(v) => { self.cdc.avg_size = v; },
                    None => {},
                }
                match c.cdc_max {
                    Some(v) => { self.cdc.max_size = v; },
                    None => {},
                }
                match c.zstd_level {
                    Some(v) => { self.zstd_level = v; },
                    None => {},
                }
                match c.repository_format {
                    Some(v) => { self.repo_format = v; },
                    None => {},
                }
            },
            None => {},
        }
    }
}

} // verus!
