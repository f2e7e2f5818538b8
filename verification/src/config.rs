//! Run-time configuration, read from environment variables and checked
//! all at once at start-up: a missing or malformed value stops the start.
use vstd::prelude::*;
use vstd::string::StringSliceAdditionalSpecFns;
use vstd::utf8::encode_utf8;

use crate::text::{
    ascii_lower, chars_eq, chars_of, parse_i64, parse_signed, parse_unsigned, parse_unsigned_bytes,
    split_on, split_trimmed, string_of, string_views, to_ascii_lower, trim, trim_chars,
    trimmed_nonempty,
};

verus! {

/// The raw values of the environment variables the service reads
/// (`None` where a variable is unset or not valid Unicode).
pub struct EnvVars {
    /// `DATABASE_URL`
    pub database_url: Option<String>,
    /// `EFFLUX_DATA_DIR`
    pub data_dir: Option<String>,
    /// `EFFLUX_MAX_UPLOAD_MB`
    pub max_upload_mb: Option<String>,
    /// `EFFLUX_PORT`
    pub port: Option<String>,
    /// `EFFLUX_DB_MAX_CONNECTIONS`
    pub db_max_connections: Option<String>,
    /// `EFFLUX_CORS_ORIGINS`
    pub cors_origins: Option<String>,
    /// `EFFLUX_ACCESS_CODE`
    pub access_code: Option<String>,
    /// `EFFLUX_SESSION_DAYS`
    pub session_days: Option<String>,
    /// `EFFLUX_COOKIE_SECURE`
    pub cookie_secure: Option<String>,
    /// `EFFLUX_TAGGER`
    pub tagger: Option<String>,
    /// `EFFLUX_MODEL_DIR`
    pub model_dir: Option<String>,
    /// `EFFLUX_STATIC_DIR`
    pub static_dir: Option<String>,
    /// `EFFLUX_RATE_LIMIT`
    pub rate_limit: Option<String>,
}

/// Why the configuration was refused.
pub enum ConfigError {
    MissingDatabaseUrl,
    InvalidMaxUpload,
    InvalidPort,
    InvalidMaxConnections,
    AccessCodeTooShort,
    InvalidSessionDays,
}

pub open spec fn config_message(e: ConfigError) -> Seq<char> {
    match e {
        ConfigError::MissingDatabaseUrl => "缺少必需的环境变量: DATABASE_URL"@,
        ConfigError::InvalidMaxUpload => "EFFLUX_MAX_UPLOAD_MB 不是合法数字"@,
        ConfigError::InvalidPort => "EFFLUX_PORT 不是合法端口"@,
        ConfigError::InvalidMaxConnections => "EFFLUX_DB_MAX_CONNECTIONS 不是合法数字"@,
        ConfigError::AccessCodeTooShort => "EFFLUX_ACCESS_CODE 太短了，至少 6 位"@,
        ConfigError::InvalidSessionDays => "EFFLUX_SESSION_DAYS 不是合法数字"@,
    }
}

impl ConfigError {
    /// The message shown when the service refuses to start.
    pub fn message(&self) -> (m: &'static str)
        ensures
            m@ == config_message(*self),
    {
        match self {
            ConfigError::MissingDatabaseUrl => "缺少必需的环境变量: DATABASE_URL",
            ConfigError::InvalidMaxUpload => "EFFLUX_MAX_UPLOAD_MB 不是合法数字",
            ConfigError::InvalidPort => "EFFLUX_PORT 不是合法端口",
            ConfigError::InvalidMaxConnections => "EFFLUX_DB_MAX_CONNECTIONS 不是合法数字",
            ConfigError::AccessCodeTooShort => "EFFLUX_ACCESS_CODE 太短了，至少 6 位",
            ConfigError::InvalidSessionDays => "EFFLUX_SESSION_DAYS 不是合法数字",
        }
    }
}

/// All run-time configuration.
pub struct Config {
    pub port: u16,
    pub database_url: String,
    pub data_dir: String,
    /// Upload limit for one file in bytes; it holds images and audio only,
    /// videos have no limit.
    pub max_upload_bytes: usize,
    pub max_connections: u32,
    pub cors_origins: Vec<String>,
    /// The family access code; `None` leaves the service open (local use only).
    pub access_code: Option<String>,
    /// How many days a login lasts.
    pub session_days: i64,
    /// Whether the session cookie is sent over HTTPS only.
    pub cookie_secure: bool,
    /// Whether images are tagged automatically (needs the model files).
    pub tagger_enabled: bool,
    pub model_dir: String,
    /// The built front end to serve, for single-machine deployments.
    pub static_dir: Option<String>,
    /// Whether the service applies its own rate limits.
    pub rate_limit: bool,
}

pub open spec fn or_default(v: Option<String>, default: Seq<char>) -> Seq<char> {
    match v {
        Some(s) => s@,
        None => default,
    }
}

/// An unsigned number parsed from a variable, or from its default.
pub open spec fn number_of(v: Option<String>, default: Seq<char>, max: int) -> Option<int> {
    parse_unsigned(encode_utf8(or_default(v, default)), max)
}

/// Whether a flag reads as on: `1`, `true` or `yes`, in any ASCII case.
pub open spec fn flag_on(v: Option<String>, default: Seq<char>) -> bool {
    let l = ascii_lower(or_default(v, default));
    l == "1"@ || l == "true"@ || l == "yes"@
}

/// Whether a flag reads as off: `0`, `off`, `false` or `no`, in any ASCII case.
pub open spec fn flag_off(v: Option<String>, default: Seq<char>) -> bool {
    let l = ascii_lower(or_default(v, default));
    l == "0"@ || l == "off"@ || l == "false"@ || l == "no"@
}

/// A variable trimmed, with an empty value counting as unset.
pub open spec fn trimmed_var(v: Option<String>) -> Option<Seq<char>> {
    match v {
        Some(s) => if trim(s@).len() > 0 {
            Some(trim(s@))
        } else {
            None
        },
        None => None,
    }
}

pub open spec fn session_days_of(vars: EnvVars) -> Option<int> {
    parse_signed(encode_utf8(or_default(vars.session_days, "30"@)), i64::MIN as int, i64::MAX as int)
}

/// The first problem with the variables, in the order they are checked.
pub open spec fn config_problem(vars: EnvVars) -> Option<ConfigError> {
    if vars.database_url is None {
        Some(ConfigError::MissingDatabaseUrl)
    } else if number_of(vars.max_upload_mb, "512"@, usize::MAX as int) is None {
        Some(ConfigError::InvalidMaxUpload)
    } else if number_of(vars.port, "8080"@, u16::MAX as int) is None {
        Some(ConfigError::InvalidPort)
    } else if number_of(vars.db_max_connections, "16"@, u32::MAX as int) is None {
        Some(ConfigError::InvalidMaxConnections)
    } else if trimmed_var(vars.access_code) is Some && trimmed_var(vars.access_code)->0.len() < 6 {
        Some(ConfigError::AccessCodeTooShort)
    } else if session_days_of(vars) is None {
        Some(ConfigError::InvalidSessionDays)
    } else {
        None
    }
}

pub open spec fn clamp(v: int, lo: int, hi: int) -> int {
    if v < lo {
        lo
    } else if v > hi {
        hi
    } else {
        v
    }
}

/// Whether the configuration `c` is what the variables say.
pub open spec fn config_of(vars: EnvVars, c: Config) -> bool {
    &&& c.database_url@ == vars.database_url->0@
    &&& c.data_dir@ == or_default(vars.data_dir, "./data"@)
    &&& c.max_upload_bytes == number_of(vars.max_upload_mb, "512"@, usize::MAX as int)->0 * 1024
        * 1024
    &&& c.port == number_of(vars.port, "8080"@, u16::MAX as int)->0
    &&& c.max_connections == number_of(vars.db_max_connections, "16"@, u32::MAX as int)->0
    &&& string_views(c.cors_origins@) == trimmed_nonempty(
        split_on(or_default(vars.cors_origins, "http://localhost:5173"@), ','),
    )
    &&& match c.access_code {
        Some(code) => trimmed_var(vars.access_code) == Some(code@),
        None => trimmed_var(vars.access_code) is None,
    }
    &&& c.session_days == clamp(session_days_of(vars)->0, 1, 365)
    &&& c.cookie_secure == flag_on(vars.cookie_secure, "false"@)
    &&& c.tagger_enabled == flag_on(vars.tagger, "false"@)
    &&& c.model_dir@ == or_default(vars.model_dir, "./models"@)
    &&& match c.static_dir {
        Some(dir) => trimmed_var(vars.static_dir) == Some(dir@),
        None => trimmed_var(vars.static_dir) is None,
    }
    &&& c.rate_limit == !flag_off(vars.rate_limit, "on"@)
}

fn text_or<'a>(v: &'a Option<String>, default: &'a str) -> (r: &'a str)
    ensures
        r@ == or_default(*v, default@),
{
    match v {
        Some(s) => s.as_str(),
        None => default,
    }
}

fn one_of(value: &[char], options: &[&str]) -> (r: bool)
    ensures
        r == exists|i: int| 0 <= i < options@.len() && value@ == options@[i]@,
{
    for i in 0..options.len()
        invariant
            forall|j: int| 0 <= j < i ==> value@ != options@[j]@,
    {
        if chars_eq(value, &chars_of(options[i])) {
            return true;
        }
    }
    false
}

fn flag(v: &Option<String>, default: &str, on: bool) -> (r: bool)
    ensures
        on ==> r == flag_on(*v, default@),
        !on ==> r == flag_off(*v, default@),
{
    let lower = to_ascii_lower(&chars_of(text_or(v, default)));
    if on {
        let options = ["1", "true", "yes"];
        let r = one_of(&lower, &options);
        assert(options@[0]@ == "1"@ && options@[1]@ == "true"@ && options@[2]@ == "yes"@);
        r
    } else {
        let options = ["0", "off", "false", "no"];
        let r = one_of(&lower, &options);
        assert(options@[0]@ == "0"@ && options@[1]@ == "off"@ && options@[2]@ == "false"@
            && options@[3]@ == "no"@);
        r
    }
}

fn trimmed(v: &Option<String>) -> (r: Option<String>)
    ensures
        match r {
            Some(s) => trimmed_var(*v) == Some(s@),
            None => trimmed_var(*v) is None,
        },
{
    match v {
        Some(s) => {
            let t = trim_chars(&chars_of(s.as_str()));
            if t.len() > 0 {
                Some(string_of(&t))
            } else {
                None
            }
        },
        None => None,
    }
}

impl Config {
    /// Reads the configuration from the variables' values. The numbers are
    /// parsed as `str::parse` does; the session length is clamped to
    /// 1..=365 days; an empty access code counts as none.
    pub fn from_vars(vars: &EnvVars) -> (r: Result<Config, ConfigError>)
        requires
            number_of(vars.max_upload_mb, "512"@, usize::MAX as int) matches Some(mb) ==> mb * 1024
                * 1024 <= usize::MAX,
        ensures
            match config_problem(*vars) {
                Some(e) => r == Err::<Config, ConfigError>(e),
                None => r is Ok && config_of(*vars, r->Ok_0),
            },
    {
        let database_url = match &vars.database_url {
            Some(url) => url.clone(),
            None => return Err(ConfigError::MissingDatabaseUrl),
        };
        let data_dir = string_of(&chars_of(text_or(&vars.data_dir, "./data")));
        let max_upload_mb = match parse_unsigned_bytes(
            text_or(&vars.max_upload_mb, "512").as_bytes(),
            usize::MAX as u64,
        ) {
            Some(v) => v as usize,
            None => return Err(ConfigError::InvalidMaxUpload),
        };
        let port = match parse_unsigned_bytes(text_or(&vars.port, "8080").as_bytes(), 0xffff) {
            Some(v) => v as u16,
            None => return Err(ConfigError::InvalidPort),
        };
        let max_connections = match parse_unsigned_bytes(
            text_or(&vars.db_max_connections, "16").as_bytes(),
            0xffff_ffff,
        ) {
            Some(v) => v as u32,
            None => return Err(ConfigError::InvalidMaxConnections),
        };
        let cors_origins = split_trimmed(
            &chars_of(text_or(&vars.cors_origins, "http://localhost:5173")),
            ',',
        );
        let access_code = trimmed(&vars.access_code);
        match &access_code {
            Some(code) => {
                if chars_of(code.as_str()).len() < 6 {
                    return Err(ConfigError::AccessCodeTooShort);
                }
            },
            None => {},
        }
        let session_days = match parse_i64(text_or(&vars.session_days, "30").as_bytes()) {
            Some(v) => if v < 1 {
                1
            } else if v > 365 {
                365
            } else {
                v
            },
            None => return Err(ConfigError::InvalidSessionDays),
        };
        let cookie_secure = flag(&vars.cookie_secure, "false", true);
        let tagger_enabled = flag(&vars.tagger, "false", true);
        let model_dir = string_of(&chars_of(text_or(&vars.model_dir, "./models")));
        let static_dir = trimmed(&vars.static_dir);
        let rate_limit = !flag(&vars.rate_limit, "on", false);
        Ok(Config {
            port,
            database_url,
            data_dir,
            max_upload_bytes: max_upload_mb * 1024 * 1024,
            max_connections,
            cors_origins,
            access_code,
            session_days,
            cookie_secure,
            tagger_enabled,
            model_dir,
            static_dir,
            rate_limit,
        })
    }
}

/// How often connecting to the database is tried before giving up (it may
/// come up after the service).
pub const CONNECT_ATTEMPTS: u32 = 30;

/// Whether a failed connection attempt (counted from 1) is followed by
/// another, a second later.
pub fn retry_connect(attempt: u32) -> (r: bool)
    ensures
        r == (attempt < CONNECT_ATTEMPTS),
{
    attempt < CONNECT_ATTEMPTS
}

/// The key the access code hash is stored under.
pub const ACCESS_CODE_HASH: &'static str = "access_code_hash";

/// The key the token signing key is stored under.
pub const SIGNING_KEY: &'static str = "signing_key";

} // verus!
