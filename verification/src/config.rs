//! The configuration: its shape, the defaults that `init` writes, config
//! file locations, and configuration errors.

use vstd::prelude::*;

use crate::text::{
    chars_of, ends_with, ends_with_exec, extend_str, string_of, string_views, strip_char,
    strip_chars, trim, trim_chars,
};

verus! {

/// What `init` is given.
#[derive(Debug, Clone, PartialEq, Eq)]
pub struct InitConfig {
    pub url: String,
    pub username: String,
    pub password_env: String,
    pub write_dir: String,
}

/// The whole configuration file.
#[derive(Debug, Clone, PartialEq, Eq)]
pub struct AppConfig {
    pub webdav: WebdavConfig,
    pub vault: VaultConfig,
    pub behavior: BehaviorConfig,
    pub markdown: MarkdownConfig,
}

#[derive(Debug, Clone, PartialEq, Eq)]
pub struct WebdavConfig {
    pub base_url: String,
    pub username: String,
    pub password_env: String,
    pub timeout: u64,
}

#[derive(Debug, Clone, PartialEq, Eq)]
pub struct VaultConfig {
    pub default_write_dir: String,
    pub timezone: String,
    pub filename_time_format: String,
    pub default_tags: Vec<String>,
}

#[derive(Debug, Clone, PartialEq, Eq)]
pub struct BehaviorConfig {
    pub allow_overwrite: bool,
    pub allow_delete: bool,
    pub allow_move: bool,
    pub allow_write_dirs: Vec<String>,
    pub readonly_dirs: Vec<String>,
}

#[derive(Debug, Clone, PartialEq, Eq)]
pub struct MarkdownConfig {
    pub frontmatter: bool,
    pub heading_title: bool,
    pub add_created_time: bool,
    pub add_source: bool,
    pub default_source: String,
}

/// Why the configuration could not be found, read, written or used. Paths
/// and the causes reported by the file system or the YAML codec are kept as
/// text.
#[derive(Debug)]
pub enum ConfigError {
    AlreadyExists(String),
    MissingHome,
    Read { path: String, source: String },
    Write { path: String, source: String },
    Parse { path: String, source: String },
    Serialize(String),
    MissingPasswordEnv(String),
}

impl ConfigError {
    /// The error's message.
    pub fn message(&self) -> (r: String)
        ensures
            r@ == config_error_message(*self),
    {
        let mut v: Vec<char> = Vec::new();
        match self {
            ConfigError::AlreadyExists(p) => {
                extend_str(&mut v, "config file already exists: ");
                extend_str(&mut v, p.as_str());
            },
            ConfigError::MissingHome => {
                extend_str(&mut v, "home directory is unavailable; pass --config explicitly");
            },
            ConfigError::Read { path, source } => {
                extend_str(&mut v, "failed to read config ");
                extend_str(&mut v, path.as_str());
                extend_str(&mut v, ": ");
                extend_str(&mut v, source.as_str());
            },
            ConfigError::Write { path, source } => {
                extend_str(&mut v, "failed to write config ");
                extend_str(&mut v, path.as_str());
                extend_str(&mut v, ": ");
                extend_str(&mut v, source.as_str());
            },
            ConfigError::Parse { path, source } => {
                extend_str(&mut v, "failed to parse config ");
                extend_str(&mut v, path.as_str());
                extend_str(&mut v, ": ");
                extend_str(&mut v, source.as_str());
            },
            ConfigError::Serialize(s) => {
                extend_str(&mut v, "failed to serialize config: ");
                extend_str(&mut v, s.as_str());
            },
            ConfigError::MissingPasswordEnv(name) => {
                extend_str(&mut v, "environment variable ");
                extend_str(&mut v, name.as_str());
                extend_str(&mut v, " is not set");
            },
        }
        string_of(&v)
    }
}

/// The text of each configuration error.
pub open spec fn config_error_message(e: ConfigError) -> Seq<char> {
    match e {
        ConfigError::AlreadyExists(p) => "config file already exists: "@ + p@,
        ConfigError::MissingHome => "home directory is unavailable; pass --config explicitly"@,
        ConfigError::Read { path, source } => "failed to read config "@ + path@ + ": "@ + source@,
        ConfigError::Write { path, source } => "failed to write config "@ + path@ + ": "@ + source@,
        ConfigError::Parse { path, source } => "failed to parse config "@ + path@ + ": "@ + source@,
        ConfigError::Serialize(s) => "failed to serialize config: "@ + s@,
        ConfigError::MissingPasswordEnv(name) => "environment variable "@ + name@ + " is not set"@,
    }
}

/// The base URL trimmed, with a trailing `/` added when it has none.
pub open spec fn normalize_base_url_spec(url: Seq<char>) -> Seq<char> {
    let t = trim(url);
    if ends_with(t, seq!['/']) {
        t
    } else {
        t.push('/')
    }
}

/// The path trimmed, then without `/` at either end.
pub open spec fn trim_slashes_spec(path: Seq<char>) -> Seq<char> {
    strip_char(trim(path), '/')
}

fn normalize_base_url(url: &str) -> (r: String)
    ensures
        r@ == normalize_base_url_spec(url@),
{
    let mut t = trim_chars(&chars_of(url));
    let mut slash: Vec<char> = Vec::new();
    slash.push('/');
    if !ends_with_exec(&t, &slash) {
        t.push('/');
    }
    string_of(&t)
}

fn trim_slashes(path: &str) -> (r: String)
    ensures
        r@ == trim_slashes_spec(path@),
{
    string_of(&strip_chars(&trim_chars(&chars_of(path)), '/'))
}

fn strings(items: &[&str]) -> (r: Vec<String>)
    ensures
        r@.len() == items@.len(),
        forall|i: int| 0 <= i < items@.len() ==> (#[trigger] r@[i])@ == items@[i]@,
{
    let mut r: Vec<String> = Vec::new();
    let mut i: usize = 0;
    while i < items.len()
        invariant
            i <= items@.len(),
            r@.len() == i,
            forall|j: int| 0 <= j < i ==> (#[trigger] r@[j])@ == items@[j]@,
        decreases items@.len() - i,
    {
        r.push(items[i].to_owned());
        i = i + 1;
    }
    r
}

/// The formal vault directories that the default configuration lists as
/// read-only.
pub open spec fn default_readonly_dirs() -> Seq<Seq<char>> {
    seq!["Notes"@, "Projects"@, "Troubleshooting"@, "Index"@, "Daily"@, "Sources"@]
}

impl AppConfig {
    /// The configuration that `init` writes: the given connection and write
    /// directory, the Asia/Shanghai zone, `hermes`/`inbox` tags, nothing
    /// destructive allowed, and every markdown option on.
    pub fn from_init(init: InitConfig) -> (r: Self)
        ensures
            r.webdav.base_url@ == normalize_base_url_spec(init.url@),
            r.webdav.username == init.username,
            r.webdav.password_env == init.password_env,
            r.webdav.timeout == 30,
            r.vault.default_write_dir@ == trim_slashes_spec(init.write_dir@),
            r.vault.timezone@ == "Asia/Shanghai"@,
            r.vault.filename_time_format@ == "%Y-%m-%d-%H%M%S"@,
            string_views(r.vault.default_tags@) == seq!["hermes"@, "inbox"@],
            !r.behavior.allow_overwrite,
            !r.behavior.allow_delete,
            !r.behavior.allow_move,
            string_views(r.behavior.allow_write_dirs@) == seq![trim_slashes_spec(init.write_dir@)],
            string_views(r.behavior.readonly_dirs@) == default_readonly_dirs(),
            r.markdown.frontmatter,
            r.markdown.heading_title,
            r.markdown.add_created_time,
            r.markdown.add_source,
            r.markdown.default_source@ == "hermes"@,
    {
        let write_dir = trim_slashes(init.write_dir.as_str());
        let mut allow_write_dirs: Vec<String> = Vec::new();
        allow_write_dirs.push(write_dir.clone());
        let default_tags = strings(&["hermes", "inbox"]);
        let readonly_dirs = strings(
            &["Notes", "Projects", "Troubleshooting", "Index", "Daily", "Sources"],
        );
        proof {
            assert(string_views(default_tags@) =~= seq!["hermes"@, "inbox"@]);
            assert(string_views(readonly_dirs@) =~= default_readonly_dirs());
            assert(string_views(allow_write_dirs@) =~= seq![trim_slashes_spec(init.write_dir@)]);
        }
        AppConfig {
            webdav: WebdavConfig {
                base_url: normalize_base_url(init.url.as_str()),
                username: init.username,
                password_env: init.password_env,
                timeout: 30,
            },
            vault: VaultConfig {
                default_write_dir: write_dir,
                timezone: "Asia/Shanghai".to_owned(),
                filename_time_format: "%Y-%m-%d-%H%M%S".to_owned(),
                default_tags,
            },
            behavior: BehaviorConfig {
                allow_overwrite: false,
                allow_delete: false,
                allow_move: false,
                allow_write_dirs,
                readonly_dirs,
            },
            markdown: MarkdownConfig {
                frontmatter: true,
                heading_title: true,
                add_created_time: true,
                add_source: true,
                default_source: "hermes".to_owned(),
            },
        }
    }

    /// The WebDAV password, given the value of the environment variable
    /// that `webdav.password_env` names (`None` when it is not set).
    pub fn resolve_password(&self, env_value: Option<String>) -> (r: Result<String, ConfigError>)
        ensures
            match env_value {
                Some(v) => r == Ok::<String, ConfigError>(v),
                None => r matches Err(ConfigError::MissingPasswordEnv(n)) && n@
                    == self.webdav.password_env@,
            },
    {
        match env_value {
            Some(v) => Ok(v),
            None => Err(ConfigError::MissingPasswordEnv(self.webdav.password_env.clone())),
        }
    }
}

/// `Path::join` of a relative component on Unix: a separator is put in
/// between unless `base` is empty or already ends with one.
pub open spec fn path_join(base: Seq<char>, seg: Seq<char>) -> Seq<char> {
    if base.len() == 0 || base.last() == '/' {
        base + seg
    } else {
        base + seq!['/'] + seg
    }
}

fn join_path(base: &[char], seg: &str) -> (r: Vec<char>)
    ensures
        r@ == path_join(base@, seg@),
{
    let mut r: Vec<char> = crate::text::slice_chars(base, 0, base.len());
    if !(base.len() == 0 || base[base.len() - 1] == '/') {
        r.push('/');
    }
    extend_str(&mut r, seg);
    r
}

/// `<home>/.config/webdav-cli/config.yaml`.
pub open spec fn default_config_path_spec(home: Seq<char>) -> Seq<char> {
    path_join(path_join(path_join(home, ".config"@), "webdav-cli"@), "config.yaml"@)
}

/// `<home>/.config/obsidian-cli/config.yaml`, where older releases kept it.
pub open spec fn legacy_config_path_spec(home: Seq<char>) -> Seq<char> {
    path_join(path_join(path_join(home, ".config"@), "obsidian-cli"@), "config.yaml"@)
}

/// The default config file under a home directory.
pub fn default_config_path(home: &str) -> (r: String)
    ensures
        r@ == default_config_path_spec(home@),
{
    let a = join_path(&chars_of(home), ".config");
    let b = join_path(&a, "webdav-cli");
    string_of(&join_path(&b, "config.yaml"))
}

/// The config file of older releases under a home directory.
pub fn legacy_config_path(home: &str) -> (r: String)
    ensures
        r@ == legacy_config_path_spec(home@),
{
    let a = join_path(&chars_of(home), ".config");
    let b = join_path(&a, "obsidian-cli");
    string_of(&join_path(&b, "config.yaml"))
}

/// The config file to read: the `--config` path when given; otherwise, under
/// `home` (the override or `$HOME`, `None` when neither is known), the
/// current default file, or the legacy file when only that one exists.
/// `default_exists` and `legacy_exists` tell whether the files that
/// `default_config_path(home)` and `legacy_config_path(home)` name exist.
pub fn config_path_from_cli(
    cli_path: Option<&str>,
    home: Option<&str>,
    default_exists: bool,
    legacy_exists: bool,
) -> (r: Result<String, ConfigError>)
    ensures
        match cli_path {
            Some(p) => r matches Ok(s) && s@ == p@,
            None => match home {
                None => r matches Err(ConfigError::MissingHome),
                Some(h) => r matches Ok(s) && s@ == if !default_exists && legacy_exists {
                    legacy_config_path_spec(h@)
                } else {
                    default_config_path_spec(h@)
                },
            },
        },
{
    if let Some(p) = cli_path {
        return Ok(p.to_owned());
    }
    match home {
        None => Err(ConfigError::MissingHome),
        Some(h) => if !default_exists && legacy_exists {
            Ok(legacy_config_path(h))
        } else {
            Ok(default_config_path(h))
        },
    }
}

/// The config file that `init` writes: the `--config` path when given,
/// otherwise the current default file under `home`, even when a legacy
/// file exists.
pub fn config_path_for_init(cli_path: Option<&str>, home: Option<&str>) -> (r: Result<
    String,
    ConfigError,
>)
    ensures
        match cli_path {
            Some(p) => r matches Ok(s) && s@ == p@,
            None => match home {
                None => r matches Err(ConfigError::MissingHome),
                Some(h) => r matches Ok(s) && s@ == default_config_path_spec(h@),
            },
        },
{
    if let Some(p) = cli_path {
        return Ok(p.to_owned());
    }
    match home {
        None => Err(ConfigError::MissingHome),
        Some(h) => Ok(default_config_path(h)),
    }
}

/// `init` refuses to replace an existing configuration file unless forced.
pub fn check_config_target(present: bool, force: bool, path: &str) -> (r: Result<(), ConfigError>)
    ensures
        (r is Ok) == (!present || force),
        r matches Err(e) ==> (e matches ConfigError::AlreadyExists(p) && p@ == path@),
{
    if present && !force {
        return Err(ConfigError::AlreadyExists(path.to_owned()));
    }
    Ok(())
}

} // verus!
