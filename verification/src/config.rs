//! The backend's configuration: defaults, validation, and the quoted
//! terminal and chooser command strings.

use vstd::prelude::*;
use vstd::utf8::encode_utf8;
use crate::paths::{join, join_path};
use crate::text::{append_all, chars_of, lossy_string, opt_bytes, string_of, texts, utf8_lossy};

verus! {

/// The `[filechooser]` table.
#[derive(Debug, Clone)]
pub struct FileChooserConfig {
    pub terminal: String,
    pub chooser: String,
    pub default_dir: String,
}

/// The whole configuration file.
#[derive(Debug, Clone)]
pub struct Config {
    pub filechooser: FileChooserConfig,
}

/// The words that `shlex::split` makes of a command string, or none when its
/// quoting is invalid.
pub uninterp spec fn shlex_words(command: Seq<char>) -> Option<Seq<Seq<char>>>;

/// `shlex::split`: the command split into words with POSIX-shell quoting,
/// none on an unterminated quote or a trailing backslash. Stated: the result
/// is `shlex_words` of the command, and an empty command has no words.
#[verifier::external_body]
fn shlex_split(command: &str) -> (r: Option<Vec<String>>)
    ensures
        r is None <==> shlex_words(command@) is None,
        r is Some ==> shlex_words(command@) == Some(texts(r->0@)),
        command@.len() == 0 ==> r is Some && r->0@.len() == 0,
{
    shlex::split(command)
}

/// The default terminal command.
pub open spec fn default_terminal_text() -> Seq<char> {
    "kitty --class file-chooser --title"@
}

/// The default chooser command.
pub open spec fn default_chooser_text() -> Seq<char> {
    "yazi --chooser-file"@
}

pub fn default_terminal() -> (s: String)
    ensures
        s@ == default_terminal_text(),
{
    string_of(chars_of("kitty --class file-chooser --title").as_slice())
}

pub fn default_chooser() -> (s: String)
    ensures
        s@ == default_chooser_text(),
{
    string_of(chars_of("yazi --chooser-file").as_slice())
}

/// `dirs::home_dir`, as raw bytes: `$HOME` when set and nonempty, else the
/// home directory of the user's passwd entry when that is nonempty. Stated:
/// a home directory that is found is nonempty.
#[verifier::external_body]
fn home_directory() -> (r: Option<Vec<u8>>)
    ensures
        r matches Some(h) ==> h@.len() > 0,
{
    dirs::home_dir().map(|path| path.as_os_str().as_encoded_bytes().to_vec())
}

/// The default directory for a home directory: the home directory as text,
/// or the root when there is none.
pub open spec fn default_dir_for(home: Option<Seq<u8>>) -> Seq<char> {
    match home {
        Some(h) => utf8_lossy(h),
        None => "/"@,
    }
}

/// The default start directory for a home directory that was looked up.
pub fn default_dir_for_home(home: Option<Vec<u8>>) -> (s: String)
    ensures
        s@ == default_dir_for(opt_bytes(home)),
        (opt_bytes(home) matches Some(h) ==> h.len() > 0) ==> s@.len() > 0,
{
    proof {
        reveal_strlit("/");
    }
    match home {
        Some(h) => lossy_string(h.as_slice()),
        None => string_of(chars_of("/").as_slice()),
    }
}

/// A default start directory: the root, or the text of a nonempty home
/// directory.
pub open spec fn is_default_dir(s: Seq<char>) -> bool {
    s == "/"@ || exists|h: Seq<u8>| h.len() > 0 && s == utf8_lossy(h)
}

/// The default start directory: the user's home directory, or the root.
/// It is never empty.
pub fn default_dir() -> (s: String)
    ensures
        s@.len() > 0,
        is_default_dir(s@),
{
    let home = home_directory();
    let ghost g = opt_bytes(home);
    let s = default_dir_for_home(home);
    proof {
        reveal_strlit("/");
        match g {
            Some(h) => {
                assert(h.len() > 0);
                assert(s@ == utf8_lossy(h));
            },
            None => {
                assert(s@ == "/"@);
                assert("/"@.len() == 1);
            },
        }
    }
    s
}

/// The words of a split command string, or the error that names the
/// command by `label`: none means invalid quoting, and no words are an empty
/// command.
pub open spec fn checked_words(words: Option<Seq<Seq<char>>>, label: Seq<char>) -> Result<
    Seq<Seq<char>>,
    Seq<char>,
> {
    match words {
        None => Err(label + " command has invalid quoting"@),
        Some(words) => if words.len() == 0 {
            Err(label + " command cannot be empty"@)
        } else {
            Ok(words)
        },
    }
}

/// The words of a command string, or the error that names it by `label`.
pub open spec fn command_words(command: Seq<char>, label: Seq<char>) -> Result<
    Seq<Seq<char>>,
    Seq<char>,
> {
    checked_words(shlex_words(command), label)
}

/// An optional list of strings as text.
pub open spec fn opt_texts(words: Option<Vec<String>>) -> Option<Seq<Seq<char>>> {
    match words {
        Some(w) => Some(texts(w@)),
        None => None,
    }
}

fn labelled(label: &str, message: &str) -> (s: String)
    ensures
        s@ == label@ + message@,
{
    let mut v = chars_of(label);
    append_all(&mut v, &chars_of(message));
    string_of(v.as_slice())
}

/// The words of a split command string, or the error that names the command
/// by `label`.
pub fn check_command_words(words: Option<Vec<String>>, label: &str) -> (r: Result<
    Vec<String>,
    String,
>)
    ensures
        match r {
            Ok(w) => checked_words(opt_texts(words), label@) == Ok::<Seq<Seq<char>>, Seq<char>>(
                texts(w@),
            ),
            Err(e) => checked_words(opt_texts(words), label@) == Err::<Seq<Seq<char>>, Seq<char>>(
                e@,
            ),
        },
{
    match words {
        None => Err(labelled(label, " command has invalid quoting")),
        Some(words) => {
            if words.len() == 0 {
                Err(labelled(label, " command cannot be empty"))
            } else {
                Ok(words)
            }
        },
    }
}

/// Splits a terminal or chooser command string into its words, with shell
/// quoting and without a shell. Unbalanced quoting and an empty command are
/// errors that name the command by `label`.
pub fn parse_command(command: &str, label: &str) -> (r: Result<Vec<String>, String>)
    ensures
        match r {
            Ok(words) => command_words(command@, label@) == Ok::<Seq<Seq<char>>, Seq<char>>(
                texts(words@),
            ),
            Err(e) => command_words(command@, label@) == Err::<Seq<Seq<char>>, Seq<char>>(e@),
        },
{
    let words = shlex_split(command);
    proof {
        assert(opt_texts(words) == shlex_words(command@));
    }
    check_command_words(words, label)
}

/// Text naming an absolute path: it starts with `/`.
pub open spec fn is_absolute_text(s: Seq<char>) -> bool {
    s.len() > 0 && s[0] == '/'
}

/// What is wrong with configuration settings, if anything: the terminal
/// command, then the chooser command, then the default directory.
pub open spec fn settings_error(terminal: Seq<char>, chooser: Seq<char>, default_dir: Seq<char>) -> Option<
    Seq<char>,
> {
    match command_words(terminal, "Terminal"@) {
        Err(e) => Some(e),
        Ok(_) => match command_words(chooser, "Chooser"@) {
            Err(e) => Some(e),
            Ok(_) => if is_absolute_text(default_dir) {
                None
            } else {
                Some("Default directory must be an absolute path"@)
            },
        },
    }
}

/// A configuration whose two commands each split into at least one word
/// passes the check exactly when its default directory starts with `/`;
/// otherwise the check names the directory.
pub proof fn lemma_directory_check(c: Config)
    requires
        command_words(c.filechooser.terminal@, "Terminal"@) is Ok,
        command_words(c.filechooser.chooser@, "Chooser"@) is Ok,
    ensures
        (c.filechooser.default_dir@.len() > 0 && c.filechooser.default_dir@[0] == '/') ==> config_error(
            c,
        ) is None,
        !(c.filechooser.default_dir@.len() > 0 && c.filechooser.default_dir@[0] == '/')
            ==> config_error(c) == Some("Default directory must be an absolute path"@),
{
}

/// What is wrong with a configuration, if anything.
pub open spec fn config_error(c: Config) -> Option<Seq<char>> {
    settings_error(c.filechooser.terminal@, c.filechooser.chooser@, c.filechooser.default_dir@)
}

impl FileChooserConfig {
    /// The built-in terminal and chooser, starting in the home directory that
    /// was looked up, or in the root when there is none.
    pub fn default_for_home(home: Option<Vec<u8>>) -> (c: Self)
        ensures
            c.terminal@ == default_terminal_text(),
            c.chooser@ == default_chooser_text(),
            c.default_dir@ == default_dir_for(opt_bytes(home)),
            (opt_bytes(home) matches Some(h) ==> h.len() > 0) ==> c.default_dir@.len() > 0,
    {
        FileChooserConfig {
            terminal: default_terminal(),
            chooser: default_chooser(),
            default_dir: default_dir_for_home(home),
        }
    }

    /// The built-in terminal and chooser, starting in the home directory.
    pub fn default() -> (c: Self)
        ensures
            c.terminal@ == default_terminal_text(),
            c.chooser@ == default_chooser_text(),
            c.default_dir@.len() > 0,
            is_default_dir(c.default_dir@),
    {
        let home = home_directory();
        let ghost g = opt_bytes(home);
        let c = Self::default_for_home(home);
        proof {
            lemma_default_dir_for_found(g);
        }
        c
    }
}

/// The default directory for a home directory that was found is a default
/// directory.
proof fn lemma_default_dir_for_found(home: Option<Seq<u8>>)
    requires
        home matches Some(h) ==> h.len() > 0,
    ensures
        is_default_dir(default_dir_for(home)),
{
    reveal_strlit("/");
    match home {
        Some(h) => {
            assert(h.len() > 0 && default_dir_for(home) == utf8_lossy(h));
        },
        None => {},
    }
}

impl Config {
    /// Checks that both commands parse into at least one word and that the
    /// default directory is absolute.
    pub fn validate(&self) -> (r: Result<(), String>)
        ensures
            match r {
                Ok(()) => config_error(*self) is None,
                Err(e) => config_error(*self) == Some(e@),
            },
    {
        match parse_command(self.filechooser.terminal.as_str(), "Terminal") {
            Err(e) => return Err(e),
            Ok(_) => {},
        }
        match parse_command(self.filechooser.chooser.as_str(), "Chooser") {
            Err(e) => return Err(e),
            Ok(_) => {},
        }
        let dir = chars_of(self.filechooser.default_dir.as_str());
        if dir.len() > 0 && dir[0] == '/' {
            Ok(())
        } else {
            Err(string_of(chars_of("Default directory must be an absolute path").as_slice()))
        }
    }

    /// The default configuration for the home directory that was looked up.
    pub fn default_for_home(home: Option<Vec<u8>>) -> (c: Self)
        ensures
            c.filechooser.terminal@ == default_terminal_text(),
            c.filechooser.chooser@ == default_chooser_text(),
            c.filechooser.default_dir@ == default_dir_for(opt_bytes(home)),
    {
        Config { filechooser: FileChooserConfig::default_for_home(home) }
    }

    pub fn default() -> (c: Self)
        ensures
            c.filechooser.terminal@ == default_terminal_text(),
            c.filechooser.chooser@ == default_chooser_text(),
            c.filechooser.default_dir@.len() > 0,
            is_default_dir(c.filechooser.default_dir@),
    {
        Config { filechooser: FileChooserConfig::default() }
    }
}

/// The configuration file under a configuration directory.
pub open spec fn config_file_path(dir: Seq<u8>) -> Seq<u8> {
    join(dir, encode_utf8("xdg-desktop-portal-termfilechooser/config.toml"@))
}

/// `xdg-desktop-portal-termfilechooser/config.toml` under a directory.
pub fn config_file_in(dir: &[u8]) -> (p: Vec<u8>)
    ensures
        p@ == config_file_path(dir@),
{
    join_path(dir, "xdg-desktop-portal-termfilechooser/config.toml".as_bytes())
}

/// `dirs::config_dir`, as raw bytes: `$XDG_CONFIG_HOME` when it is an
/// absolute path, else `.config` in the home directory. Nothing is stated of
/// the result, which depends on the environment.
#[verifier::external_body]
fn user_config_directory() -> (r: Option<Vec<u8>>) {
    dirs::config_dir().map(|path| path.as_os_str().as_encoded_bytes().to_vec())
}

/// The default configuration file, in the user's configuration directory.
/// Whether there is one depends on the environment; the path built from a
/// directory is `config_file_in`'s.
pub fn default_config_path() -> (r: Option<Vec<u8>>)
    ensures
        r matches Some(p) ==> exists|dir: Seq<u8>| p@ == config_file_path(dir),
{
    match user_config_directory() {
        Some(dir) => Some(config_file_in(dir.as_slice())),
        None => None,
    }
}

/// What looking for the configuration file found.
pub enum ConfigProbe {
    /// No configuration path is known.
    NoPath,
    /// The file does not exist.
    NotFound,
    /// Reading it failed; `detail` says why.
    Unreadable { detail: String },
    /// It is not valid TOML for the configuration; `detail` says why.
    Malformed { detail: String },
    /// It parsed into this configuration.
    Parsed { config: Config },
}

/// The default configuration for a home directory, once checked: the
/// built-in commands starting in that home directory (or the root), or the
/// error the check finds in it.
pub open spec fn is_checked_default_for(r: Result<Config, String>, home: Option<Seq<u8>>) -> bool {
    let dir = default_dir_for(home);
    match r {
        Ok(c) => c.filechooser.terminal@ == default_terminal_text() && c.filechooser.chooser@
            == default_chooser_text() && c.filechooser.default_dir@ == dir && settings_error(
            default_terminal_text(),
            default_chooser_text(),
            dir,
        ) is None,
        Err(e) => settings_error(default_terminal_text(), default_chooser_text(), dir) == Some(
            e@,
        ),
    }
}

/// The default configuration, once checked, for some home directory that
/// was found (or none).
pub open spec fn is_checked_default(r: Result<Config, String>) -> bool {
    exists|home: Option<Seq<u8>>|
        (home matches Some(h) ==> h.len() > 0) && #[trigger] is_checked_default_for(r, home)
}

fn checked_default_for(home: Option<Vec<u8>>) -> (r: Result<Config, String>)
    ensures
        is_checked_default_for(r, opt_bytes(home)),
{
    let config = Config::default_for_home(home);
    match config.validate() {
        Ok(()) => Ok(config),
        Err(e) => Err(e),
    }
}

/// The configuration to run with: the defaults when no file is known, or
/// when the implicit default file is absent; an error for a missing
/// explicitly requested file, an unreadable or malformed file, or a file
/// that fails validation. `path` names the file in error messages, and
/// `home` is the home directory that was looked up for the defaults.
pub fn resolve_config_for_home(
    explicit: bool,
    path: &str,
    probe: ConfigProbe,
    home: Option<Vec<u8>>,
) -> (r: Result<Config, String>)
    ensures
        match probe {
            ConfigProbe::NoPath => is_checked_default_for(r, opt_bytes(home)),
            ConfigProbe::NotFound => if explicit {
                r matches Err(e) && e@ == "Config file does not exist: "@ + path@
            } else {
                is_checked_default_for(r, opt_bytes(home))
            },
            ConfigProbe::Unreadable { detail } => r matches Err(e) && e@ == "Failed to read config "@
                + path@ + ": "@ + detail@,
            ConfigProbe::Malformed { detail } => r matches Err(e) && e@
                == "Failed to parse config "@ + path@ + ": "@ + detail@,
            ConfigProbe::Parsed { config } => match config_error(config) {
                None => r matches Ok(c) && c == config,
                Some(message) => r matches Err(e) && e@ == message,
            },
        },
{
    match probe {
        ConfigProbe::NoPath => checked_default_for(home),
        ConfigProbe::NotFound => {
            if explicit {
                Err(labelled("Config file does not exist: ", path))
            } else {
                checked_default_for(home)
            }
        },
        ConfigProbe::Unreadable { detail } => {
            let mut v = chars_of("Failed to read config ");
            append_all(&mut v, &chars_of(path));
            append_all(&mut v, &chars_of(": "));
            append_all(&mut v, &chars_of(detail.as_str()));
            Err(string_of(v.as_slice()))
        },
        ConfigProbe::Malformed { detail } => {
            let mut v = chars_of("Failed to parse config ");
            append_all(&mut v, &chars_of(path));
            append_all(&mut v, &chars_of(": "));
            append_all(&mut v, &chars_of(detail.as_str()));
            Err(string_of(v.as_slice()))
        },
        ConfigProbe::Parsed { config } => {
            match config.validate() {
                Ok(()) => Ok(config),
                Err(e) => Err(e),
            }
        },
    }
}

/// The configuration to run with, as `resolve_config_for_home` gives it for
/// the user's home directory.
pub fn resolve_config(explicit: bool, path: &str, probe: ConfigProbe) -> (r: Result<Config, String>)
    ensures
        match probe {
            ConfigProbe::NoPath => is_checked_default(r),
            ConfigProbe::NotFound => if explicit {
                r matches Err(e) && e@ == "Config file does not exist: "@ + path@
            } else {
                is_checked_default(r)
            },
            ConfigProbe::Unreadable { detail } => r matches Err(e) && e@ == "Failed to read config "@
                + path@ + ": "@ + detail@,
            ConfigProbe::Malformed { detail } => r matches Err(e) && e@
                == "Failed to parse config "@ + path@ + ": "@ + detail@,
            ConfigProbe::Parsed { config } => match config_error(config) {
                None => r matches Ok(c) && c == config,
                Some(message) => r matches Err(e) && e@ == message,
            },
        },
{
    let home = home_directory();
    let ghost found = opt_bytes(home);
    let r = resolve_config_for_home(explicit, path, probe, home);
    proof {
        assert(is_checked_default_for(r, found) ==> is_checked_default(r));
    }
    r
}

} // verus!
