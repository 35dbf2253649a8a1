//! The one piece of state that cannot live in the vault: which vault.
//!
//! Everything else is in the notes. The config exists only because the vault
//! has to be found at startup, and it is deliberately tiny: losing it costs one
//! trip through the folder chooser, not any data.

use crate::paths;
use crate::text;
use vstd::prelude::*;

verus! {

/// Bumped only if the shape below changes incompatibly.
pub const SCHEMA_VERSION: u32 = 1;

/// What is remembered between two runs.
#[derive(Debug, Clone, PartialEq, Eq)]
pub struct Config {
    pub version: u32,
    /// The vault folder. `None` before the first run has chosen one.
    pub vault: Option<String>,
    /// The note to reopen, as a vault-relative path.
    pub last_note: Option<String>,
    /// The window's size when it was last closed.
    pub window_width: Option<i32>,
    pub window_height: Option<i32>,
    pub window_maximized: bool,
    /// Whether the last session was reading rather than editing.
    pub reading_mode: bool,
    /// What the sidebar's notes are sorted by.
    pub sort: String,
    /// The folders that are open in the sidebar.
    pub expanded_folders: Vec<String>,
    /// Where the embedding server is; empty when semantic search is off.
    pub embedding_url: Option<String>,
    /// The shared vector store, and the token that opens it.
    pub vectors_url: Option<String>,
    pub vectors_token: Option<String>,
}

/// The text in a string that may not be there.
pub open spec fn text_of(s: Option<String>) -> Option<Seq<char>> {
    match s {
        Some(s) => Some(s@),
        None => None,
    }
}

/// What is remembered, by its texts.
#[verifier::ext_equal]
pub struct ConfigView {
    pub version: u32,
    pub vault: Option<Seq<char>>,
    pub last_note: Option<Seq<char>>,
    pub window_width: Option<i32>,
    pub window_height: Option<i32>,
    pub window_maximized: bool,
    pub reading_mode: bool,
    pub sort: Seq<char>,
    pub expanded_folders: Seq<Seq<char>>,
    pub embedding_url: Option<Seq<char>>,
    pub vectors_url: Option<Seq<char>>,
    pub vectors_token: Option<Seq<char>>,
}

impl View for Config {
    type V = ConfigView;

    open spec fn view(&self) -> ConfigView {
        ConfigView {
            version: self.version,
            vault: text_of(self.vault),
            last_note: text_of(self.last_note),
            window_width: self.window_width,
            window_height: self.window_height,
            window_maximized: self.window_maximized,
            reading_mode: self.reading_mode,
            sort: self.sort@,
            expanded_folders: text::views(self.expanded_folders@),
            embedding_url: text_of(self.embedding_url),
            vectors_url: text_of(self.vectors_url),
            vectors_token: text_of(self.vectors_token),
        }
    }
}

/// A config that says nothing, of some version.
pub open spec fn blank(version: u32) -> ConfigView {
    ConfigView {
        version,
        vault: None,
        last_note: None,
        window_width: None,
        window_height: None,
        window_maximized: false,
        reading_mode: false,
        sort: seq![],
        expanded_folders: seq![],
        embedding_url: None,
        vectors_url: None,
        vectors_token: None,
    }
}

impl Default for Config {
    fn default() -> (r: Self)
        ensures
            r@ == blank(0),
    {
        let r = Config {
            version: 0,
            vault: None,
            last_note: None,
            window_width: None,
            window_height: None,
            window_maximized: false,
            reading_mode: false,
            sort: String::new(),
            expanded_folders: Vec::new(),
            embedding_url: None,
            vectors_url: None,
            vectors_token: None,
        };
        assert(r@ =~= blank(0));
        r
    }
}

/// What happened when the config was read.
///
/// Returned alongside the config, so that whoever reads it decides whether
/// anything is worth saying, which for a missing config on first run it is not.
#[derive(Debug, Clone, PartialEq, Eq)]
pub enum LoadOutcome {
    Loaded,
    /// No config yet. The normal first run.
    Fresh,
    /// Unreadable, so it is to be set aside as `backup` and started over.
    /// Nothing is lost but the vault path, which will be asked for again.
    Recovered { backup: String },
}

/// What happened when the config was read, by its text.
pub enum OutcomeView {
    Loaded,
    Fresh,
    Recovered { backup: Seq<char> },
}

impl View for LoadOutcome {
    type V = OutcomeView;

    open spec fn view(&self) -> OutcomeView {
        match *self {
            LoadOutcome::Loaded => OutcomeView::Loaded,
            LoadOutcome::Fresh => OutcomeView::Fresh,
            LoadOutcome::Recovered { backup } => OutcomeView::Recovered { backup: backup@ },
        }
    }
}

/// What was in the file of the config.
#[derive(Debug)]
pub enum Reading {
    /// There was no file, or it could not be read.
    Missing,
    /// There was something in it that is no config.
    Garbled,
    /// There was a config in it.
    Read(Config),
}

/// Why the config could not be written.
#[derive(Debug, PartialEq, Eq)]
pub enum ConfigError {
    Io { path: String, source: String },
    Serialize(String),
}

/// What is said of a config that could not be written.
pub open spec fn told(error: ConfigError) -> Seq<char> {
    match error {
        ConfigError::Io { path, source } => path@ + ": "@ + source@,
        ConfigError::Serialize(source) => source@,
    }
}

impl ConfigError {
    /// What to say of it.
    pub fn message(&self) -> (r: String)
        ensures
            r@ == told(*self),
    {
        match self {
            ConfigError::Io { path, source } => {
                let mut out = text::chars_of(path.as_str());
                text::extend(&mut out, &text::chars_of(": "));
                text::extend(&mut out, &text::chars_of(source.as_str()));
                text::string_of(&out)
            },
            ConfigError::Serialize(source) => source.clone(),
        }
    }
}

/// Where the config is, given the config directory and the home directory,
/// where they are known.
pub open spec fn config_path(config: Option<Seq<char>>, home: Option<Seq<char>>) -> Seq<char> {
    let base = match config {
        Some(config) => config,
        None => match home {
            Some(home) => paths::joined(home, ".config"@),
            None => "."@,
        },
    };
    paths::joined(paths::joined(base, "brain"@), "config.json"@)
}

/// `$XDG_CONFIG_HOME/brain/config.json`, falling back to `~/.config`, given
/// what those two are.
pub fn default_path(config: Option<&str>, home: Option<&str>) -> (r: String)
    ensures
        r@ == config_path(
            match config {
                Some(c) => Some(c@),
                None => None,
            },
            match home {
                Some(h) => Some(h@),
                None => None,
            },
        ),
{
    let mut path = match config {
        Some(c) => text::chars_of(c),
        None => match home {
            Some(h) => {
                let mut p = text::chars_of(h);
                paths::join(&mut p, &text::chars_of(".config"));
                p
            },
            None => text::chars_of("."),
        },
    };
    paths::join(&mut path, &text::chars_of("brain"));
    paths::join(&mut path, &text::chars_of("config.json"));
    text::string_of(&path)
}

impl Config {
    /// A config for a first run.
    pub fn default_new() -> (r: Self)
        ensures
            r@ == blank(SCHEMA_VERSION),
    {
        let mut r = Config::default();
        r.version = SCHEMA_VERSION;
        assert(r@ =~= blank(SCHEMA_VERSION));
        r
    }

    /// The config to go on with, and what happened, given what was in its
    /// file. An unreadable file is set aside rather than deleted: it is the
    /// only copy of whatever was in there.
    pub fn load(path: &str, reading: Reading) -> (r: (Self, LoadOutcome))
        ensures
            match reading {
                Reading::Missing => r.0@ == blank(SCHEMA_VERSION) && r.1@ == OutcomeView::Fresh,
                Reading::Garbled => r.0@ == blank(SCHEMA_VERSION) && r.1@
                    == (OutcomeView::Recovered {
                    backup: paths::with_extension(path@, "json.corrupt"@),
                }),
                Reading::Read(config) => r.0 == config && r.1@ == OutcomeView::Loaded,
            },
    {
        proof {
            reveal_strlit("json.corrupt");
        }
        match reading {
            Reading::Missing => (Config::default_new(), LoadOutcome::Fresh),
            Reading::Garbled => (
                Config::default_new(),
                LoadOutcome::Recovered { backup: paths::extended(path, "json.corrupt") },
            ),
            Reading::Read(config) => (config, LoadOutcome::Loaded),
        }
    }

    /// The file that a save writes first, to be renamed over the config.
    pub fn staging(path: &str) -> (r: String)
        ensures
            r@ == paths::with_extension(path@, "json.tmp"@),
    {
        proof {
            reveal_strlit("json.tmp");
        }
        paths::extended(path, "json.tmp")
    }
}

/// Whether a text says something.
pub open spec fn says(s: Option<Seq<char>>) -> bool {
    match s {
        Some(s) => text::trim(s).len() > 0,
        None => false,
    }
}

/// Where the embedding server is, if semantic search is on.
pub open spec fn embedding_server(config: ConfigView, default: Seq<char>) -> Option<Seq<char>> {
    match config.embedding_url {
        None => Some(default),
        Some(url) => if says(config.embedding_url) {
            Some(url)
        } else {
            None
        },
    }
}

/// The shared vector store and its token, if there are both.
pub open spec fn vector_server(config: ConfigView) -> Option<(Seq<char>, Seq<char>)> {
    if says(config.vectors_url) && says(config.vectors_token) {
        Some((config.vectors_url->0, config.vectors_token->0))
    } else {
        None
    }
}

fn blank_text(s: &str) -> (r: bool)
    ensures
        r == (text::trim(s@).len() == 0),
{
    text::trim_chars(&text::chars_of(s)).len() == 0
}

impl Config {
    /// Where the embedding server is, or `None` when semantic search is off.
    ///
    /// Off is a configured empty string, not a missing key.
    pub fn embedding_server(&self, default: &str) -> (r: Option<String>)
        ensures
            text_of(r) == embedding_server(self@, default@),
    {
        match &self.embedding_url {
            None => Some(text::string_of(&text::chars_of(default))),
            Some(url) => if blank_text(url.as_str()) {
                None
            } else {
                Some(url.clone())
            },
        }
    }

    /// The shared vector store and the token that opens it. Half of the two is
    /// none at all: a URL with no token cannot authenticate, and a token with
    /// no URL has nowhere to go.
    pub fn vector_server(&self) -> (r: Option<(String, String)>)
        ensures
            match r {
                Some((url, token)) => vector_server(self@) == Some((url@, token@)),
                None => vector_server(self@) is None,
            },
    {
        match (&self.vectors_url, &self.vectors_token) {
            (Some(url), Some(token)) => if blank_text(url.as_str()) || blank_text(
                token.as_str(),
            ) {
                None
            } else {
                Some((url.clone(), token.clone()))
            },
            _ => None,
        }
    }
}

// ---- what holds of every config ----

/// A config that cannot be read is set aside beside where it was.
pub proof fn lemma_a_backup_is_a_sibling(path: Seq<char>)
    ensures
        ({
            let there = paths::components(path);
            let backup = paths::components(paths::with_extension(path, "json.corrupt"@));
            let staging = paths::components(paths::with_extension(path, "json.tmp"@));
            &&& backup.len() == there.len() && backup.drop_last() == there.drop_last()
            &&& staging.len() == there.len() && staging.drop_last() == there.drop_last()
        }),
{
    reveal_strlit("json.corrupt");
    reveal_strlit("json.tmp");
    paths::lemma_another_extension_is_a_sibling(path, "json.corrupt"@);
    paths::lemma_another_extension_is_a_sibling(path, "json.tmp"@);
}

// ---- what a config means ----

/// The embedding server is the default where the config names none, the one it
/// names where it does, as it is written, and none where what it says is blank.
pub proof fn lemma_a_blank_address_turns_embedding_off(
    config: ConfigView,
    default: Seq<char>,
)
    ensures
        match config.embedding_url {
            None => embedding_server(config, default) == Some(default),
            Some(url) => embedding_server(config, default) == if text::is_blank(url) {
                None::<Seq<char>>
            } else {
                Some(url)
            },
        },
{
    if let Some(url) = config.embedding_url {
        text::lemma_only_a_blank_text_trims_to_nothing(url);
    }
}

/// There is a shared store only where the config gives both an address and a
/// token, neither of them blank.
pub proof fn lemma_half_of_a_shared_store_is_none(config: ConfigView)
    ensures
        vector_server(config) == (match (config.vectors_url, config.vectors_token) {
            (Some(url), Some(token)) => if text::is_blank(url) || text::is_blank(token) {
                None
            } else {
                Some((url, token))
            },
            _ => None,
        }),
{
    if let Some(url) = config.vectors_url {
        text::lemma_only_a_blank_text_trims_to_nothing(url);
    }
    if let Some(token) = config.vectors_token {
        text::lemma_only_a_blank_text_trims_to_nothing(token);
    }
}

/// The config is `brain/config.json` under the config directory, or under
/// `.config` in the home directory if there is none, or under the working
/// directory if there is no home either.
pub proof fn lemma_where_the_config_is(config: Seq<char>, home: Option<Seq<char>>)
    ensures
        config_path(Some(config), home) == paths::joined(
            paths::joined(config, "brain"@),
            "config.json"@,
        ),
        home is Some ==> config_path(None, home) == config_path(
            Some(paths::joined(home->0, ".config"@)),
            None,
        ),
        config_path(None, None) == config_path(Some("."@), home),
{
}

/// A fresh config is of the first version and says nothing.
pub proof fn lemma_a_fresh_config_says_nothing()
    ensures
        ({
            let c = blank(SCHEMA_VERSION);
            &&& c.version == 1
            &&& c.vault is None && c.last_note is None
            &&& c.window_width is None && c.window_height is None
            &&& !c.window_maximized && !c.reading_mode
            &&& c.sort.len() == 0 && c.expanded_folders.len() == 0
            &&& c.embedding_url is None && c.vectors_url is None && c.vectors_token is None
        }),
{
}

/// An error in the file system is told with the path before it.
pub proof fn lemma_an_error_names_its_path(path: String, source: String)
    ensures
        told(ConfigError::Io { path, source }) == path@ + ": "@ + source@,
        told(ConfigError::Serialize(source)) == source@,
{
}

} // verus!
