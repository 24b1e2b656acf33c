//! Configuration: the startup document merged with command-line overrides,
//! the configurator supervisor, and the classification of its log lines.
use vstd::prelude::*;

verus! {

/// The language of a generated configuration.
#[derive(Clone, Copy, Debug, PartialEq, Eq, Structural)]
pub enum Lang {
    Lua,
    Rust,
}

/// Debug switches, reset on every configuration restart.
#[derive(Clone, Copy, Debug, PartialEq, Eq, Structural)]
pub struct Debug {
    pub visualize_damage: bool,
    pub visualize_opaque_regions: bool,
    pub disable_cursor_plane_scanout: bool,
    pub disable_process_piping: bool,
}

impl Debug {
    /// All switches off.
    pub fn new() -> (r: Self)
        ensures
            r == Debug::off(),
    {
        Debug {
            visualize_damage: false,
            visualize_opaque_regions: false,
            disable_cursor_plane_scanout: false,
            disable_process_piping: false,
        }
    }

    /// The value with all switches off.
    pub open spec fn off() -> Debug {
        Debug {
            visualize_damage: false,
            visualize_opaque_regions: false,
            disable_cursor_plane_scanout: false,
            disable_process_piping: false,
        }
    }
}

/// The startup document: what to run, with which environment, where the
/// control socket goes, and the two suppression switches.
pub struct StartupConfig {
    pub run: Vec<String>,
    /// Environment overrides; a value that is not a string is `None`.
    pub envs: Option<Vec<(String, Option<String>)>>,
    pub socket_dir: Option<String>,
    pub no_config: Option<bool>,
    pub no_xwayland: Option<bool>,
}

/// The command-line options that override the startup document.
pub struct CliOptions {
    pub socket_dir: Option<String>,
    pub no_config: bool,
    pub no_xwayland: bool,
}

/// Where the control socket goes.
#[derive(PartialEq, Eq)]
pub enum SocketDir {
    /// A directory named by the user: shell-expanded and made absolute
    /// relative to the configuration directory.
    Configured(String),
    /// The user's runtime directory.
    Runtime(String),
    /// [`DEFAULT_SOCKET_DIR`], when no runtime directory is known.
    Fallback,
}

/// A startup config with its fields resolved: command-line options first,
/// then the startup document, then defaults.
pub struct ResolvedStartupConfig {
    pub run: Vec<String>,
    pub envs: Vec<(String, Option<String>)>,
    pub socket_dir: SocketDir,
    pub no_config: bool,
    pub no_xwayland: bool,
}

/// The directory used when no runtime directory is known.
pub const DEFAULT_SOCKET_DIR: &'static str = "/tmp";

/// The resolved switch: set on the command line, else the document's value,
/// else off.
pub open spec fn resolve_flag(cli: Option<bool>, doc: Option<bool>) -> bool {
    if cli == Some(true) {
        true
    } else {
        match doc {
            Some(b) => b,
            None => false,
        }
    }
}

/// Copies a list of environment entries.
fn copy_envs(envs: &Vec<(String, Option<String>)>) -> (r: Vec<(String, Option<String>)>)
    ensures
        r@ == envs@,
{
    let mut r: Vec<(String, Option<String>)> = Vec::new();
    let mut i: usize = 0;
    while i < envs.len()
        invariant
            i <= envs@.len(),
            r@ == envs@.take(i as int),
        decreases envs@.len() - i,
    {
        let value = match &envs[i].1 {
            Some(v) => Some(v.clone()),
            None => None,
        };
        r.push((envs[i].0.clone(), value));
        proof {
            assert(r@ =~= envs@.take(i + 1));
        }
        i += 1;
    }
    assert(envs@.take(envs@.len() as int) =~= envs@);
    r
}

/// Copies a list of strings.
fn copy_strings(v: &Vec<String>) -> (r: Vec<String>)
    ensures
        r@ == v@,
{
    let mut r: Vec<String> = Vec::new();
    let mut i: usize = 0;
    while i < v.len()
        invariant
            i <= v@.len(),
            r@ == v@.take(i as int),
        decreases v@.len() - i,
    {
        r.push(v[i].clone());
        proof {
            assert(r@ =~= v@.take(i + 1));
        }
        i += 1;
    }
    assert(v@.take(v@.len() as int) =~= v@);
    r
}

impl StartupConfig {
    /// A document that runs nothing and sets nothing.
    pub fn empty() -> (r: Self)
        ensures
            r.run@.len() == 0,
            r.envs is None,
            r.socket_dir is None,
            r.no_config is None,
            r.no_xwayland is None,
    {
        StartupConfig { run: Vec::new(), envs: None, socket_dir: None, no_config: None, no_xwayland: None }
    }

    /// Merges command-line options with this document. The socket directory
    /// is the command line's, else the document's, else `runtime_dir`, else
    /// the default directory.
    pub fn merge_and_resolve(&self, cli: Option<&CliOptions>, runtime_dir: Option<String>) -> (r: ResolvedStartupConfig)
        ensures
            r.run@ == self.run@,
            r.envs@ == match self.envs {
                Some(e) => e@,
                None => Seq::empty(),
            },
            r.no_config == resolve_flag(match cli { Some(c) => Some(c.no_config), None => None }, self.no_config),
            r.no_xwayland == resolve_flag(match cli { Some(c) => Some(c.no_xwayland), None => None }, self.no_xwayland),
            r.socket_dir == match cli {
                Some(c) if c.socket_dir is Some => SocketDir::Configured(c.socket_dir.unwrap()),
                _ => match self.socket_dir {
                    Some(d) => SocketDir::Configured(d),
                    None => match runtime_dir {
                        Some(d) => SocketDir::Runtime(d),
                        None => SocketDir::Fallback,
                    },
                },
            },
    {
        let cli_dir = match cli {
            Some(c) => match &c.socket_dir {
                Some(d) => Some(d.clone()),
                None => None,
            },
            None => None,
        };
        let socket_dir = match cli_dir {
            Some(d) => SocketDir::Configured(d),
            None => match &self.socket_dir {
                Some(d) => SocketDir::Configured(d.clone()),
                None => match runtime_dir {
                    Some(d) => SocketDir::Runtime(d),
                    None => SocketDir::Fallback,
                },
            },
        };
        let cli_no_config = match cli {
            Some(c) => c.no_config,
            None => false,
        };
        let cli_no_xwayland = match cli {
            Some(c) => c.no_xwayland,
            None => false,
        };
        ResolvedStartupConfig {
            run: copy_strings(&self.run),
            envs: match &self.envs {
                Some(e) => copy_envs(e),
                None => Vec::new(),
            },
            socket_dir,
            no_config: cli_no_config || match self.no_config {
                Some(b) => b,
                None => false,
            },
            no_xwayland: cli_no_xwayland || match self.no_xwayland {
                Some(b) => b,
                None => false,
            },
        }
    }
}

/// What the configurator supervisor is running.
#[derive(Clone, Copy, Debug, PartialEq, Eq, Structural)]
pub enum SupervisorState {
    NotStarted,
    /// The configured command runs as a child process.
    RunningChild,
    /// The built-in configurator runs.
    RunningBuiltin,
    /// Configuration was suppressed.
    Skipped,
}

/// What happened to the configurator.
pub enum ConfigEvent {
    /// (Re)start the configuration from the startup document: `Some` with the
    /// parsed document, `None` when it could not be read or parsed.
    Start(Option<StartupConfig>),
    /// The configured command could not be spawned.
    SpawnFailed,
    /// The configurator child process exited.
    ChildExited,
    /// The built-in configurator stopped.
    BuiltinExited,
}

/// A process to spawn: program, arguments and environment overrides.
pub struct SpawnRequest {
    pub program: String,
    pub args: Vec<String>,
    pub envs: Vec<(String, String)>,
}

/// What the event loop must do for the configurator.
pub enum ConfigAction {
    Nothing,
    /// Configuration is suppressed: start nothing.
    Skip,
    /// Start the built-in configurator.
    StartBuiltin,
    /// Spawn the configured command, with stdout and stderr piped.
    Spawn(SpawnRequest),
    /// The built-in configurator crashed: unrecoverable.
    Fatal,
}

/// The configurator supervisor.
pub struct ConfigSupervisor {
    pub state: SupervisorState,
}

/// The environment entries whose value is a string, in order.
pub open spec fn string_envs(envs: Seq<(String, Option<String>)>) -> Seq<(Seq<char>, Seq<char>)>
    decreases envs.len(),
{
    if envs.len() == 0 {
        Seq::empty()
    } else {
        let rest = string_envs(envs.drop_last());
        match envs.last().1 {
            Some(v) => rest.push((envs.last().0@, v@)),
            None => rest,
        }
    }
}

/// The views of a list of environment pairs.
pub open spec fn env_views(envs: Seq<(String, String)>) -> Seq<(Seq<char>, Seq<char>)> {
    envs.map_values(|e: (String, String)| (e.0@, e.1@))
}

/// The supervisor's next state and action for an event (`no_config` is the
/// resolved suppression switch when starting).
pub open spec fn supervise(state: SupervisorState, ev: ConfigEvent, cli_no_config: bool) -> (SupervisorState, int) {
    match ev {
        ConfigEvent::Start(doc) => {
            let no_config = cli_no_config || match doc {
                Some(d) => d.no_config == Some(true),
                None => false,
            };
            if no_config {
                (SupervisorState::Skipped, 1)
            } else {
                match doc {
                    Some(d) => if d.run@.len() > 0 {
                        (SupervisorState::RunningChild, 3)
                    } else {
                        (SupervisorState::RunningBuiltin, 2)
                    },
                    None => (SupervisorState::RunningBuiltin, 2),
                }
            }
        },
        ConfigEvent::SpawnFailed | ConfigEvent::ChildExited => if state == SupervisorState::RunningChild {
            if cli_no_config {
                (SupervisorState::Skipped, 1)
            } else {
                (SupervisorState::RunningBuiltin, 2)
            }
        } else {
            (state, 0)
        },
        ConfigEvent::BuiltinExited => if state == SupervisorState::RunningBuiltin {
            (state, 4)
        } else {
            (state, 0)
        },
    }
}

impl ConfigAction {
    /// The kind of action: nothing, skip, builtin, spawn, fatal.
    pub open spec fn kind(&self) -> int {
        match self {
            ConfigAction::Nothing => 0,
            ConfigAction::Skip => 1,
            ConfigAction::StartBuiltin => 2,
            ConfigAction::Spawn(_) => 3,
            ConfigAction::Fatal => 4,
        }
    }
}

impl ConfigSupervisor {
    /// A supervisor that has started nothing.
    pub fn new() -> (r: Self)
        ensures
            r.state == SupervisorState::NotStarted,
    {
        ConfigSupervisor { state: SupervisorState::NotStarted }
    }

    /// Decides what to do on an event. Starting reads the document: a
    /// suppressed configuration (on the command line or in the document)
    /// starts nothing; an unreadable document or an empty command falls back
    /// to the built-in configurator; otherwise the command is spawned with
    /// the string-valued environment overrides. When the child cannot be
    /// spawned or exits, the built-in configurator takes over; when that one
    /// stops, the failure is fatal.
    pub fn step(&mut self, ev: ConfigEvent, cli_no_config: bool) -> (r: ConfigAction)
        ensures
            (final(self).state, r.kind()) == supervise(old(self).state, ev, cli_no_config),
            r matches ConfigAction::Spawn(req) ==> ev matches ConfigEvent::Start(Some(d)) && {
                &&& d.run@.len() > 0
                &&& req.program@ == d.run@[0]@
                &&& req.args@ == d.run@.subrange(1, d.run@.len() as int)
                &&& env_views(req.envs@) == string_envs(match d.envs {
                    Some(e) => e@,
                    None => Seq::empty(),
                })
            },
    {
        match ev {
            ConfigEvent::Start(doc) => {
                let doc_no_config = match &doc {
                    Some(d) => match d.no_config {
                        Some(b) => b,
                        None => false,
                    },
                    None => false,
                };
                if cli_no_config || doc_no_config {
                    self.state = SupervisorState::Skipped;
                    return ConfigAction::Skip;
                }
                match doc {
                    Some(d) => {
                        if d.run.len() == 0 {
                            self.state = SupervisorState::RunningBuiltin;
                            return ConfigAction::StartBuiltin;
                        }
                        let program = d.run[0].clone();
                        let mut args: Vec<String> = Vec::new();
                        let mut i: usize = 1;
                        while i < d.run.len()
                            invariant
                                1 <= i <= d.run@.len(),
                                args@ == d.run@.subrange(1, i as int),
                            decreases d.run@.len() - i,
                        {
                            args.push(d.run[i].clone());
                            proof {
                                assert(args@ =~= d.run@.subrange(1, i + 1));
                            }
                            i += 1;
                        }
                        let envs = match &d.envs {
                            Some(e) => string_envs_of(e),
                            None => Vec::new(),
                        };
                        self.state = SupervisorState::RunningChild;
                        ConfigAction::Spawn(SpawnRequest { program, args, envs })
                    },
                    None => {
                        self.state = SupervisorState::RunningBuiltin;
                        ConfigAction::StartBuiltin
                    },
                }
            },
            ConfigEvent::SpawnFailed | ConfigEvent::ChildExited => {
                if self.state != SupervisorState::RunningChild {
                    return ConfigAction::Nothing;
                }
                if cli_no_config {
                    self.state = SupervisorState::Skipped;
                    ConfigAction::Skip
                } else {
                    self.state = SupervisorState::RunningBuiltin;
                    ConfigAction::StartBuiltin
                }
            },
            ConfigEvent::BuiltinExited => {
                if self.state == SupervisorState::RunningBuiltin {
                    ConfigAction::Fatal
                } else {
                    ConfigAction::Nothing
                }
            },
        }
    }
}

/// The string-valued environment entries, in order.
fn string_envs_of(envs: &Vec<(String, Option<String>)>) -> (r: Vec<(String, String)>)
    ensures
        env_views(r@) == string_envs(envs@),
{
    let mut r: Vec<(String, String)> = Vec::new();
    let mut i: usize = 0;
    while i < envs.len()
        invariant
            i <= envs@.len(),
            env_views(r@) == string_envs(envs@.take(i as int)),
        decreases envs@.len() - i,
    {
        proof {
            assert(envs@.take(i + 1).drop_last() =~= envs@.take(i as int));
        }
        match &envs[i].1 {
            Some(v) => {
                r.push((envs[i].0.clone(), v.clone()));
                proof {
                    assert(env_views(r@) =~= string_envs(envs@.take(i as int)).push((envs@[i as int].0@, v@)));
                }
            },
            None => {},
        }
        i += 1;
    }
    assert(envs@.take(envs@.len() as int) =~= envs@);
    r
}

/// A log level for a configurator output line.
#[derive(Clone, Copy, Debug, PartialEq, Eq, Structural)]
pub enum LogLevel {
    Debug,
    Info,
    Warn,
    Error,
}

/// Unicode white space, as `char::is_whitespace` defines it.
pub open spec fn is_ws(c: char) -> bool {
    ('\u{9}' <= c && c <= '\u{d}') || c == ' ' || c == '\u{85}' || c == '\u{a0}' || c == '\u{1680}'
        || ('\u{2000}' <= c && c <= '\u{200a}') || c == '\u{2028}' || c == '\u{2029}' || c == '\u{202f}'
        || c == '\u{205f}' || c == '\u{3000}'
}

/// The characters of `s` up to its first white space.
pub open spec fn leading_word(s: Seq<char>) -> Seq<char>
    decreases s.len(),
{
    if s.len() == 0 || is_ws(s[0]) {
        Seq::empty()
    } else {
        seq![s[0]] + leading_word(s.drop_first())
    }
}

/// The first white-space-delimited token of `s`.
pub open spec fn first_token(s: Seq<char>) -> Seq<char>
    decreases s.len(),
{
    if s.len() == 0 {
        Seq::empty()
    } else if is_ws(s[0]) {
        first_token(s.drop_first())
    } else {
        leading_word(s)
    }
}

/// The level a configurator line is logged at: by its first token, `WARN`,
/// `ERROR` or `FATAL`, `DEBUG`, and anything else at info.
pub open spec fn line_level(s: Seq<char>) -> LogLevel {
    let t = first_token(s);
    if t == seq!['W', 'A', 'R', 'N'] {
        LogLevel::Warn
    } else if t == seq!['E', 'R', 'R', 'O', 'R'] || t == seq!['F', 'A', 'T', 'A', 'L'] {
        LogLevel::Error
    } else if t == seq!['D', 'E', 'B', 'U', 'G'] {
        LogLevel::Debug
    } else {
        LogLevel::Info
    }
}

/// Whether `c` is white space.
fn char_is_ws(c: char) -> (r: bool)
    ensures
        r == is_ws(c),
{
    ('\u{9}' <= c && c <= '\u{d}') || c == ' ' || c == '\u{85}' || c == '\u{a0}' || c == '\u{1680}'
        || ('\u{2000}' <= c && c <= '\u{200a}') || c == '\u{2028}' || c == '\u{2029}' || c == '\u{202f}'
        || c == '\u{205f}' || c == '\u{3000}'
}

/// Whether `word` spells `lit`.
fn spells(word: &Vec<char>, chars: &[char]) -> (r: bool)
    ensures
        r == (word@ == chars@),
{
    if word.len() != chars.len() {
        return false;
    }
    let mut i: usize = 0;
    while i < word.len()
        invariant
            word@.len() == chars@.len(),
            i <= word@.len(),
            forall|j: int| 0 <= j < i ==> word@[j] == chars@[j],
        decreases word@.len() - i,
    {
        if word[i] != chars[i] {
            return false;
        }
        i += 1;
    }
    assert(word@ =~= chars@);
    true
}

/// Classifies a configurator output line by its first token.
pub fn classify_log_line(line: &str) -> (r: LogLevel)
    ensures
        r == line_level(line@),
{
    let n = line.unicode_len();
    let ghost s = line@;
    let mut i: usize = 0;
    assert(s.subrange(0, n as int) =~= s);
    while i < n && char_is_ws(line.get_char(i))
        invariant
            n == s.len(),
            s == line@,
            i <= n,
            first_token(s) == first_token(s.subrange(i as int, n as int)),
        decreases n - i,
    {
        proof {
            assert(s.subrange(i as int, n as int).drop_first() =~= s.subrange(i + 1, n as int));
        }
        i += 1;
    }
    let mut word: Vec<char> = Vec::new();
    let mut j: usize = i;
    proof {
        if i < n {
            assert(!is_ws(s[i as int]));
            assert(s.subrange(i as int, n as int)[0] == s[i as int]);
        }
    }
    while j < n && !char_is_ws(line.get_char(j))
        invariant
            n == s.len(),
            s == line@,
            i <= j <= n,
            first_token(s) == word@ + leading_word(s.subrange(j as int, n as int)),
        decreases n - j,
    {
        let c = line.get_char(j);
        proof {
            let rest = s.subrange(j as int, n as int);
            assert(rest[0] == c);
            assert(rest.drop_first() =~= s.subrange(j + 1, n as int));
            assert(word@.push(c) + leading_word(s.subrange(j + 1, n as int)) =~= word@ + (seq![c] + leading_word(rest.drop_first())));
        }
        word.push(c);
        j += 1;
    }
    proof {
        if j < n {
            assert(s.subrange(j as int, n as int)[0] == s[j as int]);
        }
        assert(word@ + Seq::<char>::empty() =~= word@);
    }
    let warn = ['W', 'A', 'R', 'N'];
    let error = ['E', 'R', 'R', 'O', 'R'];
    let fatal = ['F', 'A', 'T', 'A', 'L'];
    let debug = ['D', 'E', 'B', 'U', 'G'];
    assert(warn@ =~= seq!['W', 'A', 'R', 'N']);
    assert(error@ =~= seq!['E', 'R', 'R', 'O', 'R']);
    assert(fatal@ =~= seq!['F', 'A', 'T', 'A', 'L']);
    assert(debug@ =~= seq!['D', 'E', 'B', 'U', 'G']);
    if spells(&word, &warn) {
        LogLevel::Warn
    } else if spells(&word, &error) || spells(&word, &fatal) {
        LogLevel::Error
    } else if spells(&word, &debug) {
        LogLevel::Debug
    } else {
        LogLevel::Info
    }
}

/// Configuration state that a restart clears.
pub struct Config {
    pub debug: Debug,
    /// Environment variables given to every spawned process.
    pub process_envs: Vec<(String, String)>,
    pub last_error: Option<String>,
}

impl Config {
    /// A fresh configuration state.
    pub fn new() -> (r: Self)
        ensures
            r.debug == Debug::off(),
            r.process_envs@.len() == 0,
            r.last_error is None,
    {
        Config { debug: Debug::new(), process_envs: Vec::new(), last_error: None }
    }

    /// Clears what a configuration restart clears: debug switches and
    /// per-process environment variables.
    pub fn clear(&mut self)
        ensures
            final(self).debug == Debug::off(),
            final(self).process_envs@.len() == 0,
            final(self).last_error == old(self).last_error,
    {
        self.debug = Debug::new();
        self.process_envs = Vec::new();
    }
}

/// Turns damage visualization on or off.
pub fn set_damage_visualization(config: &mut Config, set: bool)
    ensures
        final(config).debug == (Debug { visualize_damage: set, ..old(config).debug }),
        final(config).process_envs == old(config).process_envs,
{
    config.debug.visualize_damage = set;
}

/// Toggles damage visualization.
pub fn toggle_damage_visualization(config: &mut Config)
    ensures
        final(config).debug == (Debug { visualize_damage: !old(config).debug.visualize_damage, ..old(config).debug }),
        final(config).process_envs == old(config).process_envs,
{
    config.debug.visualize_damage = !config.debug.visualize_damage;
}

/// Turns opaque-region visualization on or off.
pub fn set_opaque_region_visualization(config: &mut Config, set: bool)
    ensures
        final(config).debug == (Debug { visualize_opaque_regions: set, ..old(config).debug }),
        final(config).process_envs == old(config).process_envs,
{
    config.debug.visualize_opaque_regions = set;
}

/// Toggles opaque-region visualization.
pub fn toggle_opaque_region_visualization(config: &mut Config)
    ensures
        final(config).debug == (Debug { visualize_opaque_regions: !old(config).debug.visualize_opaque_regions, ..old(config).debug }),
        final(config).process_envs == old(config).process_envs,
{
    config.debug.visualize_opaque_regions = !config.debug.visualize_opaque_regions;
}

/// Allows (`true`) or forbids scanning the cursor out on its own plane.
pub fn set_cursor_plane_scanout(config: &mut Config, set: bool)
    ensures
        final(config).debug == (Debug { disable_cursor_plane_scanout: !set, ..old(config).debug }),
        final(config).process_envs == old(config).process_envs,
{
    config.debug.disable_cursor_plane_scanout = !set;
}

/// Toggles cursor plane scan-out.
pub fn toggle_cursor_plane_scanout(config: &mut Config)
    ensures
        final(config).debug == (Debug { disable_cursor_plane_scanout: !old(config).debug.disable_cursor_plane_scanout, ..old(config).debug }),
        final(config).process_envs == old(config).process_envs,
{
    config.debug.disable_cursor_plane_scanout = !config.debug.disable_cursor_plane_scanout;
}

/// Allows (`true`) or forbids piping spawned processes' output.
pub fn set_process_piping(config: &mut Config, set: bool)
    ensures
        final(config).debug == (Debug { disable_process_piping: !set, ..old(config).debug }),
        final(config).process_envs == old(config).process_envs,
{
    config.debug.disable_process_piping = !set;
}

/// Toggles process piping.
pub fn toggle_process_piping(config: &mut Config)
    ensures
        final(config).debug == (Debug { disable_process_piping: !old(config).debug.disable_process_piping, ..old(config).debug }),
        final(config).process_envs == old(config).process_envs,
{
    config.debug.disable_process_piping = !config.debug.disable_process_piping;
}

} // verus!
