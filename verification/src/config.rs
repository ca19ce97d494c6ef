//! The configuration: what a file, the environment and the command line say,
//! and what follows from the three.
use vstd::prelude::*;

use crate::failure;
use crate::failure::{ErrorKind, Failure, FailureView};
use crate::number;
use crate::order;
use crate::paths;
use crate::slots;
use crate::slots::{SlotConfig, SlotFileConfig, SlotTable, SlotView};
use crate::text;

verus! {

/// How an application is started.
#[derive(Debug)]
pub struct LaunchConfig {
    /// The command, with placeholders.
    pub command: String,
    /// The files with variables for the environment of the command.
    pub env_files: Vec<String>,
}

/// How it is found out whether an application is ready.
#[derive(Debug)]
pub enum HealthConfig {
    /// It accepts a connection.
    Tcp { host: String, timeout_seconds: u64, interval_millis: u64 },
    /// It answers a request with the expected status. The headers are sent in
    /// the order of the list.
    Http {
        url: String,
        method: String,
        expected_status: u16,
        headers: Vec<(String, String)>,
        timeout_seconds: u64,
        interval_millis: u64,
    },
}

/// How traffic is switched from one slot to another.
#[derive(Debug)]
pub enum SwitchConfig {
    /// By a file with a `proxy_pass` directive, which Nginx includes.
    NginxProxyPassInclude { path: String, reload_command: String, host: String },
}

/// What a configuration file says.
#[derive(Debug)]
pub struct FileConfig {
    pub home: Option<String>,
    pub inbox_dir: Option<String>,
    pub releases_dir: Option<String>,
    pub runtime_dir: Option<String>,
    pub poll_seconds: Option<u64>,
    pub shutdown_timeout_seconds: Option<u64>,
    pub slots: Option<SlotTable>,
    pub launch: Option<LaunchConfig>,
    pub health: Option<HealthConfig>,
    pub switch: Option<SwitchConfig>,
}

/// What the command line says.
#[derive(Debug)]
pub struct CommonOverrides {
    pub home: Option<String>,
    pub inbox_dir: Option<String>,
    pub releases_dir: Option<String>,
    pub runtime_dir: Option<String>,
    pub poll_seconds: Option<u64>,
}

/// What holds where neither the file nor the command line says anything.
#[derive(Debug)]
pub struct EnvDefaults {
    pub home: String,
    pub slots: Vec<SlotConfig>,
    pub launch: LaunchConfig,
    pub health: HealthConfig,
    pub switch: SwitchConfig,
    pub poll_seconds: u64,
    pub shutdown_timeout_seconds: u64,
}

/// The configuration that the tool works with.
#[derive(Debug)]
pub struct AppConfig {
    pub inbox_dir: String,
    pub releases_dir: String,
    pub runtime_dir: String,
    pub slots: Vec<SlotConfig>,
    pub launch: LaunchConfig,
    pub health: HealthConfig,
    pub switch: SwitchConfig,
    /// Seconds between two looks into the inbox.
    pub poll_interval: u64,
    /// Seconds that an application has to end in.
    pub shutdown_timeout: u64,
}

// ---------------------------------------------------------------------------
// Views
// ---------------------------------------------------------------------------

/// What a [`LaunchConfig`] holds.
pub struct LaunchView {
    pub command: Seq<char>,
    pub env_files: Seq<Seq<char>>,
}

/// What a [`HealthConfig`] holds.
pub enum HealthView {
    Tcp { host: Seq<char>, timeout_seconds: u64, interval_millis: u64 },
    Http {
        url: Seq<char>,
        method: Seq<char>,
        expected_status: u16,
        headers: Seq<(Seq<char>, Seq<char>)>,
        timeout_seconds: u64,
        interval_millis: u64,
    },
}

/// What a [`SwitchConfig`] holds.
pub enum SwitchView {
    NginxProxyPassInclude { path: Seq<char>, reload_command: Seq<char>, host: Seq<char> },
}

/// What a [`FileConfig`] holds.
pub struct FileView {
    pub home: Option<Seq<char>>,
    pub inbox_dir: Option<Seq<char>>,
    pub releases_dir: Option<Seq<char>>,
    pub runtime_dir: Option<Seq<char>>,
    pub poll_seconds: Option<u64>,
    pub shutdown_timeout_seconds: Option<u64>,
    pub slots: Option<Seq<SlotView>>,
    pub launch: Option<LaunchView>,
    pub health: Option<HealthView>,
    pub switch: Option<SwitchView>,
}

/// What [`CommonOverrides`] hold.
pub struct OverridesView {
    pub home: Option<Seq<char>>,
    pub inbox_dir: Option<Seq<char>>,
    pub releases_dir: Option<Seq<char>>,
    pub runtime_dir: Option<Seq<char>>,
    pub poll_seconds: Option<u64>,
}

/// What [`EnvDefaults`] hold.
pub struct DefaultsView {
    pub home: Seq<char>,
    pub slots: Seq<SlotView>,
    pub launch: LaunchView,
    pub health: HealthView,
    pub switch: SwitchView,
    pub poll_seconds: u64,
    pub shutdown_timeout_seconds: u64,
}

/// What an [`AppConfig`] holds.
pub struct ConfigView {
    pub inbox_dir: Seq<char>,
    pub releases_dir: Seq<char>,
    pub runtime_dir: Seq<char>,
    pub slots: Seq<SlotView>,
    pub launch: LaunchView,
    pub health: HealthView,
    pub switch: SwitchView,
    pub poll_interval: u64,
    pub shutdown_timeout: u64,
}

impl DeepView for LaunchConfig {
    type V = LaunchView;

    open spec fn deep_view(&self) -> LaunchView {
        LaunchView { command: self.command@, env_files: self.env_files.deep_view() }
    }
}

impl DeepView for HealthConfig {
    type V = HealthView;

    open spec fn deep_view(&self) -> HealthView {
        match self {
            HealthConfig::Tcp { host, timeout_seconds, interval_millis } => HealthView::Tcp {
                host: host@,
                timeout_seconds: *timeout_seconds,
                interval_millis: *interval_millis,
            },
            HealthConfig::Http {
                url,
                method,
                expected_status,
                headers,
                timeout_seconds,
                interval_millis,
            } => HealthView::Http {
                url: url@,
                method: method@,
                expected_status: *expected_status,
                headers: headers.deep_view(),
                timeout_seconds: *timeout_seconds,
                interval_millis: *interval_millis,
            },
        }
    }
}

impl DeepView for SwitchConfig {
    type V = SwitchView;

    open spec fn deep_view(&self) -> SwitchView {
        match self {
            SwitchConfig::NginxProxyPassInclude { path, reload_command, host } =>
                SwitchView::NginxProxyPassInclude {
                path: path@,
                reload_command: reload_command@,
                host: host@,
            },
        }
    }
}

impl DeepView for FileConfig {
    type V = FileView;

    open spec fn deep_view(&self) -> FileView {
        FileView {
            home: self.home.deep_view(),
            inbox_dir: self.inbox_dir.deep_view(),
            releases_dir: self.releases_dir.deep_view(),
            runtime_dir: self.runtime_dir.deep_view(),
            poll_seconds: self.poll_seconds,
            shutdown_timeout_seconds: self.shutdown_timeout_seconds,
            slots: self.slots.deep_view(),
            launch: self.launch.deep_view(),
            health: self.health.deep_view(),
            switch: self.switch.deep_view(),
        }
    }
}

impl DeepView for CommonOverrides {
    type V = OverridesView;

    open spec fn deep_view(&self) -> OverridesView {
        OverridesView {
            home: self.home.deep_view(),
            inbox_dir: self.inbox_dir.deep_view(),
            releases_dir: self.releases_dir.deep_view(),
            runtime_dir: self.runtime_dir.deep_view(),
            poll_seconds: self.poll_seconds,
        }
    }
}

impl DeepView for EnvDefaults {
    type V = DefaultsView;

    open spec fn deep_view(&self) -> DefaultsView {
        DefaultsView {
            home: self.home@,
            slots: self.slots.deep_view(),
            launch: self.launch.deep_view(),
            health: self.health.deep_view(),
            switch: self.switch.deep_view(),
            poll_seconds: self.poll_seconds,
            shutdown_timeout_seconds: self.shutdown_timeout_seconds,
        }
    }
}

impl DeepView for AppConfig {
    type V = ConfigView;

    open spec fn deep_view(&self) -> ConfigView {
        ConfigView {
            inbox_dir: self.inbox_dir@,
            releases_dir: self.releases_dir@,
            runtime_dir: self.runtime_dir@,
            slots: self.slots.deep_view(),
            launch: self.launch.deep_view(),
            health: self.health.deep_view(),
            switch: self.switch.deep_view(),
            poll_interval: self.poll_interval,
            shutdown_timeout: self.shutdown_timeout,
        }
    }
}

// ---------------------------------------------------------------------------
// Configuration files
// ---------------------------------------------------------------------------

/// The request method where a file names none.
pub fn default_http_method() -> (r: String)
    ensures
        r@ == "GET"@,
{
    "GET".to_owned()
}

/// The status that is waited for where a file names none.
pub fn default_expected_status() -> (r: u16)
    ensures
        r == 200,
{
    200
}

/// The file that is read where the command line names none.
pub const DEFAULT_CONFIG: &'static str = "doubleshot.toml";

/// A file that says nothing.
pub open spec fn empty_file() -> FileView {
    FileView {
        home: None,
        inbox_dir: None,
        releases_dir: None,
        runtime_dir: None,
        poll_seconds: None,
        shutdown_timeout_seconds: None,
        slots: None,
        launch: None,
        health: None,
        switch: None,
    }
}

/// A starter file with the two usual slots.
pub open spec fn starter_file(
    blue: u16,
    green: u16,
    env_files: Seq<Seq<char>>,
    health: HealthView,
    host: Seq<char>,
) -> FileView {
    FileView {
        home: Some("/opt/doubleshot"@),
        poll_seconds: Some(5),
        shutdown_timeout_seconds: Some(20),
        slots: Some(
            slots::inserted(
                slots::inserted(Seq::empty(), SlotView { name: "blue"@, port: blue }),
                SlotView { name: "green"@, port: green },
            ),
        ),
        launch: Some(
            LaunchView {
                command: "/usr/bin/java -Dserver.port={port} -jar {artifact}"@,
                env_files,
            },
        ),
        health: Some(health),
        switch: Some(
            SwitchView::NginxProxyPassInclude {
                path: "/etc/nginx/doubleshot/proxy-pass.inc"@,
                reload_command: "sudo nginx -t && sudo systemctl reload nginx"@,
                host,
            },
        ),
        ..empty_file()
    }
}

/// A starter file with the two usual slots.
pub(crate) fn make_starter_file(
    blue: u16,
    green: u16,
    env_files: Vec<String>,
    health: HealthConfig,
    host: String,
) -> (r: FileConfig)
    ensures
        r.deep_view() == starter_file(
            blue,
            green,
            env_files.deep_view(),
            health.deep_view(),
            host@,
        ),
{
    let mut slots = SlotTable::new();
    slots.insert("blue".to_owned(), SlotFileConfig { port: blue });
    slots.insert("green".to_owned(), SlotFileConfig { port: green });
    FileConfig {
        home: Some("/opt/doubleshot".to_owned()),
        inbox_dir: None,
        releases_dir: None,
        runtime_dir: None,
        poll_seconds: Some(5),
        shutdown_timeout_seconds: Some(20),
        slots: Some(slots),
        launch: Some(
            LaunchConfig {
                command: "/usr/bin/java -Dserver.port={port} -jar {artifact}".to_owned(),
                env_files,
            },
        ),
        health: Some(health),
        switch: Some(
            SwitchConfig::NginxProxyPassInclude {
                path: "/etc/nginx/doubleshot/proxy-pass.inc".to_owned(),
                reload_command: "sudo nginx -t && sudo systemctl reload nginx".to_owned(),
                host,
            },
        ),
    }
}

impl FileConfig {
    /// The file that a new user starts from.
    pub fn sample() -> (r: FileConfig)
        ensures
            r.deep_view() == starter_file(
                8081,
                8082,
                seq!["/opt/bankerbee/prod.env"@],
                (HealthView::Http {
                    url: "http://127.0.0.1:{port}/actuator/health"@,
                    method: "GET"@,
                    expected_status: 200,
                    headers: Seq::empty(),
                    timeout_seconds: 120,
                    interval_millis: 1000,
                }),
                "127.0.0.1"@,
            ),
    {
        let mut env_files: Vec<String> = Vec::new();
        env_files.push("/opt/bankerbee/prod.env".to_owned());
        let headers: Vec<(String, String)> = Vec::new();
        assert(env_files.deep_view() =~= seq!["/opt/bankerbee/prod.env"@]);
        assert(headers.deep_view() =~= Seq::empty());
        make_starter_file(
            8081,
            8082,
            env_files,
            HealthConfig::Http {
                url: "http://127.0.0.1:{port}/actuator/health".to_owned(),
                method: default_http_method(),
                expected_status: default_expected_status(),
                headers,
                timeout_seconds: 120,
                interval_millis: 1000,
            },
            "127.0.0.1".to_owned(),
        )
    }

    /// A file that says nothing.
    pub fn empty() -> (r: FileConfig)
        ensures
            r.deep_view() == empty_file(),
    {
        FileConfig {
            home: None,
            inbox_dir: None,
            releases_dir: None,
            runtime_dir: None,
            poll_seconds: None,
            shutdown_timeout_seconds: None,
            slots: None,
            launch: None,
            health: None,
            switch: None,
        }
    }
}

/// What the configuration file says, from what came of reading it.
pub open spec fn file_to_use(named: bool, read: Result<FileView, FailureView>) -> Result<
    FileView,
    FailureView,
> {
    match read {
        Ok(file) => Ok(file),
        Err(failure) => if failure.kind == ErrorKind::NotFound && !named {
            Ok(empty_file())
        } else {
            Err(failure)
        },
    }
}

/// What the configuration file says, from what came of reading it: a file that
/// does not exist says nothing, unless the user named it.
pub fn load_file_config(named: bool, read: Result<FileConfig, Failure>) -> (r: Result<
    FileConfig,
    Failure,
>)
    ensures
        match read {
            Ok(file) => r == Ok::<FileConfig, Failure>(file),
            Err(failure) => if failure.kind == ErrorKind::NotFound && !named {
                r is Ok && r->Ok_0.deep_view() == empty_file()
            } else {
                r == Err::<FileConfig, Failure>(failure)
            },
        },
        failure::outcome(r) == file_to_use(named, failure::outcome(read)),
{
    match read {
        Ok(file) => Ok(file),
        Err(failure) => {
            if failure.kind == ErrorKind::NotFound && !named {
                Ok(FileConfig::empty())
            } else {
                Err(failure)
            }
        },
    }
}

// ---------------------------------------------------------------------------
// The environment
// ---------------------------------------------------------------------------

/// A variable of the environment.
#[derive(Debug)]
pub enum EnvValue {
    /// It is not set.
    Missing,
    /// It holds this text.
    Text(String),
    /// It holds no text; these are the words for that.
    NotUnicode(String),
}

/// What an [`EnvValue`] holds.
pub enum EnvView {
    Missing,
    Text(Seq<char>),
    NotUnicode(Seq<char>),
}

impl DeepView for EnvValue {
    type V = EnvView;

    open spec fn deep_view(&self) -> EnvView {
        match self {
            EnvValue::Missing => EnvView::Missing,
            EnvValue::Text(value) => EnvView::Text(value@),
            EnvValue::NotUnicode(words) => EnvView::NotUnicode(words@),
        }
    }
}

/// The variables of the environment that set defaults.
#[derive(Debug)]
pub struct EnvValues {
    /// `DOUBLESHOT_HOME`
    pub home: Option<String>,
    /// `DOUBLESHOT_JAVA`
    pub java: EnvValue,
    /// `DOUBLESHOT_BLUE_PORT`
    pub blue_port: EnvValue,
    /// `DOUBLESHOT_GREEN_PORT`
    pub green_port: EnvValue,
    /// `DOUBLESHOT_APP_HOST`
    pub app_host: EnvValue,
    /// `DOUBLESHOT_ENV_FILE`
    pub env_file: Option<String>,
    /// `DOUBLESHOT_HEALTH_TIMEOUT_SECONDS`
    pub health_timeout_seconds: EnvValue,
    /// `DOUBLESHOT_HEALTH_INTERVAL_MILLIS`
    pub health_interval_millis: EnvValue,
    /// `DOUBLESHOT_NGINX_PROXY_PASS`
    pub nginx_proxy_pass: Option<String>,
    /// `DOUBLESHOT_NGINX_RELOAD`
    pub nginx_reload: EnvValue,
    /// `DOUBLESHOT_POLL_SECONDS`
    pub poll_seconds: EnvValue,
    /// `DOUBLESHOT_SHUTDOWN_TIMEOUT_SECONDS`
    pub shutdown_timeout_seconds: EnvValue,
}

/// The text of a variable, or a default where it has none.
pub open spec fn env_text(value: EnvView, default: Seq<char>) -> Seq<char> {
    match value {
        EnvView::Text(text) => text,
        _ => default,
    }
}

/// The path that a variable holds, or a default where it is not set.
pub open spec fn env_path(value: Option<Seq<char>>, default: Seq<char>) -> Seq<char> {
    match value {
        Some(path) => path,
        None => default,
    }
}

/// The number that a variable holds, or a default where it is not set.
pub open spec fn env_number(
    name: Seq<char>,
    value: EnvView,
    default: nat,
    max: nat,
) -> Result<nat, FailureView> {
    match value {
        EnvView::Missing => Ok(default),
        EnvView::Text(text) => match number::read_number(text, max) {
            Ok(n) => Ok(n),
            Err(error) => Err(
                FailureView {
                    kind: ErrorKind::InvalidInput,
                    message: "invalid value for "@ + name + ": "@ + error.words(),
                },
            ),
        },
        EnvView::NotUnicode(words) => Err(
            FailureView { kind: ErrorKind::InvalidInput, message: words },
        ),
    }
}

/// The defaults for numbers that could be read.
pub open spec fn defaults_of(
    env: EnvValues,
    blue: nat,
    green: nat,
    timeout: nat,
    interval: nat,
    poll: nat,
    shutdown: nat,
) -> DefaultsView {
    DefaultsView {
        home: env_path(env.home.deep_view(), "/opt/doubleshot"@),
        slots: seq![
            SlotView { name: "blue"@, port: blue as u16 },
            SlotView { name: "green"@, port: green as u16 },
        ],
        launch: LaunchView {
            command: env_text(env.java.deep_view(), "/usr/bin/java"@)
                + " -Dserver.port={port} -jar {artifact}"@,
            env_files: match env.env_file {
                Some(path) => seq![path@],
                None => Seq::empty(),
            },
        },
        health: HealthView::Tcp {
            host: env_text(env.app_host.deep_view(), "127.0.0.1"@),
            timeout_seconds: timeout as u64,
            interval_millis: interval as u64,
        },
        switch: SwitchView::NginxProxyPassInclude {
            path: env_path(
                env.nginx_proxy_pass.deep_view(),
                "/etc/nginx/doubleshot/proxy-pass.inc"@,
            ),
            reload_command: env_text(env.nginx_reload.deep_view(), "nginx -s reload"@),
            host: env_text(env.app_host.deep_view(), "127.0.0.1"@),
        },
        poll_seconds: poll as u64,
        shutdown_timeout_seconds: shutdown as u64,
    }
}

/// The defaults that the environment sets, or the failure of the first number
/// that cannot be read.
pub open spec fn env_defaults(env: EnvValues) -> Result<DefaultsView, FailureView> {
    let blue = env_number("DOUBLESHOT_BLUE_PORT"@, env.blue_port.deep_view(), 8081, 0xffff);
    let green = env_number("DOUBLESHOT_GREEN_PORT"@, env.green_port.deep_view(), 8082, 0xffff);
    let timeout = env_number(
        "DOUBLESHOT_HEALTH_TIMEOUT_SECONDS"@,
        env.health_timeout_seconds.deep_view(),
        120,
        u64::MAX as nat,
    );
    let interval = env_number(
        "DOUBLESHOT_HEALTH_INTERVAL_MILLIS"@,
        env.health_interval_millis.deep_view(),
        1000,
        u64::MAX as nat,
    );
    let poll = env_number(
        "DOUBLESHOT_POLL_SECONDS"@,
        env.poll_seconds.deep_view(),
        5,
        u64::MAX as nat,
    );
    let shutdown = env_number(
        "DOUBLESHOT_SHUTDOWN_TIMEOUT_SECONDS"@,
        env.shutdown_timeout_seconds.deep_view(),
        20,
        u64::MAX as nat,
    );
    match (blue, green, timeout, interval, poll, shutdown) {
        (Ok(blue), Ok(green), Ok(timeout), Ok(interval), Ok(poll), Ok(shutdown)) => Ok(
            defaults_of(env, blue, green, timeout, interval, poll, shutdown),
        ),
        (Err(failure), _, _, _, _, _) => Err(failure),
        (_, Err(failure), _, _, _, _) => Err(failure),
        (_, _, Err(failure), _, _, _) => Err(failure),
        (_, _, _, Err(failure), _, _) => Err(failure),
        (_, _, _, _, Err(failure), _) => Err(failure),
        (_, _, _, _, _, Err(failure)) => Err(failure),
    }
}

/// The number that a variable holds, or a default where it is not set.
pub fn parse_env(name: &str, value: &EnvValue, default: u64, max: u64) -> (r: Result<u64, Failure>)
    requires
        default <= max,
    ensures
        match r {
            Ok(n) => n <= max && env_number(
                name@,
                value.deep_view(),
                default as nat,
                max as nat,
            ) == Ok::<nat, FailureView>(n as nat),
            Err(failure) => env_number(name@, value.deep_view(), default as nat, max as nat)
                == Err::<nat, FailureView>(failure.deep_view()),
        },
{
    match value {
        EnvValue::Missing => Ok(default),
        EnvValue::Text(text) => match number::parse_number(text.as_str(), max) {
            Ok(n) => Ok(n),
            Err(error) => {
                let mut message = text::concat("invalid value for ", name);
                message.append(": ");
                message.append(error.message().as_str());
                Err(Failure::new(ErrorKind::InvalidInput, message))
            },
        },
        EnvValue::NotUnicode(words) => Err(Failure::new(ErrorKind::InvalidInput, words.clone())),
    }
}

fn text_env(value: &EnvValue, default: &str) -> (r: String)
    ensures
        r@ == env_text(value.deep_view(), default@),
{
    match value {
        EnvValue::Text(text) => text.clone(),
        _ => default.to_owned(),
    }
}

/// The path that a variable holds, or a default where it is not set.
pub fn path_env(value: &Option<String>, default: &str) -> (r: String)
    ensures
        r@ == env_path(value.deep_view(), default@),
{
    match value {
        Some(path) => path.clone(),
        None => default.to_owned(),
    }
}

// ---------------------------------------------------------------------------
// The configuration
// ---------------------------------------------------------------------------

/// The first of two settings that says something, else a default.
pub open spec fn chosen<T>(first: Option<T>, second: Option<T>, default: T) -> T {
    match first {
        Some(value) => value,
        None => match second {
            Some(value) => value,
            None => default,
        },
    }
}

/// What the command line, the file and the environment say together: the
/// command line comes before the file, and the file before the environment.
pub open spec fn combined(
    file: FileView,
    defaults: DefaultsView,
    overrides: OverridesView,
) -> ConfigView {
    let home = chosen(overrides.home, file.home, defaults.home);
    ConfigView {
        inbox_dir: chosen(overrides.inbox_dir, file.inbox_dir, paths::below(home, "inbox"@)),
        releases_dir: chosen(
            overrides.releases_dir,
            file.releases_dir,
            paths::below(home, "releases"@),
        ),
        runtime_dir: chosen(overrides.runtime_dir, file.runtime_dir, paths::below(home, "runtime"@)),
        slots: order::sorted(chosen(None, file.slots, defaults.slots), slots::slot_after()),
        launch: chosen(None, file.launch, defaults.launch),
        health: chosen(None, file.health, defaults.health),
        switch: chosen(None, file.switch, defaults.switch),
        poll_interval: chosen(overrides.poll_seconds, file.poll_seconds, defaults.poll_seconds),
        shutdown_timeout: chosen(
            None,
            file.shutdown_timeout_seconds,
            defaults.shutdown_timeout_seconds,
        ),
    }
}

/// Why a configuration cannot be worked with, if it cannot.
pub open spec fn objection(config: ConfigView) -> Option<FailureView> {
    if config.slots.len() == 0 {
        Some(
            FailureView {
                kind: ErrorKind::InvalidInput,
                message: "at least one deployment slot is required"@,
            },
        )
    } else if !text::contains_text(config.launch.command, "{artifact}"@) || !text::contains_text(
        config.launch.command,
        "{port}"@,
    ) {
        Some(
            FailureView {
                kind: ErrorKind::InvalidInput,
                message: "launch.command must include {artifact} and {port}"@,
            },
        )
    } else {
        None
    }
}

/// Checks that a configuration can be worked with.
pub fn validate_config(config: &AppConfig) -> (r: Result<(), Failure>)
    ensures
        match objection(config.deep_view()) {
            Some(failure) => r is Err && r->Err_0.deep_view() == failure,
            None => r is Ok,
        },
{
    assert(config.slots.deep_view().len() == config.slots.len());
    if config.slots.len() == 0 {
        return Err(
            Failure::new(
                ErrorKind::InvalidInput,
                "at least one deployment slot is required".to_owned(),
            ),
        );
    }
    if !text::contains(config.launch.command.as_str(), "{artifact}") || !text::contains(
        config.launch.command.as_str(),
        "{port}",
    ) {
        return Err(
            Failure::new(
                ErrorKind::InvalidInput,
                "launch.command must include {artifact} and {port}".to_owned(),
            ),
        );
    }
    Ok(())
}

fn choose_dir(first: &Option<String>, second: Option<String>, home: &str, name: &str) -> (r: String)
    ensures
        r@ == chosen(first.deep_view(), second.deep_view(), paths::below(home@, name@)),
{
    match first {
        Some(dir) => dir.clone(),
        None => match second {
            Some(dir) => dir,
            None => paths::join(home, name),
        },
    }
}

impl AppConfig {
    /// The defaults that the environment sets.
    pub fn from_env_defaults(env: &EnvValues) -> (r: Result<EnvDefaults, Failure>)
        ensures
            failure::outcome(r) == env_defaults(*env),
    {
        let blue_port = match parse_env("DOUBLESHOT_BLUE_PORT", &env.blue_port, 8081, 0xffff) {
            Ok(port) => port,
            Err(failure) => return Err(failure),
        };
        let green_port = match parse_env("DOUBLESHOT_GREEN_PORT", &env.green_port, 8082, 0xffff) {
            Ok(port) => port,
            Err(failure) => return Err(failure),
        };
        let timeout_seconds = match parse_env(
            "DOUBLESHOT_HEALTH_TIMEOUT_SECONDS",
            &env.health_timeout_seconds,
            120,
            u64::MAX,
        ) {
            Ok(n) => n,
            Err(failure) => return Err(failure),
        };
        let interval_millis = match parse_env(
            "DOUBLESHOT_HEALTH_INTERVAL_MILLIS",
            &env.health_interval_millis,
            1000,
            u64::MAX,
        ) {
            Ok(n) => n,
            Err(failure) => return Err(failure),
        };
        let poll_seconds = match parse_env(
            "DOUBLESHOT_POLL_SECONDS",
            &env.poll_seconds,
            5,
            u64::MAX,
        ) {
            Ok(n) => n,
            Err(failure) => return Err(failure),
        };
        let shutdown_timeout_seconds = match parse_env(
            "DOUBLESHOT_SHUTDOWN_TIMEOUT_SECONDS",
            &env.shutdown_timeout_seconds,
            20,
            u64::MAX,
        ) {
            Ok(n) => n,
            Err(failure) => return Err(failure),
        };
        let mut slots: Vec<SlotConfig> = Vec::new();
        slots.push(SlotConfig { name: "blue".to_owned(), port: blue_port as u16 });
        slots.push(SlotConfig { name: "green".to_owned(), port: green_port as u16 });
        let mut env_files: Vec<String> = Vec::new();
        if let Some(path) = &env.env_file {
            env_files.push(path.clone());
        }
        let java = text_env(&env.java, "/usr/bin/java");
        let host = text_env(&env.app_host, "127.0.0.1");
        let r = EnvDefaults {
            home: path_env(&env.home, "/opt/doubleshot"),
            slots,
            launch: LaunchConfig {
                command: text::concat(java.as_str(), " -Dserver.port={port} -jar {artifact}"),
                env_files,
            },
            health: HealthConfig::Tcp { host: host.clone(), timeout_seconds, interval_millis },
            switch: SwitchConfig::NginxProxyPassInclude {
                path: path_env(&env.nginx_proxy_pass, "/etc/nginx/doubleshot/proxy-pass.inc"),
                reload_command: text_env(&env.nginx_reload, "nginx -s reload"),
                host,
            },
            poll_seconds,
            shutdown_timeout_seconds,
        };
        proof {
            let view = defaults_of(
                *env,
                blue_port as nat,
                green_port as nat,
                timeout_seconds as nat,
                interval_millis as nat,
                poll_seconds as nat,
                shutdown_timeout_seconds as nat,
            );
            assert(r.slots.deep_view() =~= view.slots);
            assert(r.launch.env_files.deep_view() =~= view.launch.env_files);
        }
        Ok(r)
    }

    /// The configuration that the file, the environment and the command line
    /// say together, if it can be worked with.
    pub fn load(file: FileConfig, env_default: EnvDefaults, overrides: &CommonOverrides) -> (r:
        Result<AppConfig, Failure>)
        ensures
            ({
                let config = combined(
                    file.deep_view(),
                    env_default.deep_view(),
                    overrides.deep_view(),
                );
                failure::outcome(r) == match objection(config) {
                    Some(failure) => Err(failure),
                    None => Ok(config),
                }
            }),
    {
        let home = match &overrides.home {
            Some(home) => home.clone(),
            None => match file.home {
                Some(home) => home,
                None => env_default.home,
            },
        };
        let slots = match file.slots {
            Some(slots) => slots::slots_from_file(slots),
            None => env_default.slots,
        };
        let launch = match file.launch {
            Some(launch) => launch,
            None => env_default.launch,
        };
        let health = match file.health {
            Some(health) => health,
            None => env_default.health,
        };
        let switch = match file.switch {
            Some(switch) => switch,
            None => env_default.switch,
        };
        let poll_interval: u64 = match overrides.poll_seconds {
            Some(seconds) => seconds,
            None => match file.poll_seconds {
                Some(seconds) => seconds,
                None => env_default.poll_seconds,
            },
        };
        let shutdown_timeout: u64 = match file.shutdown_timeout_seconds {
            Some(seconds) => seconds,
            None => env_default.shutdown_timeout_seconds,
        };
        let config = AppConfig {
            inbox_dir: choose_dir(&overrides.inbox_dir, file.inbox_dir, home.as_str(), "inbox"),
            releases_dir: choose_dir(
                &overrides.releases_dir,
                file.releases_dir,
                home.as_str(),
                "releases",
            ),
            runtime_dir: choose_dir(
                &overrides.runtime_dir,
                file.runtime_dir,
                home.as_str(),
                "runtime",
            ),
            slots: slots::sort_slots(&slots),
            launch,
            health,
            switch,
            poll_interval,
            shutdown_timeout,
        };
        match validate_config(&config) {
            Ok(_) => Ok(config),
            Err(failure) => Err(failure),
        }
    }

    /// The file that is there while a deployment runs.
    pub fn lock_file(&self) -> (r: String)
        ensures
            r@ == paths::below(self.runtime_dir@, "deploy.lock"@),
            r@ == lock_path(self.runtime_dir@),
    {
        paths::join(self.runtime_dir.as_str(), "deploy.lock")
    }

    /// The file with the name of the slot that has the traffic.
    pub fn active_slot_file(&self) -> (r: String)
        ensures
            r@ == paths::below(self.runtime_dir@, "active-slot"@),
            r@ == active_slot_path(self.runtime_dir@),
    {
        paths::join(self.runtime_dir.as_str(), "active-slot")
    }

    /// The file with the path of the release that has the traffic.
    pub fn active_release_file(&self) -> (r: String)
        ensures
            r@ == paths::below(self.runtime_dir@, "active-release"@),
            r@ == active_release_path(self.runtime_dir@),
    {
        paths::join(self.runtime_dir.as_str(), "active-release")
    }

    /// The file with the number of the process in a slot.
    pub fn pid_file(&self, slot: &str) -> (r: String)
        ensures
            r@ == paths::below(self.runtime_dir@, slot@ + ".pid"@),
            r@ == pid_path(self.runtime_dir@, slot@),
    {
        paths::join(self.runtime_dir.as_str(), text::concat(slot, ".pid").as_str())
    }

    /// The file with what the process in a slot writes.
    pub fn log_file(&self, slot: &str) -> (r: String)
        ensures
            r@ == paths::below(self.runtime_dir@, slot@ + ".log"@),
            r@ == log_path(self.runtime_dir@, slot@),
    {
        paths::join(self.runtime_dir.as_str(), text::concat(slot, ".log").as_str())
    }

    /// The log of deployment events.
    pub fn events_file(&self) -> (r: String)
        ensures
            r@ == paths::below(self.runtime_dir@, "deployments.log"@),
            r@ == events_path(self.runtime_dir@),
    {
        paths::join(self.runtime_dir.as_str(), "deployments.log")
    }

    /// The directory for artifacts whose deployment failed.
    pub fn failed_dir(&self) -> (r: String)
        ensures
            r@ == paths::below(self.inbox_dir@, "failed"@),
            r@ == failed_path(self.inbox_dir@),
    {
        paths::join(self.inbox_dir.as_str(), "failed")
    }
}

/// The file that keeps two deployments apart.
pub open spec fn lock_path(runtime_dir: Seq<char>) -> Seq<char> {
    paths::below(runtime_dir, "deploy.lock"@)
}

/// The file with the name of the slot that has the traffic.
pub open spec fn active_slot_path(runtime_dir: Seq<char>) -> Seq<char> {
    paths::below(runtime_dir, "active-slot"@)
}

/// The file with the path of the release that has the traffic.
pub open spec fn active_release_path(runtime_dir: Seq<char>) -> Seq<char> {
    paths::below(runtime_dir, "active-release"@)
}

/// The file with the number of the process in a slot.
pub open spec fn pid_path(runtime_dir: Seq<char>, slot: Seq<char>) -> Seq<char> {
    paths::below(runtime_dir, slot + ".pid"@)
}

/// The file with what the process in a slot writes.
pub open spec fn log_path(runtime_dir: Seq<char>, slot: Seq<char>) -> Seq<char> {
    paths::below(runtime_dir, slot + ".log"@)
}

/// The log of deployment events.
pub open spec fn events_path(runtime_dir: Seq<char>) -> Seq<char> {
    paths::below(runtime_dir, "deployments.log"@)
}

/// The directory for artifacts whose deployment failed.
pub open spec fn failed_path(inbox_dir: Seq<char>) -> Seq<char> {
    paths::below(inbox_dir, "failed"@)
}

/// A configuration that was loaded has a slot, and its slots stand in the order
/// of their names.
pub proof fn loaded_slots_are_in_order(
    file: FileView,
    defaults: DefaultsView,
    overrides: OverridesView,
)
    requires
        objection(combined(file, defaults, overrides)) is None,
    ensures
        combined(file, defaults, overrides).slots.len() > 0,
        order::in_order(combined(file, defaults, overrides).slots, slots::slot_after()),
{
    slots::slot_order();
    order::sorting_puts_in_order(chosen(None, file.slots, defaults.slots), slots::slot_after());
}

/// Sorting leaves the slots of a file as they stand, as their names increase.
pub proof fn slots_of_a_file_are_kept(
    file: FileView,
    defaults: DefaultsView,
    overrides: OverridesView,
)
    requires
        file.slots matches Some(slots) && slots::increasing(slots),
    ensures
        Some(combined(file, defaults, overrides).slots) == file.slots,
{
    let s = file.slots->0;
    let after = slots::slot_after();
    slots::slot_order();
    assert forall|i: int, j: int| 0 <= i < j < s.len() implies !after(s[i], s[j]) by {
        assert(text::before(s[i].name, s[j].name));
        assert(after(s[j], s[i]));
    }
    order::sorting_keeps_order(s, after);
}

/// A starter file can be worked with, whatever the command line says.
pub proof fn starter_file_can_be_worked_with(
    blue: u16,
    green: u16,
    env_files: Seq<Seq<char>>,
    health: HealthView,
    host: Seq<char>,
    defaults: DefaultsView,
    overrides: OverridesView,
)
    ensures
        objection(
            combined(starter_file(blue, green, env_files, health, host), defaults, overrides),
        ) is None,
{
    let file = starter_file(blue, green, env_files, health, host);
    let command = "/usr/bin/java -Dserver.port={port} -jar {artifact}"@;
    reveal_strlit("/usr/bin/java -Dserver.port={port} -jar {artifact}");
    reveal_strlit("{port}");
    reveal_strlit("{artifact}");
    assert(command.subrange(28, 34) =~= "{port}"@);
    assert(text::occurs(command, "{port}"@, 28));
    assert(command.subrange(40, 50) =~= "{artifact}"@);
    assert(text::occurs(command, "{artifact}"@, 40));
    let blue_slot = SlotView { name: "blue"@, port: blue };
    let one = slots::inserted(Seq::empty(), blue_slot);
    assert(one.len() == 1);
    assert(file.slots->0.len() > 0);
    order::sorting_keeps_the_items(file.slots->0, slots::slot_after());
}

/// What the environment says alone can be worked with, whatever the command line
/// says.
pub proof fn defaults_can_be_worked_with(env: EnvValues, overrides: OverridesView)
    requires
        env_defaults(env) is Ok,
    ensures
        objection(combined(empty_file(), env_defaults(env)->Ok_0, overrides)) is None,
{
    let defaults = env_defaults(env)->Ok_0;
    let java = env_text(env.java.deep_view(), "/usr/bin/java"@);
    let ending = " -Dserver.port={port} -jar {artifact}"@;
    let command = java + ending;
    let n = java.len() as int;
    reveal_strlit(" -Dserver.port={port} -jar {artifact}");
    reveal_strlit("{port}");
    reveal_strlit("{artifact}");
    assert(command.subrange(n + 15, n + 21) =~= "{port}"@);
    assert(text::occurs(command, "{port}"@, n + 15));
    assert(command.subrange(n + 27, n + 37) =~= "{artifact}"@);
    assert(text::occurs(command, "{artifact}"@, n + 27));
    assert(defaults.launch.command == command);
    assert(defaults.slots.len() == 2);
    order::sorting_keeps_the_items(defaults.slots, slots::slot_after());
}

/// The files of two slots are different where the slots have different names
/// that do not begin with `/`.
pub proof fn slot_files_stay_apart(runtime_dir: Seq<char>, a: Seq<char>, b: Seq<char>, ending: Seq<char>)
    requires
        a != b,
        !paths::absolute(a + ending),
        !paths::absolute(b + ending),
    ensures
        paths::below(runtime_dir, a + ending) != paths::below(runtime_dir, b + ending),
{
    if a + ending == b + ending {
        assert((a + ending).len() == (b + ending).len());
        assert((a + ending).take(a.len() as int) =~= a);
        assert((b + ending).take(b.len() as int) =~= b);
    }
    paths::names_stay_apart(runtime_dir, a + ending, b + ending);
}

// ---------------------------------------------------------------------------
// Which setting counts
// ---------------------------------------------------------------------------

/// What the command line names is used, whatever the file and the environment
/// say. A directory that nobody names lies below the home that the command line
/// names.
pub proof fn command_line_comes_first(
    file: FileView,
    defaults: DefaultsView,
    overrides: OverridesView,
)
    ensures
        ({
            let config = combined(file, defaults, overrides);
            &&& overrides.inbox_dir matches Some(dir) ==> config.inbox_dir == dir
            &&& overrides.releases_dir matches Some(dir) ==> config.releases_dir == dir
            &&& overrides.runtime_dir matches Some(dir) ==> config.runtime_dir == dir
            &&& overrides.poll_seconds matches Some(seconds) ==> config.poll_interval == seconds
            &&& overrides.home matches Some(home) ==> {
                &&& overrides.inbox_dir is None && file.inbox_dir is None ==> config.inbox_dir
                    == paths::below(home, "inbox"@)
                &&& overrides.releases_dir is None && file.releases_dir is None
                    ==> config.releases_dir == paths::below(home, "releases"@)
                &&& overrides.runtime_dir is None && file.runtime_dir is None
                    ==> config.runtime_dir == paths::below(home, "runtime"@)
            }
        }),
{
}

/// What the file names is used where the command line does not name it, whatever
/// the environment says. A directory that neither names lies below the home that
/// the file names.
pub proof fn file_comes_before_the_environment(
    file: FileView,
    defaults: DefaultsView,
    overrides: OverridesView,
)
    ensures
        ({
            let config = combined(file, defaults, overrides);
            &&& overrides.inbox_dir is None ==> (file.inbox_dir matches Some(dir)
                ==> config.inbox_dir == dir)
            &&& overrides.releases_dir is None ==> (file.releases_dir matches Some(dir)
                ==> config.releases_dir == dir)
            &&& overrides.runtime_dir is None ==> (file.runtime_dir matches Some(dir)
                ==> config.runtime_dir == dir)
            &&& overrides.poll_seconds is None ==> (file.poll_seconds matches Some(seconds)
                ==> config.poll_interval == seconds)
            &&& file.launch matches Some(launch) ==> config.launch == launch
            &&& file.health matches Some(health) ==> config.health == health
            &&& file.switch matches Some(switch) ==> config.switch == switch
            &&& file.shutdown_timeout_seconds matches Some(seconds) ==> config.shutdown_timeout
                == seconds
            &&& file.slots matches Some(slots) ==> config.slots.to_multiset()
                == slots.to_multiset()
            &&& overrides.home is None ==> (file.home matches Some(home) ==> {
                &&& overrides.inbox_dir is None && file.inbox_dir is None ==> config.inbox_dir
                    == paths::below(home, "inbox"@)
                &&& overrides.releases_dir is None && file.releases_dir is None
                    ==> config.releases_dir == paths::below(home, "releases"@)
                &&& overrides.runtime_dir is None && file.runtime_dir is None
                    ==> config.runtime_dir == paths::below(home, "runtime"@)
            })
        }),
{
    if file.slots is Some {
        order::sorting_keeps_the_items(file.slots->0, slots::slot_after());
    }
}

/// What neither the command line nor the file names comes from the environment.
pub proof fn environment_fills_the_rest(
    file: FileView,
    defaults: DefaultsView,
    overrides: OverridesView,
)
    ensures
        ({
            let config = combined(file, defaults, overrides);
            &&& file.launch is None ==> config.launch == defaults.launch
            &&& file.health is None ==> config.health == defaults.health
            &&& file.switch is None ==> config.switch == defaults.switch
            &&& file.slots is None ==> config.slots.to_multiset() == defaults.slots.to_multiset()
            &&& file.shutdown_timeout_seconds is None ==> config.shutdown_timeout
                == defaults.shutdown_timeout_seconds
            &&& overrides.poll_seconds is None && file.poll_seconds is None
                ==> config.poll_interval == defaults.poll_seconds
            &&& overrides.home is None && file.home is None ==> {
                &&& overrides.inbox_dir is None && file.inbox_dir is None ==> config.inbox_dir
                    == paths::below(defaults.home, "inbox"@)
                &&& overrides.releases_dir is None && file.releases_dir is None
                    ==> config.releases_dir == paths::below(defaults.home, "releases"@)
                &&& overrides.runtime_dir is None && file.runtime_dir is None
                    ==> config.runtime_dir == paths::below(defaults.home, "runtime"@)
            }
        }),
{
    order::sorting_keeps_the_items(defaults.slots, slots::slot_after());
}

/// The environment does not matter where the file names all settings: two
/// environments give the same configuration.
pub proof fn complete_file_decides(
    file: FileView,
    defaults: DefaultsView,
    others: DefaultsView,
    overrides: OverridesView,
)
    requires
        file.home is Some,
        file.slots is Some,
        file.launch is Some,
        file.health is Some,
        file.switch is Some,
        file.poll_seconds is Some,
        file.shutdown_timeout_seconds is Some,
    ensures
        combined(file, defaults, overrides) == combined(file, others, overrides),
{
}

/// A configuration can be worked with exactly where it has a slot and its
/// command names the artifact and the port; anything else is an invalid input.
pub proof fn objections_have_a_reason(config: ConfigView)
    ensures
        objection(config) is None <==> {
            &&& config.slots.len() > 0
            &&& text::contains_text(config.launch.command, "{artifact}"@)
            &&& text::contains_text(config.launch.command, "{port}"@)
        },
        objection(config) matches Some(failure) ==> {
            &&& failure.kind == ErrorKind::InvalidInput
            &&& (failure.message == "at least one deployment slot is required"@
                <==> config.slots.len() == 0)
        },
{
    reveal_strlit("at least one deployment slot is required");
    reveal_strlit("launch.command must include {artifact} and {port}");
    assert("at least one deployment slot is required"@.len()
        != "launch.command must include {artifact} and {port}"@.len());
}

/// A configuration file that is there is used. One that is not there says
/// nothing, unless it was named; then, as with any other failure, it is the
/// failure that counts.
pub proof fn missing_file_counts_where_named(
    named: bool,
    file: FileView,
    failure: FailureView,
)
    ensures
        file_to_use(named, Ok(file)) == Ok::<FileView, FailureView>(file),
        file_to_use(true, Err(failure)) == Err::<FileView, FailureView>(failure),
        failure.kind != ErrorKind::NotFound ==> file_to_use(named, Err(failure)) == Err::<
            FileView,
            FailureView,
        >(failure),
        failure.kind == ErrorKind::NotFound ==> (file_to_use(false, Err(failure)) matches Ok(said)
            && {
            &&& said.home is None
            &&& said.inbox_dir is None
            &&& said.releases_dir is None
            &&& said.runtime_dir is None
            &&& said.poll_seconds is None
            &&& said.shutdown_timeout_seconds is None
            &&& said.slots is None
            &&& said.launch is None
            &&& said.health is None
            &&& said.switch is None
        }),
{
}

/// A variable with a number is read as this number, one that is not set gives
/// the default, and any other is refused by its name.
pub proof fn number_of_a_variable_is_read(
    name: Seq<char>,
    n: nat,
    held: Seq<char>,
    default: nat,
    max: nat,
)
    ensures
        env_number(name, EnvView::Missing, default, max) == Ok::<nat, FailureView>(default),
        n <= max ==> env_number(name, EnvView::Text(number::decimal(n)), default, max) == Ok::<
            nat,
            FailureView,
        >(n),
        env_number(name, EnvView::Text(held), default, max) matches Ok(n) ==> n <= max
            && number::read_number(held, max) == Ok::<nat, number::ParseIntError>(n),
        env_number(name, EnvView::Text(held), default, max) matches Err(failure) ==> {
            &&& failure.kind == ErrorKind::InvalidInput
            &&& text::contains_text(failure.message, name)
        },
        env_number(name, EnvView::NotUnicode(held), default, max) == Err::<nat, FailureView>(
            FailureView { kind: ErrorKind::InvalidInput, message: held },
        ),
{
    if n <= max {
        number::written_number_reads_back(n, max);
    }
    number::number_that_is_read_fits(held, max);
    if env_number(name, EnvView::Text(held), default, max) is Err {
        let behind = ": "@ + number::read_number(held, max)->Err_0.words();
        let message = env_number(name, EnvView::Text(held), default, max)->Err_0.message;
        assert(message =~= "invalid value for "@ + name + behind);
        text::text_occurs_where_it_stands("invalid value for "@, name, behind);
    }
}

/// Whether a variable holds this number.
pub open spec fn holds(value: EnvValue, n: nat) -> bool {
    value matches EnvValue::Text(text) && text@ == number::decimal(n)
}

/// Each variable that is set with a number decides the setting that it is named
/// for, and no other one does.
pub proof fn numbers_of_the_environment_count(env: EnvValues, port: u16, n: u64)
    requires
        env_defaults(env) is Ok,
    ensures
        ({
            let defaults = env_defaults(env)->Ok_0;
            &&& defaults.slots.len() == 2
            &&& defaults.slots[0].name == "blue"@
            &&& defaults.slots[1].name == "green"@
            &&& holds(env.blue_port, port as nat) ==> defaults.slots[0].port == port
            &&& env.blue_port is Missing ==> defaults.slots[0].port == 8081
            &&& holds(env.green_port, port as nat) ==> defaults.slots[1].port == port
            &&& env.green_port is Missing ==> defaults.slots[1].port == 8082
            &&& defaults.health is Tcp
            &&& holds(env.health_timeout_seconds, n as nat)
                ==> defaults.health->Tcp_timeout_seconds == n
            &&& env.health_timeout_seconds is Missing ==> defaults.health->Tcp_timeout_seconds
                == 120
            &&& holds(env.health_interval_millis, n as nat)
                ==> defaults.health->Tcp_interval_millis == n
            &&& env.health_interval_millis is Missing ==> defaults.health->Tcp_interval_millis
                == 1000
            &&& holds(env.poll_seconds, n as nat) ==> defaults.poll_seconds == n
            &&& env.poll_seconds is Missing ==> defaults.poll_seconds == 5
            &&& holds(env.shutdown_timeout_seconds, n as nat)
                ==> defaults.shutdown_timeout_seconds == n
            &&& env.shutdown_timeout_seconds is Missing ==> defaults.shutdown_timeout_seconds == 20
        }),
{
    number::written_number_reads_back(port as nat, 0xffff);
    number::written_number_reads_back(n as nat, u64::MAX as nat);
}

/// Each variable that is set with a text or a path decides the setting that it
/// is named for; where it is not, the setting has its own default.
pub proof fn texts_of_the_environment_count(env: EnvValues)
    requires
        env_defaults(env) is Ok,
    ensures
        ({
            let defaults = env_defaults(env)->Ok_0;
            &&& env.home matches Some(path) ==> defaults.home == path@
            &&& env.home is None ==> defaults.home == "/opt/doubleshot"@
            &&& env.java matches EnvValue::Text(java) ==> defaults.launch.command == java@
                + " -Dserver.port={port} -jar {artifact}"@
            &&& !(env.java is Text) ==> defaults.launch.command == "/usr/bin/java"@
                + " -Dserver.port={port} -jar {artifact}"@
            &&& env.env_file matches Some(path) ==> defaults.launch.env_files == seq![path@]
            &&& env.env_file is None ==> defaults.launch.env_files.len() == 0
            &&& env.app_host matches EnvValue::Text(host) ==> {
                &&& defaults.health->Tcp_host == host@
                &&& defaults.switch->NginxProxyPassInclude_host == host@
            }
            &&& !(env.app_host is Text) ==> {
                &&& defaults.health->Tcp_host == "127.0.0.1"@
                &&& defaults.switch->NginxProxyPassInclude_host == "127.0.0.1"@
            }
            &&& env.nginx_proxy_pass matches Some(path)
                ==> defaults.switch->NginxProxyPassInclude_path == path@
            &&& env.nginx_proxy_pass is None ==> defaults.switch->NginxProxyPassInclude_path
                == "/etc/nginx/doubleshot/proxy-pass.inc"@
            &&& env.nginx_reload matches EnvValue::Text(command)
                ==> defaults.switch->NginxProxyPassInclude_reload_command == command@
            &&& !(env.nginx_reload is Text)
                ==> defaults.switch->NginxProxyPassInclude_reload_command == "nginx -s reload"@
            &&& defaults.health is Tcp
            &&& defaults.switch is NginxProxyPassInclude
        }),
{
}

/// A starter file is used as it is: its two slots have the ports that it was made
/// with, and its health check and the host that traffic goes to are the given
/// ones.
pub proof fn starter_file_is_used_as_it_is(
    blue: u16,
    green: u16,
    env_files: Seq<Seq<char>>,
    health: HealthView,
    host: Seq<char>,
    defaults: DefaultsView,
    overrides: OverridesView,
)
    ensures
        ({
            let config = combined(
                starter_file(blue, green, env_files, health, host),
                defaults,
                overrides,
            );
            &&& config.slots.len() == 2
            &&& config.slots[0] == (SlotView { name: "blue"@, port: blue })
            &&& config.slots[1] == (SlotView { name: "green"@, port: green })
            &&& config.health == health
            &&& config.launch.command == "/usr/bin/java -Dserver.port={port} -jar {artifact}"@
            &&& config.launch.env_files == env_files
            &&& config.switch is NginxProxyPassInclude
            &&& config.switch->NginxProxyPassInclude_path
                == "/etc/nginx/doubleshot/proxy-pass.inc"@
            &&& config.switch->NginxProxyPassInclude_reload_command
                == "sudo nginx -t && sudo systemctl reload nginx"@
            &&& config.switch->NginxProxyPassInclude_host == host
            &&& overrides.poll_seconds is None ==> config.poll_interval == 5
            &&& config.shutdown_timeout == 20
            &&& overrides.home is None && overrides.inbox_dir is None ==> config.inbox_dir
                == "/opt/doubleshot/inbox"@
            &&& overrides.home is None && overrides.releases_dir is None ==> config.releases_dir
                == "/opt/doubleshot/releases"@
            &&& overrides.home is None && overrides.runtime_dir is None ==> config.runtime_dir
                == "/opt/doubleshot/runtime"@
        }),
{
    let file = starter_file(blue, green, env_files, health, host);
    let first = SlotView { name: "blue"@, port: blue };
    let second = SlotView { name: "green"@, port: green };
    reveal_strlit("blue");
    reveal_strlit("green");
    reveal_strlit("/opt/doubleshot");
    reveal_strlit("inbox");
    reveal_strlit("releases");
    reveal_strlit("runtime");
    reveal_strlit("/opt/doubleshot/inbox");
    reveal_strlit("/opt/doubleshot/releases");
    reveal_strlit("/opt/doubleshot/runtime");
    let home = "/opt/doubleshot"@;
    assert(paths::below(home, "inbox"@) =~= "/opt/doubleshot/inbox"@);
    assert(paths::below(home, "releases"@) =~= "/opt/doubleshot/releases"@);
    assert(paths::below(home, "runtime"@) =~= "/opt/doubleshot/runtime"@);
    assert("blue"@[0] != "green"@[0]);
    assert(text::before("blue"@, "green"@));
    let one = slots::inserted(Seq::empty(), first);
    assert(one =~= seq![first]);
    let two = slots::inserted(one, second);
    assert(one.last() == first);
    assert(two =~= seq![first, second]);
    assert(slots::increasing(two));
    slots_of_a_file_are_kept(file, defaults, overrides);
}

/// Whether a variable holds a text that is no number up to `max`.
pub open spec fn holds_no_number(value: EnvValue, max: nat) -> bool {
    value matches EnvValue::Text(text) && number::read_number(text@, max) is Err
}

/// Whether a variable can be read: it is not set, or it holds a number up to
/// `max`.
pub open spec fn can_be_read(value: EnvValue, max: nat) -> bool {
    value is Missing || (value matches EnvValue::Text(text) && number::read_number(
        text@,
        max,
    ) is Ok)
}

/// The environment is taken exactly where each of its numbers can be read.
pub proof fn environment_with_readable_numbers_is_taken(env: EnvValues)
    ensures
        env_defaults(env) is Ok <==> {
            &&& can_be_read(env.blue_port, 0xffff)
            &&& can_be_read(env.green_port, 0xffff)
            &&& can_be_read(env.health_timeout_seconds, u64::MAX as nat)
            &&& can_be_read(env.health_interval_millis, u64::MAX as nat)
            &&& can_be_read(env.poll_seconds, u64::MAX as nat)
            &&& can_be_read(env.shutdown_timeout_seconds, u64::MAX as nat)
        },
        env_defaults(env) matches Err(failure) ==> failure.kind == ErrorKind::InvalidInput,
{
}

/// The first variable that holds no number is named in the failure.
pub proof fn unreadable_variable_is_named(env: EnvValues)
    ensures
        ({
            let most = u64::MAX as nat;
            let failure = env_defaults(env)->Err_0;
            let ports = can_be_read(env.blue_port, 0xffff) && can_be_read(env.green_port, 0xffff);
            let times = ports && can_be_read(env.health_timeout_seconds, most) && can_be_read(
                env.health_interval_millis,
                most,
            );
            &&& holds_no_number(env.blue_port, 0xffff) ==> env_defaults(env) is Err
                && text::contains_text(failure.message, "DOUBLESHOT_BLUE_PORT"@)
            &&& can_be_read(env.blue_port, 0xffff) && holds_no_number(env.green_port, 0xffff)
                ==> env_defaults(env) is Err && text::contains_text(
                failure.message,
                "DOUBLESHOT_GREEN_PORT"@,
            )
            &&& ports && holds_no_number(env.health_timeout_seconds, most) ==> env_defaults(
                env,
            ) is Err && text::contains_text(
                failure.message,
                "DOUBLESHOT_HEALTH_TIMEOUT_SECONDS"@,
            )
            &&& ports && can_be_read(env.health_timeout_seconds, most) && holds_no_number(
                env.health_interval_millis,
                most,
            ) ==> env_defaults(env) is Err && text::contains_text(
                failure.message,
                "DOUBLESHOT_HEALTH_INTERVAL_MILLIS"@,
            )
            &&& times && holds_no_number(env.poll_seconds, most) ==> env_defaults(env) is Err
                && text::contains_text(failure.message, "DOUBLESHOT_POLL_SECONDS"@)
            &&& times && can_be_read(env.poll_seconds, most) && holds_no_number(
                env.shutdown_timeout_seconds,
                most,
            ) ==> env_defaults(env) is Err && text::contains_text(
                failure.message,
                "DOUBLESHOT_SHUTDOWN_TIMEOUT_SECONDS"@,
            )
        }),
{
    lemma_named("DOUBLESHOT_BLUE_PORT"@, env.blue_port, 8081, 0xffff);
    lemma_named("DOUBLESHOT_GREEN_PORT"@, env.green_port, 8082, 0xffff);
    let most = u64::MAX as nat;
    lemma_named("DOUBLESHOT_HEALTH_TIMEOUT_SECONDS"@, env.health_timeout_seconds, 120, most);
    lemma_named("DOUBLESHOT_HEALTH_INTERVAL_MILLIS"@, env.health_interval_millis, 1000, most);
    lemma_named("DOUBLESHOT_POLL_SECONDS"@, env.poll_seconds, 5, most);
    lemma_named("DOUBLESHOT_SHUTDOWN_TIMEOUT_SECONDS"@, env.shutdown_timeout_seconds, 20, most);
}

proof fn lemma_named(name: Seq<char>, value: EnvValue, default: nat, max: nat)
    ensures
        can_be_read(value, max) ==> env_number(name, value.deep_view(), default, max) is Ok,
        holds_no_number(value, max) ==> (env_number(
            name,
            value.deep_view(),
            default,
            max,
        ) matches Err(failure) && text::contains_text(failure.message, name)),
{
    if let EnvValue::Text(held) = value {
        number_of_a_variable_is_read(name, 0, held@, default, max);
    }
}

// ---------------------------------------------------------------------------
// The files of a deployment
// ---------------------------------------------------------------------------

/// The files that the deployments share lie in the runtime directory, under these
/// names, and the failed artifacts below the inbox.
pub proof fn shared_files_have_their_places(dir: Seq<char>)
    requires
        dir.len() > 0,
        dir.last() != '/',
    ensures
        lock_path(dir) == dir + "/deploy.lock"@,
        active_slot_path(dir) == dir + "/active-slot"@,
        active_release_path(dir) == dir + "/active-release"@,
        events_path(dir) == dir + "/deployments.log"@,
        failed_path(dir) == dir + "/failed"@,
{
    reveal_strlit("deploy.lock");
    reveal_strlit("active-slot");
    reveal_strlit("active-release");
    reveal_strlit("deployments.log");
    reveal_strlit("failed");
    reveal_strlit("/deploy.lock");
    reveal_strlit("/active-slot");
    reveal_strlit("/active-release");
    reveal_strlit("/deployments.log");
    reveal_strlit("/failed");
    assert(dir.push('/') + "deploy.lock"@ =~= dir + "/deploy.lock"@);
    assert(dir.push('/') + "active-slot"@ =~= dir + "/active-slot"@);
    assert(dir.push('/') + "active-release"@ =~= dir + "/active-release"@);
    assert(dir.push('/') + "deployments.log"@ =~= dir + "/deployments.log"@);
    assert(dir.push('/') + "failed"@ =~= dir + "/failed"@);
}

/// The files of a slot lie in the runtime directory and are named for it. Two
/// slots have different ones, and that of a process is no log.
pub proof fn slots_have_their_own_files(dir: Seq<char>, slot: Seq<char>, other: Seq<char>)
    requires
        dir.len() > 0,
        dir.last() != '/',
        slot.len() > 0 ==> slot[0] != '/',
        other.len() > 0 ==> other[0] != '/',
    ensures
        pid_path(dir, slot) == dir + "/"@ + slot + ".pid"@,
        log_path(dir, slot) == dir + "/"@ + slot + ".log"@,
        slot != other ==> pid_path(dir, slot) != pid_path(dir, other),
        slot != other ==> log_path(dir, slot) != log_path(dir, other),
        pid_path(dir, slot) != log_path(dir, other),
        pid_path(dir, slot) != lock_path(dir),
        pid_path(dir, slot) != active_slot_path(dir),
        pid_path(dir, slot) != active_release_path(dir),
        pid_path(dir, slot) != events_path(dir),
{
    reveal_strlit("/");
    reveal_strlit(".pid");
    reveal_strlit(".log");
    reveal_strlit("deploy.lock");
    reveal_strlit("active-slot");
    reveal_strlit("active-release");
    reveal_strlit("deployments.log");
    let pid = slot + ".pid"@;
    let log = other + ".log"@;
    assert(pid.last() == 'd');
    assert(log.last() == 'g');
    assert("deploy.lock"@.last() == 'k');
    assert("active-slot"@.last() == 't');
    assert("active-release"@.last() == 'e');
    assert("deployments.log"@.last() == 'g');
    if slot.len() > 0 {
        assert(pid[0] == slot[0]);
    }
    if other.len() > 0 {
        assert(log[0] == other[0]);
        assert((other + ".pid"@)[0] == other[0]);
    }
    if slot.len() > 0 {
        assert((slot + ".log"@)[0] == slot[0]);
    }
    assert(dir.push('/') + pid =~= dir + "/"@ + slot + ".pid"@);
    assert(dir.push('/') + (slot + ".log"@) =~= dir + "/"@ + slot + ".log"@);
    if slot != other {
        slot_files_stay_apart(dir, slot, other, ".pid"@);
        slot_files_stay_apart(dir, slot, other, ".log"@);
    }
    paths::names_stay_apart(dir, pid, log);
    paths::names_stay_apart(dir, pid, "deploy.lock"@);
    paths::names_stay_apart(dir, pid, "active-slot"@);
    paths::names_stay_apart(dir, pid, "active-release"@);
    paths::names_stay_apart(dir, pid, "deployments.log"@);
}

/// What was configured arrives in the configuration that is loaded: each setting
/// of the command line; each one of the file that the command line leaves open;
/// and each default that both leave open.
pub proof fn settings_arrive(
    file: FileConfig,
    defaults: EnvDefaults,
    overrides: CommonOverrides,
    config: AppConfig,
)
    requires
        config.deep_view() == combined(
            file.deep_view(),
            defaults.deep_view(),
            overrides.deep_view(),
        ),
    ensures
        overrides.inbox_dir matches Some(dir) ==> config.inbox_dir@ == dir@,
        overrides.releases_dir matches Some(dir) ==> config.releases_dir@ == dir@,
        overrides.runtime_dir matches Some(dir) ==> config.runtime_dir@ == dir@,
        overrides.poll_seconds matches Some(seconds) ==> config.poll_interval == seconds,
        overrides.inbox_dir is None ==> (file.inbox_dir matches Some(dir) ==> config.inbox_dir@
            == dir@),
        overrides.releases_dir is None ==> (file.releases_dir matches Some(dir)
            ==> config.releases_dir@ == dir@),
        overrides.runtime_dir is None ==> (file.runtime_dir matches Some(dir)
            ==> config.runtime_dir@ == dir@),
        overrides.poll_seconds is None ==> (file.poll_seconds matches Some(seconds)
            ==> config.poll_interval == seconds),
        overrides.poll_seconds is None && file.poll_seconds is None ==> config.poll_interval
            == defaults.poll_seconds,
        file.shutdown_timeout_seconds matches Some(seconds) ==> config.shutdown_timeout == seconds,
        file.shutdown_timeout_seconds is None ==> config.shutdown_timeout
            == defaults.shutdown_timeout_seconds,
        ({
            let home = match (overrides.home, file.home) {
                (Some(home), _) => home@,
                (None, Some(home)) => home@,
                (None, None) => defaults.home@,
            };
            &&& overrides.inbox_dir is None && file.inbox_dir is None ==> config.inbox_dir@
                == paths::below(home, "inbox"@)
            &&& overrides.releases_dir is None && file.releases_dir is None
                ==> config.releases_dir@ == paths::below(home, "releases"@)
            &&& overrides.runtime_dir is None && file.runtime_dir is None ==> config.runtime_dir@
                == paths::below(home, "runtime"@)
        }),
        ({
            let launch = match file.launch {
                Some(launch) => launch,
                None => defaults.launch,
            };
            &&& config.launch.command@ == launch.command@
            &&& config.launch.env_files.deep_view() == launch.env_files.deep_view()
        }),
{
}

/// The health check and the switch that were configured arrive whole in the
/// configuration that is loaded.
pub proof fn health_check_and_switch_arrive(
    file: FileConfig,
    defaults: EnvDefaults,
    overrides: CommonOverrides,
    config: AppConfig,
)
    requires
        config.deep_view() == combined(
            file.deep_view(),
            defaults.deep_view(),
            overrides.deep_view(),
        ),
    ensures
        match (
            match file.health {
                Some(health) => health,
                None => defaults.health,
            },
            config.health,
        ) {
            (
                HealthConfig::Tcp { host, timeout_seconds, interval_millis },
                HealthConfig::Tcp { host: kept, timeout_seconds: time, interval_millis: pause },
            ) => kept@ == host@ && time == timeout_seconds && pause == interval_millis,
            (
                HealthConfig::Http {
                    url,
                    method,
                    expected_status,
                    headers,
                    timeout_seconds,
                    interval_millis,
                },
                HealthConfig::Http {
                    url: kept,
                    method: verb,
                    expected_status: status,
                    headers: lines,
                    timeout_seconds: time,
                    interval_millis: pause,
                },
            ) => {
                &&& kept@ == url@
                &&& verb@ == method@
                &&& status == expected_status
                &&& lines.deep_view() == headers.deep_view()
                &&& time == timeout_seconds
                &&& pause == interval_millis
            },
            _ => false,
        },
        match (
            match file.switch {
                Some(switch) => switch,
                None => defaults.switch,
            },
            config.switch,
        ) {
            (
                SwitchConfig::NginxProxyPassInclude { path, reload_command, host },
                SwitchConfig::NginxProxyPassInclude {
                    path: kept,
                    reload_command: command,
                    host: target,
                },
            ) => kept@ == path@ && command@ == reload_command@ && target@ == host@,
        },
{
}

} // verus!
