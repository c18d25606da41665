//! How the server is configured. A value that cannot be read stops the server: a mistake
//! is seen when it is made.

use vstd::prelude::*;

use crate::auth::Auth;
use crate::landlock::FULL_ABI;
use crate::number;
use crate::number::{parse_signed, parse_unsigned};
use crate::text;
use crate::text::{chars_of, str_eq};

verus! {

/// The values of the environment that the server reads.
pub struct Env {
    /// `SBX_PORT`
    pub port: Option<String>,
    /// `SBX_TOKEN`
    pub token: Option<String>,
    /// `SBX_IDLE_TIMEOUT`
    pub idle_timeout: Option<String>,
    /// `SBX_CAPACITY`
    pub capacity: Option<String>,
    /// `SBX_HOST_MODE`
    pub host_mode: Option<String>,
    /// `SBX_MAX_CONNECTIONS`
    pub max_connections: Option<String>,
    /// `SBX_COMPAT_HOST_TOKEN`
    pub compat_host_token: Option<String>,
    /// `SBX_MIN_LANDLOCK_ABI`
    pub min_landlock_abi: Option<String>,
}

/// The configuration of the server.
pub struct Config {
    pub port: u16,
    pub auth: Auth,
    pub idle_timeout_secs: Option<u64>,
    /// The most sandboxes on a host.
    pub capacity: usize,
    pub host_mode: bool,
    pub max_connections: usize,
    pub compat_host_token: bool,
    pub allow_unconfined: bool,
    /// The ABI without which a host does not start.
    pub min_abi: i32,
}

/// Why the server does not start.
#[derive(Clone, Copy, Debug, PartialEq, Eq, Structural)]
pub enum ConfigError {
    /// A variable that holds no valid number.
    Port,
    IdleTimeout,
    Capacity,
    MaxConnections,
    MinAbi,
    /// No token, and no leave to go without one.
    NoToken,
    ZeroCapacity,
    ZeroConnections,
}

/// What a value of the environment denotes.
pub open spec fn value_of(v: Option<String>) -> Option<Seq<char>> {
    match v {
        Some(s) => Some(s@),
        None => None,
    }
}

/// The number that a variable holds; the default when it is not set, and nothing when it
/// holds none.
pub open spec fn number_in(v: Option<String>, default: nat, max: nat) -> Option<nat> {
    match v {
        None => Some(default),
        Some(raw) => number::read_unsigned(raw@, 10, max),
    }
}

/// Reads the number that a variable holds.
pub fn env_number(v: &Option<String>, default: u64, max: u64) -> (r: Option<u64>)
    ensures
        match r {
            Some(n) => number_in(*v, default as nat, max as nat) == Some(n as nat),
            None => number_in(*v, default as nat, max as nat) is None,
        },
{
    match v {
        None => Some(default),
        Some(raw) => {
            let chars = chars_of(raw.as_str());
            parse_unsigned(chars.as_slice(), 10, max)
        },
    }
}

/// The signed number that a variable holds.
pub open spec fn signed_in(v: Option<String>, default: int) -> Option<int> {
    match v {
        None => Some(default),
        Some(raw) => number::read_signed(raw@),
    }
}

fn env_signed(v: &Option<String>, default: i32) -> (r: Option<i32>)
    ensures
        match r {
            Some(n) => signed_in(*v, default as int) == Some(n as int),
            None => signed_in(*v, default as int) is None,
        },
{
    match v {
        None => Some(default),
        Some(raw) => {
            let chars = chars_of(raw.as_str());
            parse_signed(chars.as_slice())
        },
    }
}

/// Whether an argument was given.
pub open spec fn is_given(args: Seq<String>, flag: Seq<char>) -> bool {
    text::strings(args).contains(flag)
}

fn given(args: &Vec<String>, flag: &str) -> (r: bool)
    ensures
        r == is_given(args@, flag@),
{
    let ghost all = text::strings(args@);
    let mut i: usize = 0;
    while i < args.len()
        invariant
            i <= args@.len(),
            all == text::strings(args@),
            forall|j: int| 0 <= j < i ==> all[j] != flag@,
        decreases args@.len() - i,
    {
        if str_eq(args[i].as_str(), flag) {
            assert(all[i as int] == flag@);
            return true;
        }
        i += 1;
    }
    false
}

/// The token that the configuration requires: one that is empty is none.
pub open spec fn token_in(env: Env) -> Option<Seq<char>> {
    match env.token {
        Some(t) => if t@.len() > 0 {
            Some(t@)
        } else {
            None
        },
        None => None,
    }
}

/// The first thing in the configuration that stops the server.
pub open spec fn config_problem(env: Env, args: Seq<String>) -> Option<ConfigError> {
    if number_in(env.port, 8000, u16::MAX as nat) is None {
        Some(ConfigError::Port)
    } else if token_in(env) is None && !is_given(args, "--allow-no-auth"@) {
        Some(ConfigError::NoToken)
    } else if number_in(env.idle_timeout, 0, u64::MAX as nat) is None {
        Some(ConfigError::IdleTimeout)
    } else if number_in(env.capacity, 64, usize::MAX as nat) is None {
        Some(ConfigError::Capacity)
    } else if number_in(env.capacity, 64, usize::MAX as nat) == Some(0nat) {
        Some(ConfigError::ZeroCapacity)
    } else if number_in(env.max_connections, 512, usize::MAX as nat) is None {
        Some(ConfigError::MaxConnections)
    } else if number_in(env.max_connections, 512, usize::MAX as nat) == Some(0nat) {
        Some(ConfigError::ZeroConnections)
    } else if signed_in(env.min_landlock_abi, FULL_ABI as int) is None {
        Some(ConfigError::MinAbi)
    } else {
        None
    }
}

impl Config {
    /// Whether this is what the environment and the arguments say.
    pub open spec fn is_what(self, env: Env, args: Seq<String>) -> bool {
        &&& number_in(env.port, 8000, u16::MAX as nat) == Some(self.port as nat)
        &&& match self.auth {
            Auth::Required(t) => token_in(env) == Some(t@),
            Auth::DisabledForDevelopment => token_in(env) is None && is_given(
                args,
                "--allow-no-auth"@,
            ),
        }
        &&& match self.idle_timeout_secs {
            Some(n) => env.idle_timeout is Some && number_in(env.idle_timeout, 0, u64::MAX as nat)
                == Some(n as nat),
            None => env.idle_timeout is None,
        }
        &&& number_in(env.capacity, 64, usize::MAX as nat) == Some(self.capacity as nat)
        &&& self.host_mode == (value_of(env.host_mode) == Some("1"@))
        &&& number_in(env.max_connections, 512, usize::MAX as nat) == Some(
            self.max_connections as nat,
        )
        &&& self.compat_host_token == (value_of(env.compat_host_token) != Some("0"@))
        &&& self.allow_unconfined == is_given(args, "--allow-unconfined"@)
        &&& signed_in(env.min_landlock_abi, FULL_ABI as int) == Some(self.min_abi as int)
    }
}

fn holds_text(v: &Option<String>, wanted: &str) -> (r: bool)
    ensures
        r == (value_of(*v) == Some(wanted@)),
{
    match v {
        Some(s) => str_eq(s.as_str(), wanted),
        None => false,
    }
}

/// Reads the configuration out of the environment and the arguments. What takes a
/// protection away is an argument, never a variable: the user of a job controls the
/// variables, and the operator the arguments.
pub fn read_config(env: &Env, args: &Vec<String>) -> (r: Result<Config, ConfigError>)
    ensures
        match r {
            Ok(c) => config_problem(*env, args@) is None && c.is_what(*env, args@),
            Err(e) => config_problem(*env, args@) == Some(e),
        },
{
    let port: u64 = match env_number(&env.port, 8000, u16::MAX as u64) {
        Some(n) => n,
        None => return Err(ConfigError::Port),
    };
    assert(port <= u16::MAX);
    let token: Option<String> = match &env.token {
        Some(t) => if t.as_str().is_empty() {
            None
        } else {
            Some(t.clone())
        },
        None => None,
    };
    let auth = match token {
        Some(t) => Auth::Required(t),
        None => {
            if !given(args, "--allow-no-auth") {
                return Err(ConfigError::NoToken);
            }
            Auth::DisabledForDevelopment
        },
    };
    let idle: u64 = match env_number(&env.idle_timeout, 0, u64::MAX) {
        Some(n) => n,
        None => return Err(ConfigError::IdleTimeout),
    };
    let idle_timeout_secs: Option<u64> = if env.idle_timeout.is_some() {
        Some(idle)
    } else {
        None
    };
    let capacity: u64 = match env_number(&env.capacity, 64, usize::MAX as u64) {
        Some(n) => n,
        None => return Err(ConfigError::Capacity),
    };
    if capacity == 0 {
        return Err(ConfigError::ZeroCapacity);
    }
    let max_connections: u64 = match env_number(&env.max_connections, 512, usize::MAX as u64) {
        Some(n) => n,
        None => return Err(ConfigError::MaxConnections),
    };
    if max_connections == 0 {
        return Err(ConfigError::ZeroConnections);
    }
    let min_abi: i32 = match env_signed(&env.min_landlock_abi, FULL_ABI) {
        Some(n) => n,
        None => return Err(ConfigError::MinAbi),
    };
    Ok(
        Config {
            port: port as u16,
            auth,
            idle_timeout_secs,
            capacity: capacity as usize,
            host_mode: holds_text(&env.host_mode, "1"),
            max_connections: max_connections as usize,
            compat_host_token: !holds_text(&env.compat_host_token, "0"),
            allow_unconfined: given(args, "--allow-unconfined"),
            min_abi,
        },
    )
}

/// Without a token the server runs only when it was told to by name, and an empty token
/// never comes to be required.
pub proof fn law_no_token_has_to_be_asked_for(env: Env, args: Seq<String>, c: Config)
    requires
        c.is_what(env, args),
    ensures
        c.auth is DisabledForDevelopment ==> is_given(args, "--allow-no-auth"@),
        c.auth matches Auth::Required(t) ==> t@.len() > 0,
{
}

/// A variable that is not set stands for its default; one that is set has to hold a number in
/// its range, and stands for that number.
pub proof fn law_variables_hold_numbers(raw: String, n: nat, default: nat, max: nat)
    ensures
        number_in(None, default, max) == Some(default),
        raw@ == number::decimal(n) && n <= max ==> number_in(Some(raw), default, max) == Some(n),
        raw@ == number::decimal(n) && n > max ==> number_in(Some(raw), default, max) is None,
        raw@.len() == 0 ==> number_in(Some(raw), default, max) is None,
        number_in(Some(raw), default, max) == number::read_unsigned(raw@, 10, max),
        signed_in(Some(raw), default as int) == number::read_signed(raw@),
        signed_in(None, default as int) == Some(default as int),
        raw@ == number::decimal(n) && n <= 2147483647 ==> signed_in(Some(raw), default as int) == Some(
            n as int,
        ),
        raw@ == seq!['-'] + number::decimal(n) && n <= 2147483648 ==> signed_in(
            Some(raw),
            default as int,
        ) == Some(-(n as int)),
        value_of(Some(raw)) == Some(raw@),
        value_of(None) is None,
{
    number::law_numeral_reads_back(n, 10, n);
    number::law_signed_numbers_read_back(n);
    assert(number::all_digits(number::decimal(n), 10));
    assert(number::digit_worth(number::decimal(n)[0]) < 10);
}

/// What the server runs with when nothing is said but the token: port 8000, room for 64
/// sandboxes, 512 connections, one sandbox, no idle timeout, the host token accepted
/// everywhere, and the full ABI required.
pub proof fn law_defaults_of_the_configuration(env: Env, args: Seq<String>, c: Config)
    requires
        c.is_what(env, args),
    ensures
        env.port is None ==> c.port == 8000,
        env.capacity is None ==> c.capacity == 64,
        env.max_connections is None ==> c.max_connections == 512,
        env.idle_timeout is None ==> c.idle_timeout_secs is None,
        env.host_mode is None ==> !c.host_mode,
        env.compat_host_token is None ==> c.compat_host_token,
        env.min_landlock_abi is None ==> c.min_abi == 6,
        args.len() == 0 ==> !c.allow_unconfined,
{
}

/// What is set is what the server runs with.
pub proof fn law_configuration_is_what_is_set(env: Env, args: Seq<String>, c: Config, n: nat)
    requires
        c.is_what(env, args),
    ensures
        env.port matches Some(v) ==> number::read_unsigned(v@, 10, 65535) == Some(c.port as nat),
        env.capacity matches Some(v) ==> number::read_unsigned(v@, 10, usize::MAX as nat) == Some(
            c.capacity as nat,
        ),
        env.max_connections matches Some(v) ==> number::read_unsigned(v@, 10, usize::MAX as nat) == Some(
            c.max_connections as nat,
        ),
        env.min_landlock_abi matches Some(v) ==> number::read_signed(v@) == Some(c.min_abi as int),
        env.idle_timeout matches Some(v) ==> c.idle_timeout_secs is Some && number::read_unsigned(
            v@,
            10,
            u64::MAX as nat,
        ) == Some(c.idle_timeout_secs->0 as nat),
        env.port matches Some(v) ==> v@ == number::decimal(n) ==> n <= 65535 && c.port == n,
        env.capacity matches Some(v) ==> v@ == number::decimal(n) ==> c.capacity == n,
        env.max_connections matches Some(v) ==> v@ == number::decimal(n) ==> c.max_connections == n,
        env.idle_timeout matches Some(v) ==> v@ == number::decimal(n) ==> c.idle_timeout_secs is Some
            && c.idle_timeout_secs->0 == n,
        env.min_landlock_abi matches Some(v) ==> v@ == number::decimal(n) ==> c.min_abi == n,
        env.host_mode matches Some(v) ==> (c.host_mode <==> v@ == "1"@),
        env.compat_host_token matches Some(v) ==> (c.compat_host_token <==> v@ != "0"@),
        env.token matches Some(t) ==> t@.len() > 0 ==> c.auth is Required && c.auth->Required_0@ == t@,
        c.allow_unconfined <==> exists|i: int|
            0 <= i < args.len() && (#[trigger] args[i])@ == "--allow-unconfined"@,
        c.auth is DisabledForDevelopment ==> exists|i: int|
            0 <= i < args.len() && (#[trigger] args[i])@ == "--allow-no-auth"@,
{
    number::law_numeral_reads_back(n, 10, n);
    number::law_signed_numbers_read_back(n);
    assert(number::all_digits(number::decimal(n), 10));
    assert(number::digit_worth(number::decimal(n)[0]) < 10);
    lemma_given(args, "--allow-unconfined"@);
    lemma_given(args, "--allow-no-auth"@);
}

proof fn lemma_given(args: Seq<String>, flag: Seq<char>)
    ensures
        is_given(args, flag) <==> exists|i: int| 0 <= i < args.len() && (#[trigger] args[i])@ == flag,
{
    let all = text::strings(args);
    if is_given(args, flag) {
        let i = choose|i: int| 0 <= i < all.len() && all[i] == flag;
        assert(args[i]@ == flag);
    }
    if exists|i: int| 0 <= i < args.len() && (#[trigger] args[i])@ == flag {
        let i = choose|i: int| 0 <= i < args.len() && (#[trigger] args[i])@ == flag;
        assert(all[i] == flag);
    }
}

/// The server starts exactly when every variable can be read, no number of sandboxes or
/// connections is zero, and there is a token or the leave to go without one; the first thing
/// that is wrong is what is reported.
pub proof fn law_what_stops_the_server(env: Env, args: Seq<String>)
    ensures
        config_problem(env, args) is None <==> {
            &&& number_in(env.port, 8000, 65535) is Some
            &&& (env.token is Some && env.token->0@.len() > 0 || is_given(args, "--allow-no-auth"@))
            &&& number_in(env.idle_timeout, 0, u64::MAX as nat) is Some
            &&& number_in(env.capacity, 64, usize::MAX as nat) is Some
            &&& number_in(env.capacity, 64, usize::MAX as nat)->0 > 0
            &&& number_in(env.max_connections, 512, usize::MAX as nat) is Some
            &&& number_in(env.max_connections, 512, usize::MAX as nat)->0 > 0
            &&& signed_in(env.min_landlock_abi, 6) is Some
        },
        config_problem(env, args) == Some(ConfigError::Port) <==> number_in(env.port, 8000, 65535) is None,
        config_problem(env, args) == Some(ConfigError::NoToken) <==> number_in(
            env.port,
            8000,
            65535,
        ) is Some && !is_given(args, "--allow-no-auth"@) && (env.token is None || env.token->0@.len()
            == 0),
        config_problem(env, args) is Some && !(config_problem(env, args)->0 is Port || config_problem(
            env,
            args,
        )->0 is NoToken || config_problem(env, args)->0 is IdleTimeout) ==> number_in(
            env.idle_timeout,
            0,
            u64::MAX as nat,
        ) is Some,
        config_problem(env, args) == Some(ConfigError::MaxConnections) || config_problem(env, args)
            == Some(ConfigError::ZeroConnections) || config_problem(env, args) == Some(
            ConfigError::MinAbi,
        ) ==> number_in(env.capacity, 64, usize::MAX as nat) is Some && number_in(
            env.capacity,
            64,
            usize::MAX as nat,
        )->0 > 0,
        config_problem(env, args) == Some(ConfigError::MinAbi) ==> number_in(
            env.max_connections,
            512,
            usize::MAX as nat,
        ) is Some && number_in(env.max_connections, 512, usize::MAX as nat)->0 > 0,
        config_problem(env, args) == Some(ConfigError::NoToken) ==> !is_given(args, "--allow-no-auth"@)
            && (env.token is None || env.token->0@.len() == 0),
        config_problem(env, args) == Some(ConfigError::IdleTimeout) ==> number_in(
            env.idle_timeout,
            0,
            u64::MAX as nat,
        ) is None,
        config_problem(env, args) == Some(ConfigError::Capacity) ==> number_in(
            env.capacity,
            64,
            usize::MAX as nat,
        ) is None,
        config_problem(env, args) == Some(ConfigError::ZeroCapacity) ==> number_in(
            env.capacity,
            64,
            usize::MAX as nat,
        ) == Some(0nat),
        config_problem(env, args) == Some(ConfigError::MaxConnections) ==> number_in(
            env.max_connections,
            512,
            usize::MAX as nat,
        ) is None,
        config_problem(env, args) == Some(ConfigError::ZeroConnections) ==> number_in(
            env.max_connections,
            512,
            usize::MAX as nat,
        ) == Some(0nat),
        config_problem(env, args) == Some(ConfigError::MinAbi) ==> signed_in(
            env.min_landlock_abi,
            6,
        ) is None,
{
}

} // verus!
