//! The command line: what the arguments mean, and how loud the log is to
//! be.
//!
//! The arguments are read as a list of words. `--brokers` (or `-b`),
//! `--offsets-history` and `--config` each take the next word as their
//! value; `--verbose` (`-v`) and `--quiet` (`-q`) are counted. Where
//! `--brokers` or `--offsets-history` is given twice, the later value
//! stands; every `--config` is kept, in the order given. Any other word is
//! refused.

use vstd::prelude::*;
use vstd::string::StringExecFns;

verus! {

/// How many samples a partition's history keeps unless told otherwise.
pub const DEFAULT_OFFSETS_HISTORY: usize = 3600;

/// What is wrong with a command line.
#[derive(Clone, Copy, Debug, PartialEq, Eq, Structural)]
pub enum ConfigurationError {
    /// No bootstrap brokers were given, or an empty list.
    MissingBrokers,
    /// The option at this position is the last word, but needs a value.
    MissingValue(usize),
    /// The value of `--offsets-history` at this position is no decimal
    /// number, or too large a one.
    InvalidOffsetsHistory(usize),
    /// The value of `--config` at this position is not of the form
    /// `KEY:VALUE` with a key of at least one character.
    InvalidConfig(usize),
    /// The word at this position is no option.
    UnknownArgument(usize),
}

/// How loud the log is.
#[derive(Clone, Copy, Debug, PartialEq, Eq, Structural)]
pub enum LogLevel {
    Off,
    Error,
    Warn,
    Info,
    Debug,
    Trace,
}

/// What a command line says, as plain values.
#[verifier::ext_equal]
pub struct Settings {
    pub bootstrap_brokers: Seq<char>,
    pub kafka_config: Seq<(Seq<char>, Seq<char>)>,
    pub offsets_history: usize,
    pub verbose: u8,
    pub quiet: u8,
}

/// Pairs of texts as plain values.
pub open spec fn pairs(v: Seq<(String, String)>) -> Seq<(Seq<char>, Seq<char>)> {
    v.map_values(|p: (String, String)| (p.0@, p.1@))
}

/// The settings that the command line gave.
#[derive(Debug)]
pub struct Cli {
    /// The brokers to start from, as the Kafka client takes them.
    pub bootstrap_brokers: String,
    /// Further settings for the Kafka client, such as those that it needs
    /// to authenticate: keys with their values, in the order given.
    pub kafka_config: Vec<(String, String)>,
    /// How many samples each partition's history keeps.
    pub offsets_history: usize,
    /// How often more output was asked for.
    pub verbose: u8,
    /// How often less output was asked for.
    pub quiet: u8,
}

impl View for Cli {
    type V = Settings;

    open spec fn view(&self) -> Settings {
        Settings {
            bootstrap_brokers: self.bootstrap_brokers@,
            kafka_config: pairs(self.kafka_config@),
            offsets_history: self.offsets_history,
            verbose: self.verbose,
            quiet: self.quiet,
        }
    }
}

/// The log level for a verbosity: errors only at zero, one step louder for
/// each step up to everything at four, and nothing below zero.
pub open spec fn level_of(verbosity: int) -> LogLevel {
    if verbosity < 0 {
        LogLevel::Off
    } else if verbosity == 0 {
        LogLevel::Error
    } else if verbosity == 1 {
        LogLevel::Warn
    } else if verbosity == 2 {
        LogLevel::Info
    } else if verbosity == 3 {
        LogLevel::Debug
    } else {
        LogLevel::Trace
    }
}

impl Cli {
    /// How much louder than usual the log is to be: the count of `verbose`
    /// less that of `quiet`.
    pub fn verbosity_level(&self) -> (v: i16)
        ensures
            v == self.verbose - self.quiet,
    {
        self.verbose as i16 - self.quiet as i16
    }

    /// The log level that the settings ask for.
    pub fn log_level(&self) -> (level: LogLevel)
        ensures
            level == level_of(self.verbose - self.quiet),
    {
        let v = self.verbosity_level();
        if v < 0 {
            LogLevel::Off
        } else if v == 0 {
            LogLevel::Error
        } else if v == 1 {
            LogLevel::Warn
        } else if v == 2 {
            LogLevel::Info
        } else if v == 3 {
            LogLevel::Debug
        } else {
            LogLevel::Trace
        }
    }
}

/// The value of a decimal digit; `None` for any other character.
pub open spec fn digit_value(c: char) -> Option<nat> {
    if c == '0' {
        Some(0)
    } else if c == '1' {
        Some(1)
    } else if c == '2' {
        Some(2)
    } else if c == '3' {
        Some(3)
    } else if c == '4' {
        Some(4)
    } else if c == '5' {
        Some(5)
    } else if c == '6' {
        Some(6)
    } else if c == '7' {
        Some(7)
    } else if c == '8' {
        Some(8)
    } else if c == '9' {
        Some(9)
    } else {
        None
    }
}

/// The number that a text of decimal digits stands for; `None` for the
/// empty text and for one with any other character.
pub open spec fn decimal_value(s: Seq<char>) -> Option<nat>
    decreases s.len(),
{
    if s.len() == 0 {
        None
    } else if s.len() == 1 {
        digit_value(s[0])
    } else {
        match (decimal_value(s.drop_last()), digit_value(s.last())) {
            (Some(high), Some(low)) => Some(10 * high + low),
            _ => None,
        }
    }
}

/// The number that a text stands for, if it is a decimal number that a
/// `usize` holds.
pub open spec fn number(s: Seq<char>) -> Option<usize> {
    match decimal_value(s) {
        Some(v) => if v <= usize::MAX {
            Some(v as usize)
        } else {
            None
        },
        None => None,
    }
}

/// Whether the first colon of `s` stands at position `i`.
pub open spec fn first_colon_at(s: Seq<char>, i: int) -> bool {
    &&& 0 <= i < s.len()
    &&& s[i] == ':'
    &&& forall|j: int| 0 <= j < i ==> s[j] != ':'
}

/// The key and the value of a text of the form `KEY:VALUE`: what stands
/// before its first colon and what stands behind it. `None` for a text
/// without colon and for one that begins with it.
pub open spec fn pair_of(s: Seq<char>) -> Option<(Seq<char>, Seq<char>)> {
    if exists|i: int| first_colon_at(s, i) {
        let i = choose|i: int| first_colon_at(s, i);
        if i > 0 {
            Some((s.take(i), s.skip(i + 1)))
        } else {
            None
        }
    } else {
        None
    }
}

/// A count that is one higher, unless it is at its highest.
pub open spec fn bumped(count: u8) -> u8 {
    if count < u8::MAX {
        (count + 1) as u8
    } else {
        count
    }
}

/// What the words from position `i` on make of the settings `st`.
pub open spec fn scan(args: Seq<Seq<char>>, i: int, st: Settings) -> Result<
    Settings,
    ConfigurationError,
>
    decreases args.len() - i,
{
    if i < 0 || i >= args.len() {
        Ok(st)
    } else if args[i] == "--verbose"@ || args[i] == "-v"@ {
        scan(args, i + 1, Settings { verbose: bumped(st.verbose), ..st })
    } else if args[i] == "--quiet"@ || args[i] == "-q"@ {
        scan(args, i + 1, Settings { quiet: bumped(st.quiet), ..st })
    } else if args[i] == "--brokers"@ || args[i] == "-b"@ {
        if i + 1 >= args.len() {
            Err(ConfigurationError::MissingValue(i as usize))
        } else {
            scan(args, i + 2, Settings { bootstrap_brokers: args[i + 1], ..st })
        }
    } else if args[i] == "--offsets-history"@ {
        if i + 1 >= args.len() {
            Err(ConfigurationError::MissingValue(i as usize))
        } else {
            match number(args[i + 1]) {
                Some(n) => scan(args, i + 2, Settings { offsets_history: n, ..st }),
                None => Err(ConfigurationError::InvalidOffsetsHistory((i + 1) as usize)),
            }
        }
    } else if args[i] == "--config"@ {
        if i + 1 >= args.len() {
            Err(ConfigurationError::MissingValue(i as usize))
        } else {
            match pair_of(args[i + 1]) {
                Some(pair) => scan(
                    args,
                    i + 2,
                    Settings { kafka_config: st.kafka_config.push(pair), ..st },
                ),
                None => Err(ConfigurationError::InvalidConfig((i + 1) as usize)),
            }
        }
    } else {
        Err(ConfigurationError::UnknownArgument(i as usize))
    }
}

/// The settings before any word is read.
pub open spec fn defaults() -> Settings {
    Settings {
        bootstrap_brokers: Seq::empty(),
        kafka_config: Seq::empty(),
        offsets_history: DEFAULT_OFFSETS_HISTORY,
        verbose: 0,
        quiet: 0,
    }
}

/// What a command line says: the settings that its words make of the
/// defaults, if every word is understood and brokers are named.
pub open spec fn meaning(args: Seq<Seq<char>>) -> Result<Settings, ConfigurationError> {
    match scan(args, 0, defaults()) {
        Ok(st) => if st.bootstrap_brokers.len() == 0 {
            Err(ConfigurationError::MissingBrokers)
        } else {
            Ok(st)
        },
        Err(e) => Err(e),
    }
}

fn digit_of(c: char) -> (d: Option<usize>)
    ensures
        match d {
            Some(d) => digit_value(c) == Some(d as nat) && d < 10,
            None => digit_value(c) is None,
        },
{
    if c == '0' {
        Some(0)
    } else if c == '1' {
        Some(1)
    } else if c == '2' {
        Some(2)
    } else if c == '3' {
        Some(3)
    } else if c == '4' {
        Some(4)
    } else if c == '5' {
        Some(5)
    } else if c == '6' {
        Some(6)
    } else if c == '7' {
        Some(7)
    } else if c == '8' {
        Some(8)
    } else if c == '9' {
        Some(9)
    } else {
        None
    }
}

/// A text that has a value has one under each of its beginnings, and none
/// of them is larger.
proof fn lemma_value_of_prefix(s: Seq<char>, k: int)
    requires
        1 <= k <= s.len(),
        decimal_value(s) is Some,
    ensures
        decimal_value(s.take(k)) is Some,
        decimal_value(s.take(k))->0 <= decimal_value(s)->0,
    decreases s.len(),
{
    if k == s.len() {
        assert(s.take(k) =~= s);
    } else {
        assert(s.drop_last().take(k) =~= s.take(k));
        lemma_value_of_prefix(s.drop_last(), k);
    }
}

/// Reads a decimal number.
pub fn parse_number(s: &str) -> (r: Option<usize>)
    ensures
        r == number(s@),
{
    broadcast use vstd::string::group_string_axioms;

    let mut acc: usize = 0;
    let mut seen: bool = false;
    for c in it: s.chars()
        invariant
            it.seq() == s@,
            seen == (it.index() > 0),
            !seen ==> acc == 0,
            seen ==> decimal_value(s@.take(it.index() as int)) == Some(acc as nat),
    {
        let ghost k = it.index() as int;
        proof {
            let next = s@.take(k + 1);
            assert(next.drop_last() =~= s@.take(k));
            assert(next.last() == c);
            assert(next.len() == k + 1);
        }
        let d = match digit_of(c) {
            Some(d) => d,
            None => {
                proof {
                    if decimal_value(s@) is Some {
                        lemma_value_of_prefix(s@, k + 1);
                    }
                }
                return None;
            },
        };
        proof {
            let next = s@.take(k + 1);
            assert(decimal_value(next) == Some((10 * acc + d) as nat)) by {
                if k == 0 {
                    assert(next[0] == c);
                }
            }
        }
        let next = match acc.checked_mul(10) {
            Some(tens) => tens.checked_add(d),
            None => None,
        };
        match next {
            Some(n) => {
                acc = n;
            },
            None => {
                proof {
                    if decimal_value(s@) is Some {
                        lemma_value_of_prefix(s@, k + 1);
                    }
                }
                return None;
            },
        }
        seen = true;
    }
    proof {
        assert(s@.take(s@.len() as int) =~= s@);
    }
    if seen {
        Some(acc)
    } else {
        None
    }
}

/// Splits a text of the form `KEY:VALUE` at its first colon.
pub fn parse_pair(s: &str) -> (r: Option<(String, String)>)
    ensures
        match r {
            Some((key, value)) => pair_of(s@) == Some((key@, value@)),
            None => pair_of(s@) is None,
        },
{
    broadcast use vstd::string::group_string_axioms;

    let mut key = String::new();
    let mut value = String::new();
    let mut found: bool = false;
    let ghost mut at: int = 0;
    for c in it: s.chars()
        invariant
            it.seq() == s@,
            !found ==> {
                &&& key@ == s@.take(it.index() as int)
                &&& value@ == Seq::<char>::empty()
                &&& forall|j: int| 0 <= j < it.index() ==> s@[j] != ':'
            },
            found ==> {
                &&& first_colon_at(s@, at)
                &&& at < it.index()
                &&& key@ == s@.take(at)
                &&& value@ == s@.subrange(at + 1, it.index() as int)
            },
    {
        let ghost n = it.index() as int;
        if found {
            value.push(c);
            assert(value@ =~= s@.subrange(at + 1, n + 1));
        } else if c == ':' {
            found = true;
            proof {
                at = n;
                assert(value@ =~= s@.subrange(at + 1, n + 1));
            }
        } else {
            key.push(c);
            assert(key@ =~= s@.take(n + 1));
        }
    }
    proof {
        if found {
            let chosen = choose|i: int| first_colon_at(s@, i);
            assert(chosen == at) by {
                if chosen < at {
                    assert(s@[chosen] != ':');
                }
                if at < chosen {
                    assert(s@[at] != ':');
                }
            }
            assert(value@ =~= s@.skip(at + 1));
        }
    }
    if found && key.as_str().unicode_len() > 0 {
        Some((key, value))
    } else {
        None
    }
}

fn is_word(arg: &String, word: &str) -> (b: bool)
    ensures
        b == (arg@ == word@),
{
    *arg == String::from_str(word)
}

fn bump(count: u8) -> (r: u8)
    ensures
        r == bumped(count),
{
    if count < u8::MAX {
        count + 1
    } else {
        count
    }
}

/// The words of a command line as texts.
pub open spec fn words(args: Seq<String>) -> Seq<Seq<char>> {
    args.map_values(|s: String| s@)
}

/// Reads the command line and settles how loud the log is to be. The
/// caller hands in the words behind the program's name, and sets up its
/// logger with the level that comes back.
pub fn parse_cli_and_init_logging(args: &Vec<String>) -> (r: Result<
    (Cli, LogLevel),
    ConfigurationError,
>)
    ensures
        match r {
            Ok((cli, level)) => meaning(words(args@)) == Ok::<Settings, ConfigurationError>(cli@)
                && level == level_of(cli.verbose - cli.quiet),
            Err(e) => meaning(words(args@)) == Err::<Settings, ConfigurationError>(e),
        },
{
    let ghost all = words(args@);
    let mut cli = Cli {
        bootstrap_brokers: String::new(),
        kafka_config: Vec::new(),
        offsets_history: DEFAULT_OFFSETS_HISTORY,
        verbose: 0,
        quiet: 0,
    };
    assert(cli@ =~~= defaults());
    let mut i: usize = 0;
    while i < args.len()
        invariant
            i <= args.len(),
            all == words(args@),
            scan(all, 0, defaults()) == scan(all, i as int, cli@),
        decreases args.len() - i,
    {
        let arg = &args[i];
        assert(all[i as int] == arg@);
        if is_word(arg, "--verbose") || is_word(arg, "-v") {
            cli.verbose = bump(cli.verbose);
            i = i + 1;
        } else if is_word(arg, "--quiet") || is_word(arg, "-q") {
            cli.quiet = bump(cli.quiet);
            i = i + 1;
        } else if is_word(arg, "--brokers") || is_word(arg, "-b") {
            if i + 1 >= args.len() {
                return Err(ConfigurationError::MissingValue(i));
            }
            assert(all[i as int + 1] == args@[i as int + 1]@);
            cli.bootstrap_brokers = args[i + 1].clone();
            i = i + 2;
        } else if is_word(arg, "--offsets-history") {
            if i + 1 >= args.len() {
                return Err(ConfigurationError::MissingValue(i));
            }
            assert(all[i as int + 1] == args@[i as int + 1]@);
            match parse_number(args[i + 1].as_str()) {
                Some(n) => {
                    cli.offsets_history = n;
                },
                None => {
                    return Err(ConfigurationError::InvalidOffsetsHistory(i + 1));
                },
            }
            i = i + 2;
        } else if is_word(arg, "--config") {
            if i + 1 >= args.len() {
                return Err(ConfigurationError::MissingValue(i));
            }
            assert(all[i as int + 1] == args@[i as int + 1]@);
            match parse_pair(args[i + 1].as_str()) {
                Some(pair) => {
                    let ghost before = cli@;
                    let ghost given = (pair.0@, pair.1@);
                    cli.kafka_config.push(pair);
                    assert(cli@ =~~= (Settings {
                        kafka_config: before.kafka_config.push(given),
                        ..before
                    }));
                },
                None => {
                    return Err(ConfigurationError::InvalidConfig(i + 1));
                },
            }
            i = i + 2;
        } else {
            return Err(ConfigurationError::UnknownArgument(i));
        }
    }
    if cli.bootstrap_brokers.as_str().unicode_len() == 0 {
        return Err(ConfigurationError::MissingBrokers);
    }
    let level = cli.log_level();
    Ok((cli, level))
}

} // verus!
