//! Command-line settings of the ticket platform demo.

use vstd::prelude::*;

use crate::text::{parse_usize, same_text, usize_value};

verus! {

/// Settings of a run.
#[derive(Debug, Clone, Copy, PartialEq, Eq, Structural)]
pub struct Settings {
    pub tickets: usize,
    pub producers: usize,
    pub orders_per_producer: usize,
    pub queue_capacity: usize,
    pub analytics_records: usize,
    pub service_delay_micros: usize,
}

pub const DEFAULT_TICKETS: usize = 100;

pub const DEFAULT_PRODUCERS: usize = 16;

pub const DEFAULT_ORDERS_PER_PRODUCER: usize = 80;

pub const DEFAULT_QUEUE_CAPACITY: usize = 32;

pub const DEFAULT_ANALYTICS_RECORDS: usize = 500_000;

pub const DEFAULT_SERVICE_DELAY_MICROS: usize = 500;

/// The settings when no option is given.
pub open spec fn default_settings() -> Settings {
    Settings {
        tickets: DEFAULT_TICKETS,
        producers: DEFAULT_PRODUCERS,
        orders_per_producer: DEFAULT_ORDERS_PER_PRODUCER,
        queue_capacity: DEFAULT_QUEUE_CAPACITY,
        analytics_records: DEFAULT_ANALYTICS_RECORDS,
        service_delay_micros: DEFAULT_SERVICE_DELAY_MICROS,
    }
}

impl Default for Settings {
    fn default() -> (s: Settings)
        ensures
            s == default_settings(),
    {
        Settings {
            tickets: DEFAULT_TICKETS,
            producers: DEFAULT_PRODUCERS,
            orders_per_producer: DEFAULT_ORDERS_PER_PRODUCER,
            queue_capacity: DEFAULT_QUEUE_CAPACITY,
            analytics_records: DEFAULT_ANALYTICS_RECORDS,
            service_delay_micros: DEFAULT_SERVICE_DELAY_MICROS,
        }
    }
}

impl Settings {
    /// Orders submitted in all: every producer submits the same number.
    pub fn total_orders(self) -> (n: usize)
        requires
            self.producers * self.orders_per_producer <= usize::MAX,
        ensures
            n == self.producers * self.orders_per_producer,
    {
        self.producers * self.orders_per_producer
    }
}

/// Which stages of the demo to run.
#[derive(Debug, Clone, Copy, PartialEq, Eq, Structural)]
pub enum Mode {
    All,
    Mpsc,
    Rayon,
}

/// The mode that `a` names, if any.
pub open spec fn mode_named(a: Seq<char>) -> Option<Mode> {
    if a == "all"@ {
        Some(Mode::All)
    } else if a == "mpsc"@ {
        Some(Mode::Mpsc)
    } else if a == "rayon"@ {
        Some(Mode::Rayon)
    } else {
        None
    }
}

impl Mode {
    /// The mode that `raw` names: `all`, `mpsc` or `rayon`.
    pub fn parse(raw: &str) -> (m: Option<Mode>)
        ensures
            m == mode_named(raw@),
    {
        if same_text(raw, "all") {
            Some(Mode::All)
        } else if same_text(raw, "mpsc") {
            Some(Mode::Mpsc)
        } else if same_text(raw, "rayon") {
            Some(Mode::Rayon)
        } else {
            None
        }
    }
}

/// The options that take a value.
#[derive(Debug, Clone, Copy, PartialEq, Eq, Structural)]
pub enum CliOption {
    Tickets,
    Producers,
    Orders,
    QueueCapacity,
    AnalyticsRecords,
    ServiceDelay,
}

/// The option that `a` names, aliases included.
pub open spec fn option_named(a: Seq<char>) -> Option<CliOption> {
    if a == "--tickets"@ {
        Some(CliOption::Tickets)
    } else if a == "--producers"@ || a == "--workers"@ {
        Some(CliOption::Producers)
    } else if a == "--orders"@ || a == "--attempts"@ {
        Some(CliOption::Orders)
    } else if a == "--queue-capacity"@ {
        Some(CliOption::QueueCapacity)
    } else if a == "--analytics-records"@ {
        Some(CliOption::AnalyticsRecords)
    } else if a == "--service-delay-us"@ {
        Some(CliOption::ServiceDelay)
    } else {
        None
    }
}

/// `a` asks for the usage text.
pub open spec fn asks_help(a: Seq<char>) -> bool {
    a == "--help"@ || a == "-h"@
}

/// The canonical name of option `o`, as messages show it.
pub open spec fn option_name(o: CliOption) -> Seq<char> {
    match o {
        CliOption::Tickets => "--tickets"@,
        CliOption::Producers => "--producers"@,
        CliOption::Orders => "--orders"@,
        CliOption::QueueCapacity => "--queue-capacity"@,
        CliOption::AnalyticsRecords => "--analytics-records"@,
        CliOption::ServiceDelay => "--service-delay-us"@,
    }
}

impl CliOption {
    /// The canonical name of the option.
    pub fn name(self) -> (n: &'static str)
        ensures
            n@ == option_name(self),
    {
        match self {
            CliOption::Tickets => "--tickets",
            CliOption::Producers => "--producers",
            CliOption::Orders => "--orders",
            CliOption::QueueCapacity => "--queue-capacity",
            CliOption::AnalyticsRecords => "--analytics-records",
            CliOption::ServiceDelay => "--service-delay-us",
        }
    }
}

/// Why the arguments were refused.
#[derive(Debug, Clone, Copy, PartialEq, Eq, Structural)]
pub enum CliError {
    /// The usage text was asked for.
    Help,
    /// The argument at this position is not an option.
    UnknownArgument(usize),
    /// The option is the last argument, with no value after it.
    MissingValue(CliOption),
    /// The value at this position, after the option, is not a `usize`.
    InvalidValue(CliOption, usize),
    /// Tickets, producers, orders and analytics records must be positive.
    NotPositive,
}

/// `s` with option `o` set to `v`.
pub open spec fn with_option(s: Settings, o: CliOption, v: usize) -> Settings {
    match o {
        CliOption::Tickets => Settings { tickets: v, ..s },
        CliOption::Producers => Settings { producers: v, ..s },
        CliOption::Orders => Settings { orders_per_producer: v, ..s },
        CliOption::QueueCapacity => Settings { queue_capacity: v, ..s },
        CliOption::AnalyticsRecords => Settings { analytics_records: v, ..s },
        CliOption::ServiceDelay => Settings { service_delay_micros: v, ..s },
    }
}

/// The settings `s` after the options from position `index` on, each followed
/// by its value, or why they are refused.
pub open spec fn scan(args: Seq<Seq<char>>, index: nat, s: Settings) -> Result<Settings, CliError>
    decreases args.len() - index,
{
    if index >= args.len() {
        Ok(s)
    } else if asks_help(args[index as int]) {
        Err(CliError::Help)
    } else {
        match option_named(args[index as int]) {
            None => Err(CliError::UnknownArgument(index as usize)),
            Some(o) => if index + 1 >= args.len() {
                Err(CliError::MissingValue(o))
            } else {
                match usize_value(args[index + 1 as int]) {
                    None => Err(CliError::InvalidValue(o, (index + 1) as usize)),
                    Some(v) => scan(args, index + 2, with_option(s, o, v)),
                }
            },
        }
    }
}

/// The counts that must not be zero are not.
pub open spec fn positive(s: Settings) -> bool {
    s.tickets != 0 && s.producers != 0 && s.orders_per_producer != 0 && s.analytics_records != 0
}

/// The texts of the arguments.
pub open spec fn texts(args: Seq<String>) -> Seq<Seq<char>> {
    args.map_values(|a: String| a@)
}

/// The mode and settings that `args` ask for: an optional mode first, then
/// options with their values over the defaults.
pub open spec fn cli_outcome(args: Seq<Seq<char>>) -> Result<(Mode, Settings), CliError> {
    let (mode, start) = if args.len() > 0 && mode_named(args[0]) is Some {
        (mode_named(args[0])->0, 1nat)
    } else {
        (Mode::All, 0nat)
    };
    match scan(args, start, default_settings()) {
        Ok(s) => if positive(s) {
            Ok((mode, s))
        } else {
            Err(CliError::NotPositive)
        },
        Err(e) => Err(e),
    }
}

/// Every option is found under its canonical name, and each documented name
/// and alias names its option.
pub proof fn lemma_option_names()
    ensures
        forall|o: CliOption| #[trigger] option_named(option_name(o)) == Some(o),
        option_named("--tickets"@) == Some(CliOption::Tickets),
        option_named("--producers"@) == Some(CliOption::Producers),
        option_named("--workers"@) == Some(CliOption::Producers),
        option_named("--orders"@) == Some(CliOption::Orders),
        option_named("--attempts"@) == Some(CliOption::Orders),
        option_named("--queue-capacity"@) == Some(CliOption::QueueCapacity),
        option_named("--analytics-records"@) == Some(CliOption::AnalyticsRecords),
        option_named("--service-delay-us"@) == Some(CliOption::ServiceDelay),
{
    reveal_strlit("--tickets");
    reveal_strlit("--producers");
    reveal_strlit("--workers");
    reveal_strlit("--orders");
    reveal_strlit("--attempts");
    reveal_strlit("--queue-capacity");
    reveal_strlit("--analytics-records");
    reveal_strlit("--service-delay-us");
    assert("--tickets"@.len() == 9);
    assert("--producers"@.len() == 11);
    assert("--workers"@.len() == 9);
    assert("--orders"@.len() == 8);
    assert("--attempts"@.len() == 10);
    assert("--queue-capacity"@.len() == 16);
    assert("--analytics-records"@.len() == 19);
    assert("--service-delay-us"@.len() == 18);
    assert("--producers"@ != "--tickets"@);
    assert("--workers"@[2] != "--tickets"@[2]);
    assert("--workers"@ != "--tickets"@);
    assert("--orders"@ != "--tickets"@);
    assert("--orders"@ != "--producers"@);
    assert("--orders"@ != "--workers"@);
    assert("--attempts"@ != "--tickets"@);
    assert("--attempts"@ != "--producers"@);
    assert("--attempts"@ != "--workers"@);
    assert("--attempts"@ != "--orders"@);
    assert("--queue-capacity"@ != "--tickets"@);
    assert("--queue-capacity"@ != "--producers"@);
    assert("--queue-capacity"@ != "--workers"@);
    assert("--queue-capacity"@ != "--orders"@);
    assert("--queue-capacity"@ != "--attempts"@);
    assert("--analytics-records"@ != "--tickets"@);
    assert("--analytics-records"@ != "--producers"@);
    assert("--analytics-records"@ != "--workers"@);
    assert("--analytics-records"@ != "--orders"@);
    assert("--analytics-records"@ != "--attempts"@);
    assert("--analytics-records"@ != "--queue-capacity"@);
    assert("--service-delay-us"@ != "--tickets"@);
    assert("--service-delay-us"@ != "--producers"@);
    assert("--service-delay-us"@ != "--workers"@);
    assert("--service-delay-us"@ != "--orders"@);
    assert("--service-delay-us"@ != "--attempts"@);
    assert("--service-delay-us"@ != "--queue-capacity"@);
    assert("--service-delay-us"@ != "--analytics-records"@);
}

/// `--producers v` alone, for a positive `v`, runs every stage with `v`
/// producers and every other setting at its default; `--workers v` does the
/// same.
pub proof fn lemma_producers_option(t: Seq<char>, v: usize)
    requires
        usize_value(t) == Some(v),
        v > 0,
    ensures
        cli_outcome(seq!["--producers"@, t]) == Ok::<(Mode, Settings), CliError>(
            (
                Mode::All,
                Settings {
                    tickets: 100,
                    producers: v,
                    orders_per_producer: 80,
                    queue_capacity: 32,
                    analytics_records: 500_000,
                    service_delay_micros: 500,
                },
            ),
        ),
        cli_outcome(seq!["--workers"@, t]) == cli_outcome(seq!["--producers"@, t]),
{
    lemma_option_names();
    reveal_strlit("--producers");
    reveal_strlit("--workers");
    reveal_strlit("all");
    reveal_strlit("mpsc");
    reveal_strlit("rayon");
    reveal_strlit("--help");
    reveal_strlit("-h");
    assert("--producers"@.len() == 11);
    assert("--workers"@.len() == 9);
    assert("all"@.len() == 3);
    assert("mpsc"@.len() == 4);
    assert("rayon"@.len() == 5);
    assert("--help"@.len() == 6);
    assert("-h"@.len() == 2);
    assert("--producers"@ != "all"@);
    assert("--producers"@ != "mpsc"@);
    assert("--producers"@ != "rayon"@);
    assert("--producers"@ != "--help"@);
    assert("--producers"@ != "-h"@);
    assert("--workers"@ != "all"@);
    assert("--workers"@ != "mpsc"@);
    assert("--workers"@ != "rayon"@);
    assert("--workers"@ != "--help"@);
    assert("--workers"@ != "-h"@);
    let p = seq!["--producers"@, t];
    let w = seq!["--workers"@, t];
    let d = default_settings();
    let s = with_option(d, CliOption::Producers, v);
    assert(p[0] == "--producers"@);
    assert(w[0] == "--workers"@);
    assert(p[1] == t);
    assert(w[1] == t);
    assert(scan(p, 2, s) == Ok::<Settings, CliError>(s));
    assert(scan(w, 2, s) == Ok::<Settings, CliError>(s));
    assert(scan(p, 0, d) == Ok::<Settings, CliError>(s));
    assert(scan(w, 0, d) == Ok::<Settings, CliError>(s));
}

/// The option that `a` names, aliases included.
fn option_for(a: &str) -> (o: Option<CliOption>)
    ensures
        o == option_named(a@),
{
    if same_text(a, "--tickets") {
        Some(CliOption::Tickets)
    } else if same_text(a, "--producers") || same_text(a, "--workers") {
        Some(CliOption::Producers)
    } else if same_text(a, "--orders") || same_text(a, "--attempts") {
        Some(CliOption::Orders)
    } else if same_text(a, "--queue-capacity") {
        Some(CliOption::QueueCapacity)
    } else if same_text(a, "--analytics-records") {
        Some(CliOption::AnalyticsRecords)
    } else if same_text(a, "--service-delay-us") {
        Some(CliOption::ServiceDelay)
    } else {
        None
    }
}

/// The value given to option `option` at position `index`: the next argument,
/// as a `usize`.
pub fn parse_usize_arg(args: &Vec<String>, index: usize, option: CliOption) -> (r: Result<
    usize,
    CliError,
>)
    requires
        index < args@.len(),
    ensures
        index + 1 >= args@.len() ==> r == Err::<usize, CliError>(CliError::MissingValue(option)),
        index + 1 < args@.len() ==> r == match usize_value(args@[index + 1]@) {
            Some(v) => Ok::<usize, CliError>(v),
            None => Err(CliError::InvalidValue(option, (index + 1) as usize)),
        },
{
    if args.len() - index < 2 {
        return Err(CliError::MissingValue(option));
    }
    match parse_usize(args[index + 1].as_str()) {
        Ok(v) => Ok(v),
        Err(_) => Err(CliError::InvalidValue(option, index + 1)),
    }
}

/// `s` with option `o` set to `v`.
fn set_option(s: Settings, o: CliOption, v: usize) -> (r: Settings)
    ensures
        r == with_option(s, o, v),
{
    let mut r = s;
    match o {
        CliOption::Tickets => r.tickets = v,
        CliOption::Producers => r.producers = v,
        CliOption::Orders => r.orders_per_producer = v,
        CliOption::QueueCapacity => r.queue_capacity = v,
        CliOption::AnalyticsRecords => r.analytics_records = v,
        CliOption::ServiceDelay => r.service_delay_micros = v,
    }
    r
}

/// The mode and settings that the command-line arguments ask for.
pub fn parse_cli(args: &Vec<String>) -> (r: Result<(Mode, Settings), CliError>)
    ensures
        r == cli_outcome(texts(args@)),
{
    let ghost ts = texts(args@);
    let mut settings = Settings::default();
    let mut mode = Mode::All;
    let mut index: usize = 0;
    if args.len() > 0 {
        match Mode::parse(args[0].as_str()) {
            Some(m) => {
                mode = m;
                index = 1;
            },
            None => {},
        }
    }
    let ghost start = index as nat;
    assert(ts.len() == args@.len());
    proof {
        if args@.len() > 0 {
            assert(ts[0] == args@[0]@);
        }
    }
    let ghost first = if ts.len() > 0 && mode_named(ts[0]) is Some {
        (mode_named(ts[0])->0, 1nat)
    } else {
        (Mode::All, 0nat)
    };
    assert(first == (mode, start));
    while index < args.len()
        invariant
            ts == texts(args@),
            ts.len() == args@.len(),
            index <= args@.len(),
            scan(ts, start, default_settings()) == scan(ts, index as nat, settings),
            first == (mode, start),
            first == (if ts.len() > 0 && mode_named(ts[0]) is Some {
                (mode_named(ts[0])->0, 1nat)
            } else {
                (Mode::All, 0nat)
            }),
        decreases args.len() - index,
    {
        let a = args[index].as_str();
        assert(ts[index as int] == a@);
        if same_text(a, "--help") || same_text(a, "-h") {
            return Err(CliError::Help);
        }
        match option_for(a) {
            None => {
                return Err(CliError::UnknownArgument(index));
            },
            Some(o) => {
                if index + 1 < args.len() {
                    assert(ts[index + 1] == args@[index + 1]@);
                }
                let v = parse_usize_arg(args, index, o)?;
                settings = set_option(settings, o, v);
                index = index + 2;
            },
        }
    }
    if settings.tickets == 0 || settings.producers == 0 || settings.orders_per_producer == 0
        || settings.analytics_records == 0 {
        return Err(CliError::NotPositive);
    }
    Ok((mode, settings))
}

} // verus!
