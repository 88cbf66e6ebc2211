//! The options that the watcher is started with.

use vstd::prelude::*;
use vstd::string::StringExecFns;

verus! {

/// What an argument asks for.
#[derive(Debug, Clone, Copy, PartialEq, Eq)]
pub enum Flag {
    /// To show how the program is used.
    Help,
    /// To set the time between updates, which follows.
    Interval,
    /// To set the address for metrics, which follows.
    Metrics,
    /// To set the place of the debug filesystem, which follows.
    Debugfs,
    /// To put up with there being no clients at all.
    NoCephOk,
}

impl Flag {
    /// How the flag is written.
    pub open spec fn spelling(self) -> Seq<char> {
        match self {
            Flag::Help => "--help"@,
            Flag::Interval => "--interval"@,
            Flag::Metrics => "--metrics"@,
            Flag::Debugfs => "--debugfs"@,
            Flag::NoCephOk => "--no-ceph-ok"@,
        }
    }

    /// How the flag is written.
    pub fn name(self) -> (name: &'static str)
        ensures
            name@ == self.spelling(),
    {
        match self {
            Flag::Help => "--help",
            Flag::Interval => "--interval",
            Flag::Metrics => "--metrics",
            Flag::Debugfs => "--debugfs",
            Flag::NoCephOk => "--no-ceph-ok",
        }
    }

    /// The flag that an argument is, if it is one.
    pub fn parse(argument: &str) -> (flag: Option<Flag>)
        ensures
            match flag {
                Some(flag) => argument@ == flag.spelling(),
                None => forall|flag: Flag| argument@ != #[trigger] flag.spelling(),
            },
    {
        let argument: String = argument.to_owned();
        if argument == "--help".to_owned() {
            Some(Flag::Help)
        } else if argument == "--interval".to_owned() {
            Some(Flag::Interval)
        } else if argument == "--metrics".to_owned() {
            Some(Flag::Metrics)
        } else if argument == "--debugfs".to_owned() {
            Some(Flag::Debugfs)
        } else if argument == "--no-ceph-ok".to_owned() {
            Some(Flag::NoCephOk)
        } else {
            None
        }
    }
}

/// No argument is two flags.
pub proof fn law_flags_differ(a: Flag, b: Flag)
    ensures
        a.spelling() == b.spelling() ==> a == b,
{
    reveal_strlit("--help");
    reveal_strlit("--interval");
    reveal_strlit("--metrics");
    reveal_strlit("--debugfs");
    reveal_strlit("--no-ceph-ok");
    assert(Flag::Help.spelling()[2] == 'h');
    assert(Flag::Interval.spelling()[2] == 'i');
    assert(Flag::Metrics.spelling()[2] == 'm');
    assert(Flag::Debugfs.spelling()[2] == 'd');
    assert(Flag::NoCephOk.spelling()[2] == 'n');
}

/// The flags are written like this.
pub proof fn law_flag_spellings(flag: Flag)
    ensures
        flag is Help <==> flag.spelling() == "--help"@,
        flag is Interval <==> flag.spelling() == "--interval"@,
        flag is Metrics <==> flag.spelling() == "--metrics"@,
        flag is Debugfs <==> flag.spelling() == "--debugfs"@,
        flag is NoCephOk <==> flag.spelling() == "--no-ceph-ok"@,
{
    law_flags_differ(flag, Flag::Help);
    law_flags_differ(flag, Flag::Interval);
    law_flags_differ(flag, Flag::Metrics);
    law_flags_differ(flag, Flag::Debugfs);
    law_flags_differ(flag, Flag::NoCephOk);
}

/// What is wrong with the value of an option.
#[derive(Debug, Clone, Copy, PartialEq, Eq)]
pub enum OptionError {
    /// There is none.
    Missing,
    /// It cannot be used.
    Invalid,
}

impl OptionError {
    /// The sentence that describes the error in the value of `flag`.
    pub open spec fn text(self, flag: Seq<char>) -> Seq<char> {
        match self {
            OptionError::Missing => "Missing value for "@ + flag,
            OptionError::Invalid => "Invalid value for "@ + flag,
        }
    }

    /// The sentence that describes the error in the value of `flag`.
    pub fn message(self, flag: &str) -> (message: String)
        ensures
            message@ == self.text(flag@),
    {
        match self {
            OptionError::Missing => "Missing value for ".to_owned().concat(flag),
            OptionError::Invalid => "Invalid value for ".to_owned().concat(flag),
        }
    }
}

/// The sentence about a value ends with the flag, and tells a missing value from one that cannot
/// be used.
pub proof fn law_option_error_text(error: OptionError, flag: Seq<char>)
    ensures
        error.text(flag).len() == 18 + flag.len(),
        error.text(flag).skip(18) == flag,
        error is Missing <==> error.text(flag).take(18) == "Missing value for "@,
        error is Invalid <==> error.text(flag).take(18) == "Invalid value for "@,
{
    reveal_strlit("Missing value for ");
    reveal_strlit("Invalid value for ");
    assert(error.text(flag).skip(18) =~= flag);
    assert("Missing value for "@[0] != "Invalid value for "@[0]);
    if error is Missing {
        assert(error.text(flag).take(18) =~= "Missing value for "@);
    } else {
        assert(error.text(flag).take(18) =~= "Invalid value for "@);
    }
}

/// The value of an option.
///
/// `opt` is the argument that follows the option, if there is one, and of that what it stands
/// for, if it can be understood.
pub fn parse_option<R>(opt: Option<Option<R>>) -> (value: Result<R, OptionError>)
    ensures
        value == match opt {
            None => Err::<R, OptionError>(OptionError::Missing),
            Some(None) => Err::<R, OptionError>(OptionError::Invalid),
            Some(Some(value)) => Ok::<R, OptionError>(value),
        },
{
    match opt {
        None => Err(OptionError::Missing),
        Some(None) => Err(OptionError::Invalid),
        Some(Some(value)) => Ok(value),
    }
}

/// What the watcher is to do: the time between updates, the address for metrics, the place of the
/// debug filesystem, and whether there may be no clients at all.
pub struct Settings<I, M, D> {
    pub interval: I,
    pub metrics: M,
    pub debugfs: D,
    pub no_ceph_ok: bool,
}

/// An argument, together with the one that follows it where it has a value.
pub enum Argument<I, M, D> {
    Help,
    Interval(Option<Option<I>>),
    Metrics(Option<Option<M>>),
    Debugfs(Option<D>),
    NoCephOk,
    Unknown,
}

/// Why the watcher is not to start.
#[derive(Debug, Clone, Copy, PartialEq, Eq)]
pub enum Stop {
    /// It was asked how it is used.
    Help,
    /// An option has no good value.
    Value(Flag, OptionError),
    /// The place of the debug filesystem is not given.
    MissingArgument,
    /// There is an argument that means nothing.
    TooManyArguments,
}

impl Stop {
    /// The status that the program ends with.
    pub open spec fn status(self) -> i32 {
        if self is Help {
            0
        } else {
            2
        }
    }

    /// The status that the program ends with.
    pub fn exit_status(self) -> (status: i32)
        ensures
            status == self.status(),
    {
        match self {
            Stop::Help => 0,
            _ => 2,
        }
    }

    /// The sentence that says what is wrong, if anything is.
    pub open spec fn text(self) -> Option<Seq<char>> {
        match self {
            Stop::Help => None,
            Stop::Value(flag, error) => Some(error.text(flag.spelling())),
            Stop::MissingArgument => Some("Missing argument"@),
            Stop::TooManyArguments => Some("Too many arguments"@),
        }
    }

    /// The sentence that says what is wrong, if anything is.
    pub fn message(self) -> (message: Option<String>)
        ensures
            match self.text() {
                Some(text) => message is Some && message->0@ == text,
                None => message is None,
            },
    {
        match self {
            Stop::Help => None,
            Stop::Value(flag, error) => Some(error.message(flag.name())),
            Stop::MissingArgument => Some("Missing argument".to_owned()),
            Stop::TooManyArguments => Some("Too many arguments".to_owned()),
        }
    }

    /// Whether it is to be shown how the program is used.
    pub fn shows_usage(self) -> (shows: bool)
        ensures
            shows == (self is Help || self is TooManyArguments),
    {
        match self {
            Stop::Help => true,
            Stop::TooManyArguments => true,
            _ => false,
        }
    }
}

impl<I, M, D> Settings<I, M, D> {
    /// The settings after one more argument.
    pub open spec fn with(self, argument: Argument<I, M, D>) -> Result<Self, Stop> {
        match argument {
            Argument::Help => Err(Stop::Help),
            Argument::Interval(Some(Some(interval))) => Ok(Settings { interval, ..self }),
            Argument::Interval(Some(None)) => Err(
                Stop::Value(Flag::Interval, OptionError::Invalid),
            ),
            Argument::Interval(None) => Err(Stop::Value(Flag::Interval, OptionError::Missing)),
            Argument::Metrics(Some(Some(metrics))) => Ok(Settings { metrics, ..self }),
            Argument::Metrics(Some(None)) => Err(
                Stop::Value(Flag::Metrics, OptionError::Invalid),
            ),
            Argument::Metrics(None) => Err(Stop::Value(Flag::Metrics, OptionError::Missing)),
            Argument::Debugfs(Some(debugfs)) => Ok(Settings { debugfs, ..self }),
            Argument::Debugfs(None) => Err(Stop::MissingArgument),
            Argument::NoCephOk => Ok(Settings { no_ceph_ok: true, ..self }),
            Argument::Unknown => Err(Stop::TooManyArguments),
        }
    }

    /// Takes up one more argument.
    pub fn apply(self, argument: Argument<I, M, D>) -> (settings: Result<Self, Stop>)
        ensures
            settings == self.with(argument),
    {
        match argument {
            Argument::Help => Err(Stop::Help),
            Argument::Interval(opt) => match parse_option(opt) {
                Ok(interval) => Ok(Settings { interval, ..self }),
                Err(error) => Err(Stop::Value(Flag::Interval, error)),
            },
            Argument::Metrics(opt) => match parse_option(opt) {
                Ok(metrics) => Ok(Settings { metrics, ..self }),
                Err(error) => Err(Stop::Value(Flag::Metrics, error)),
            },
            Argument::Debugfs(opt) => match opt {
                Some(debugfs) => Ok(Settings { debugfs, ..self }),
                None => Err(Stop::MissingArgument),
            },
            Argument::NoCephOk => Ok(Settings { no_ceph_ok: true, ..self }),
            Argument::Unknown => Err(Stop::TooManyArguments),
        }
    }
}

/// The program ends well only where it was asked how it is used. Otherwise it ends with 2, and a
/// sentence says what is wrong: of a value, which error in the value of which flag.
pub proof fn law_stop(stop: Stop)
    ensures
        stop is Help <==> stop.status() == 0,
        stop !is Help <==> stop.status() == 2,
        stop is Help <==> stop.text() is None,
        stop is MissingArgument ==> stop.text() == Some("Missing argument"@),
        stop is TooManyArguments ==> stop.text() == Some("Too many arguments"@),
        stop is Value ==> stop.text() == Some(stop->Value_1.text(stop->Value_0.spelling())),
{
}

/// An argument that is taken up changes no setting but its own, and that to its value. Nothing
/// takes back that there may be no clients.
pub proof fn law_argument_sets_its_own<I, M, D>(
    settings: Settings<I, M, D>,
    argument: Argument<I, M, D>,
)
    requires
        settings.with(argument) is Ok,
    ensures
        ({
            let after = settings.with(argument)->Ok_0;
            &&& argument !is Interval ==> after.interval == settings.interval
            &&& argument !is Metrics ==> after.metrics == settings.metrics
            &&& argument !is Debugfs ==> after.debugfs == settings.debugfs
            &&& argument is Interval ==> argument->Interval_0 == Some(Some(after.interval))
            &&& argument is Metrics ==> argument->Metrics_0 == Some(Some(after.metrics))
            &&& argument is Debugfs ==> argument->Debugfs_0 == Some(after.debugfs)
            &&& after.no_ceph_ok <==> settings.no_ceph_ok || argument is NoCephOk
        }),
{
}

/// Whether an argument is taken up, and why not, depends on the argument alone: a value must be
/// there and must be usable, and the argument must mean something other than a call for help.
pub proof fn law_argument_refused<I, M, D>(
    settings: Settings<I, M, D>,
    argument: Argument<I, M, D>,
)
    ensures
        argument is Help <==> settings.with(argument) == Err::<Settings<I, M, D>, _>(Stop::Help),
        argument is Unknown <==> settings.with(argument) == Err::<Settings<I, M, D>, _>(
            Stop::TooManyArguments,
        ),
        argument is Debugfs && argument->Debugfs_0 is None <==> settings.with(argument) == Err::<
            Settings<I, M, D>,
            _,
        >(Stop::MissingArgument),
        argument is Interval && argument->Interval_0 is None <==> settings.with(argument)
            == Err::<Settings<I, M, D>, _>(Stop::Value(Flag::Interval, OptionError::Missing)),
        argument is Interval && argument->Interval_0 == Some(None::<I>) <==> settings.with(argument)
            == Err::<Settings<I, M, D>, _>(Stop::Value(Flag::Interval, OptionError::Invalid)),
        argument is Metrics && argument->Metrics_0 is None <==> settings.with(argument) == Err::<
            Settings<I, M, D>,
            _,
        >(Stop::Value(Flag::Metrics, OptionError::Missing)),
        argument is Metrics && argument->Metrics_0 == Some(None::<M>) <==> settings.with(argument)
            == Err::<Settings<I, M, D>, _>(Stop::Value(Flag::Metrics, OptionError::Invalid)),
        settings.with(argument) is Ok <==> {
            ||| argument is NoCephOk
            ||| argument is Debugfs && argument->Debugfs_0 is Some
            ||| argument is Interval && argument->Interval_0 is Some
                && argument->Interval_0->0 is Some
            ||| argument is Metrics && argument->Metrics_0 is Some && argument->Metrics_0->0 is Some
        },
{
}

/// Arguments for different settings can be given in any order.
pub proof fn law_arguments_commute<I, M, D>(
    settings: Settings<I, M, D>,
    a: Argument<I, M, D>,
    b: Argument<I, M, D>,
)
    requires
        settings.with(a) is Ok,
        settings.with(b) is Ok,
        !(a is Interval && b is Interval),
        !(a is Metrics && b is Metrics),
        !(a is Debugfs && b is Debugfs),
    ensures
        settings.with(a)->Ok_0.with(b) is Ok,
        settings.with(a)->Ok_0.with(b) == settings.with(b)->Ok_0.with(a),
{
}

/// Of two values for one setting, the later counts.
pub proof fn law_later_value_counts<I, M, D>(
    settings: Settings<I, M, D>,
    a: Argument<I, M, D>,
    b: Argument<I, M, D>,
)
    requires
        settings.with(a) is Ok,
        settings.with(b) is Ok,
        a is Interval && b is Interval || a is Metrics && b is Metrics || a is Debugfs
            && b is Debugfs || a is NoCephOk && b is NoCephOk,
    ensures
        settings.with(a)->Ok_0.with(b) == settings.with(b),
{
}

} // verus!
