use ceph_long_request_watcher::options::{
    parse_option, Argument, Flag, OptionError, Settings, Stop,
};

type Given = Argument<f32, String, String>;

fn settings() -> Settings<f32, String, String> {
    Settings {
        interval: 5.0,
        metrics: "0.0.0.0:8080".to_owned(),
        debugfs: "/sys/kernel/debug".to_owned(),
        no_ceph_ok: false,
    }
}

fn refused(argument: Given) -> Stop {
    match settings().apply(argument) {
        Ok(_) => panic!("taken up"),
        Err(stop) => stop,
    }
}

#[test]
fn flags_are_known_by_their_names() {
    for flag in [Flag::Help, Flag::Interval, Flag::Metrics, Flag::Debugfs, Flag::NoCephOk] {
        assert_eq!(Flag::parse(flag.name()), Some(flag));
    }
    for other in ["", "--", "-h", "--Help", "--help ", "--interval=5", "ceph"] {
        assert_eq!(Flag::parse(other), None);
    }
}

#[test]
fn option_values() {
    assert_eq!(parse_option(Some(Some(2.5f32))), Ok(2.5));
    assert_eq!(parse_option::<f32>(Some(None)), Err(OptionError::Invalid));
    assert_eq!(parse_option::<f32>(None), Err(OptionError::Missing));
}

#[test]
fn arguments_change_one_setting() {
    let s = settings().apply(Given::Interval(Some(Some(1.5)))).ok().unwrap();
    assert_eq!((s.interval, s.no_ceph_ok), (1.5, false));
    let s = s.apply(Given::Metrics(Some(Some("[::]:1".to_owned())))).ok().unwrap();
    let s = s.apply(Given::Debugfs(Some("/debug".to_owned()))).ok().unwrap();
    let s = s.apply(Given::NoCephOk).ok().unwrap();
    let s = s.apply(Given::Interval(Some(Some(3.0)))).ok().unwrap();
    assert_eq!(s.interval, 3.0);
    assert_eq!(s.metrics, "[::]:1");
    assert_eq!(s.debugfs, "/debug");
    assert!(s.no_ceph_ok);
}

#[test]
fn arguments_that_stop_the_program() {
    let cases = [
        (Given::Help, None, 0, true),
        (Given::Interval(None), Some("Missing value for --interval"), 2, false),
        (Given::Interval(Some(None)), Some("Invalid value for --interval"), 2, false),
        (Given::Metrics(None), Some("Missing value for --metrics"), 2, false),
        (Given::Metrics(Some(None)), Some("Invalid value for --metrics"), 2, false),
        (Given::Debugfs(None), Some("Missing argument"), 2, false),
        (Given::Unknown, Some("Too many arguments"), 2, true),
    ];
    for (argument, message, status, usage) in cases {
        let stop = refused(argument);
        assert_eq!(stop.message(), message.map(|m| m.to_owned()));
        assert_eq!(stop.exit_status(), status);
        assert_eq!(stop.shows_usage(), usage);
    }
}
