use busyncr::scheduler::ScheduleError;
use busyncr::service::{
    handle_control, install, launch_argv, parse_interval, resolve_schedule, restart, restart_step,
    run, run_service_body, start, stop, uninstall, ControlAnswer, RestartStep, ServiceAction,
    ServiceControl, ServiceError, ServiceEvent, ServiceReport, ServiceRunArgs, ServiceState,
    RESTART_POLL_ATTEMPTS,
};
use busyncr::span::Span;
use clap::{Arg, ArgAction, ArgMatches, Command};

fn with_run_args(command: Command) -> Command {
    command
        .arg(Arg::new("config").long("config").required(true))
        .arg(Arg::new("state").long("state").required(true))
        .arg(
            Arg::new("default-chunking")
                .long("default-chunking")
                .action(ArgAction::SetTrue),
        )
        .arg(Arg::new("interval").long("interval").default_value("3h"))
        .arg(Arg::new("jitter").long("jitter").default_value("0.1"))
}

fn test_cli() -> Command {
    Command::new("busyncr-client-test").subcommand(
        Command::new("service")
            .subcommand_required(true)
            .subcommand(with_run_args(Command::new("install")))
            .subcommand(Command::new("uninstall"))
            .subcommand(Command::new("start"))
            .subcommand(Command::new("stop"))
            .subcommand(Command::new("restart"))
            .subcommand(with_run_args(Command::new("run"))),
    )
}

fn run_args(matches: &ArgMatches) -> ServiceRunArgs {
    let text = |name: &str| matches.get_one::<String>(name).unwrap().clone();
    ServiceRunArgs {
        config: text("config"),
        state: text("state"),
        default_chunking: matches.get_flag("default-chunking"),
        interval: text("interval"),
        jitter: text("jitter"),
    }
}

fn full_argv(rest: &[&str]) -> Vec<String> {
    let mut full = vec!["busyncr-client-test".to_string()];
    full.extend(rest.iter().map(|s| s.to_string()));
    full
}

fn parse_service_action(argv: &[String]) -> ServiceAction {
    let parsed = test_cli()
        .try_get_matches_from(argv)
        .expect("round-trip argv must reparse");
    let (_, service) = parsed.subcommand().unwrap();
    match service.subcommand().unwrap() {
        ("install", m) => ServiceAction::Install(run_args(m)),
        ("uninstall", _) => ServiceAction::Uninstall,
        ("start", _) => ServiceAction::Start,
        ("stop", _) => ServiceAction::Stop,
        ("restart", _) => ServiceAction::Restart,
        ("run", m) => ServiceAction::Run(run_args(m)),
        other => panic!("unexpected {other:?}"),
    }
}

#[test]
fn fr8_service_run_launch_argv_round_trips_through_clap() {
    let original = ServiceRunArgs {
        config: "/etc/busyncr/client.toml".to_string(),
        state: "/var/lib/busyncr/state".to_string(),
        default_chunking: false,
        interval: "90m".to_string(),
        jitter: "0.25".to_string(),
    };
    let mut full = full_argv(&[]);
    full.extend(launch_argv(&original));

    match parse_service_action(&full) {
        ServiceAction::Run(run_args) => assert_eq!(run_args, original),
        other => panic!("expected ServiceAction::Run, got {other:?}"),
    }
}

#[test]
fn fr8_service_run_launch_argv_round_trips_with_default_chunking_flag() {
    let original = ServiceRunArgs {
        config: "C:/ProgramData/BusyNCR/client.toml".to_string(),
        state: "C:/ProgramData/BusyNCR/state".to_string(),
        default_chunking: true,
        interval: "3h".to_string(),
        jitter: "0.1".to_string(),
    };
    let mut full = full_argv(&[]);
    full.extend(launch_argv(&original));

    match parse_service_action(&full) {
        ServiceAction::Run(run_args) => assert_eq!(run_args, original),
        other => panic!("expected ServiceAction::Run, got {other:?}"),
    }
}

#[test]
fn fr8_service_install_args_parse_independently_of_run() {
    let full = full_argv(&[
        "service",
        "install",
        "--config",
        "cfg.toml",
        "--state",
        "state-dir",
        "--interval",
        "45m",
        "--jitter",
        "0.2",
    ]);
    match parse_service_action(&full) {
        ServiceAction::Install(run_args) => {
            assert_eq!(run_args.config, "cfg.toml");
            assert_eq!(run_args.state, "state-dir");
            assert_eq!(run_args.interval, "45m");
            assert_eq!(run_args.jitter, "0.2");
            assert!(!run_args.default_chunking);
        }
        other => panic!("expected ServiceAction::Install, got {other:?}"),
    }
}

#[test]
fn fr8_service_action_no_args_subcommands_parse() {
    for verb in ["uninstall", "start", "stop", "restart"] {
        let full = full_argv(&["service", verb]);
        test_cli()
            .try_get_matches_from(&full)
            .unwrap_or_else(|e| panic!("{verb} must parse with no extra args: {e}"));
        assert!(!matches!(
            parse_service_action(&full),
            ServiceAction::Install(_) | ServiceAction::Run(_)
        ));
    }
}

#[test]
fn fr8_parse_interval_understands_suffixes_and_rejects_garbage() {
    assert_eq!(parse_interval("3h").unwrap(), Span::from_secs(3 * 3600));
    assert_eq!(parse_interval("90m").unwrap(), Span::from_secs(90 * 60));
    assert_eq!(parse_interval("5400s").unwrap(), Span::from_secs(5400));
    assert_eq!(parse_interval("120").unwrap(), Span::from_secs(120));
    assert!(parse_interval("").is_err());
    assert!(parse_interval("abc").is_err());
    assert!(matches!(
        parse_interval(""),
        Err(ServiceError::BadInterval(_))
    ));
}

#[test]
fn fr8_parse_interval_rejects_overflow() {
    let huge = format!("{}h", u64::MAX);
    assert!(matches!(
        parse_interval(&huge),
        Err(ServiceError::IntervalOverflow)
    ));
}

#[test]
fn fr8_non_windows_service_actions_fail_cleanly() {
    let args = ServiceRunArgs {
        config: "x".to_string(),
        state: "y".to_string(),
        default_chunking: false,
        interval: "3h".to_string(),
        jitter: "0.1".to_string(),
    };
    assert!(matches!(
        install(&args),
        Err(ServiceError::UnsupportedPlatform)
    ));
    assert!(matches!(
        uninstall(),
        Err(ServiceError::UnsupportedPlatform)
    ));
    assert!(matches!(start(), Err(ServiceError::UnsupportedPlatform)));
    assert!(matches!(stop(), Err(ServiceError::UnsupportedPlatform)));
    assert!(matches!(restart(), Err(ServiceError::UnsupportedPlatform)));
    assert!(matches!(run(args), Err(ServiceError::UnsupportedPlatform)));
}

#[test]
fn the_launch_arguments_in_order() {
    let args = ServiceRunArgs {
        config: "c".to_string(),
        state: "s".to_string(),
        default_chunking: true,
        interval: "1h".to_string(),
        jitter: "0".to_string(),
    };
    assert_eq!(
        launch_argv(&args),
        vec![
            "service",
            "run",
            "--config",
            "c",
            "--state",
            "s",
            "--interval",
            "1h",
            "--jitter",
            "0",
            "--default-chunking"
        ]
    );
}

#[test]
fn a_schedule_is_resolved_or_refused() {
    let policy = resolve_schedule("90m", 1, 4).unwrap();
    assert_eq!(policy.interval(), Span::from_secs(5400));
    assert_eq!(
        resolve_schedule("0", 0, 1),
        Err(ServiceError::Schedule(ScheduleError::ZeroInterval))
    );
    assert_eq!(
        resolve_schedule("1h", 5, 4),
        Err(ServiceError::Schedule(ScheduleError::JitterOutOfRange { num: 5, den: 4 }))
    );
    assert_eq!(
        resolve_schedule("soon", 0, 1),
        Err(ServiceError::BadInterval("soon".to_string()))
    );
}

#[test]
fn the_service_runs_only_once_configured() {
    assert_eq!(
        run_service_body(ServiceState::StartPending, ServiceEvent::Configured),
        ServiceReport { state: ServiceState::Running, accepts_stop: true }
    );
    assert_eq!(
        run_service_body(ServiceState::StartPending, ServiceEvent::ConfigFailed),
        ServiceReport { state: ServiceState::Stopped, accepts_stop: false }
    );
    assert_eq!(
        run_service_body(ServiceState::Running, ServiceEvent::ScheduleEnded),
        ServiceReport { state: ServiceState::Stopped, accepts_stop: false }
    );
}

#[test]
fn controls_are_answered() {
    assert_eq!(
        handle_control(ServiceControl::Interrogate),
        ControlAnswer { handled: true, stop: false }
    );
    assert_eq!(
        handle_control(ServiceControl::Stop),
        ControlAnswer { handled: true, stop: true }
    );
    assert_eq!(
        handle_control(ServiceControl::Other),
        ControlAnswer { handled: false, stop: false }
    );
}

#[test]
fn a_restart_looks_a_limited_number_of_times() {
    assert_eq!(restart_step(0, true), RestartStep::Start);
    assert_eq!(restart_step(0, false), RestartStep::LookAgain);
    assert_eq!(restart_step(RESTART_POLL_ATTEMPTS, false), RestartStep::Start);
}
