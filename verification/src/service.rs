//! The client as a system service: what it is launched with, and what it
//! reports while it runs.
use vstd::prelude::*;
use vstd::string::*;

use crate::restore::text_views;
use crate::scheduler::{ScheduleError, SchedulePolicy};
use crate::span::Span;
use crate::units::{parse_seconds_text, seconds_in_text, UnitFault};

verus! {

/// The name that the service is registered under.
pub const SERVICE_NAME: &'static str = "BusyNCRClient";

/// The name that people see.
pub const SERVICE_DISPLAY_NAME: &'static str = "BusyNCR Backup Client";

/// How often a restart looks whether the service has stopped.
pub const RESTART_POLL_ATTEMPTS: u32 = 30;

/// Errors of the service.
#[derive(Debug, Clone, PartialEq, Eq)]
pub enum ServiceError {
    /// This build manages no services.
    UnsupportedPlatform,
    /// The service was dispatched without arguments.
    NotConfigured,
    /// The interval is not an interval.
    BadInterval(String),
    /// The interval is too long.
    IntervalOverflow,
    /// Interval and jitter are not a schedule.
    Schedule(ScheduleError),
}

/// What the service runs with.
#[derive(Debug, Clone, PartialEq, Eq)]
pub struct ServiceRunArgs {
    /// The configuration file.
    pub config: String,
    /// The state directory.
    pub state: String,
    /// Whether the default chunk size is accepted.
    pub default_chunking: bool,
    /// The interval, such as `3h`.
    pub interval: String,
    /// The jitter, such as `0.1`.
    pub jitter: String,
}

/// The arguments that give the settings back when they are parsed.
pub open spec fn args_of(a: ServiceRunArgs) -> Seq<Seq<char>> {
    let fixed = seq![
        "--config"@,
        a.config@,
        "--state"@,
        a.state@,
        "--interval"@,
        a.interval@,
        "--jitter"@,
        a.jitter@,
    ];
    if a.default_chunking {
        fixed.push("--default-chunking"@)
    } else {
        fixed
    }
}

impl ServiceRunArgs {
    /// The arguments that give the settings back when they are parsed.
    #[must_use]
    pub fn to_args(&self) -> (r: Vec<String>)
        ensures
            text_views(r@) == args_of(*self),
    {
        let mut out: Vec<String> = Vec::new();
        out.push("--config".to_owned());
        out.push(self.config.clone());
        out.push("--state".to_owned());
        out.push(self.state.clone());
        out.push("--interval".to_owned());
        out.push(self.interval.clone());
        out.push("--jitter".to_owned());
        out.push(self.jitter.clone());
        if self.default_chunking {
            out.push("--default-chunking".to_owned());
        }
        proof {
            assert(text_views(out@) =~= args_of(*self));
        }
        out
    }
}

/// What the service is launched with: `service run` and its settings.
#[must_use]
pub fn launch_argv(run_args: &ServiceRunArgs) -> (r: Vec<String>)
    ensures
        text_views(r@) == seq!["service"@, "run"@] + args_of(*run_args),
{
    let mut out: Vec<String> = Vec::new();
    out.push("service".to_owned());
    out.push("run".to_owned());
    let args: Vec<String> = run_args.to_args();
    let mut i: usize = 0;
    while i < args.len()
        invariant
            i <= args@.len(),
            out@.len() == 2 + i,
            out@[0]@ == "service"@,
            out@[1]@ == "run"@,
            forall|k: int| #![trigger args@[k]] 0 <= k < i ==> out@[2 + k]@ == args@[k]@,
        decreases args@.len() - i,
    {
        let ghost before = out@;
        out.push(args[i].clone());
        proof {
            assert forall|k: int| #![trigger args@[k]] 0 <= k < i + 1 implies out@[2 + k]@
                == args@[k]@ by {
                if k < i {
                    assert(out@[2 + k] == before[2 + k]);
                }
            }
        }
        i = i + 1;
    }
    proof {
        let views = text_views(args@);
        assert forall|k: int| 0 <= k < out@.len() implies text_views(out@)[k] == (seq![
            "service"@,
            "run"@,
        ] + args_of(*run_args))[k] by {
            if k >= 2 {
                assert(views[k - 2] == args@[k - 2]@);
            }
        }
        assert(text_views(out@) =~= seq!["service"@, "run"@] + args_of(*run_args));
    }
    out
}

/// What the operator asks of the service.
#[derive(Debug, Clone, PartialEq, Eq)]
pub enum ServiceAction {
    /// Register it.
    Install(ServiceRunArgs),
    /// Remove it.
    Uninstall,
    /// Start it.
    Start,
    /// Stop it.
    Stop,
    /// Stop it and start it again.
    Restart,
    /// Be it.
    Run(ServiceRunArgs),
}

/// Parses an interval such as `3h`, `90m`, `5400s` or `5400`.
pub fn parse_interval(s: &str) -> (r: Result<Span, ServiceError>)
    ensures
        match seconds_in_text(s@) {
            Ok(secs) => r matches Ok(span) && span.nanos == secs * 1_000_000_000,
            Err(UnitFault::Overflow) => r matches Err(e) && e is IntervalOverflow,
            Err(_) => r matches Err(ServiceError::BadInterval(t)) && t@ == s@,
        },
        r matches Ok(span) ==> span.nanos <= crate::span::SPAN_MAX_NANOS,
{
    match parse_seconds_text(s) {
        Ok(secs) => Ok(Span::from_secs(secs)),
        Err(UnitFault::Overflow) => Err(ServiceError::IntervalOverflow),
        Err(_) => Err(ServiceError::BadInterval(s.to_owned())),
    }
}

/// The schedule that the service runs on.
pub fn resolve_schedule(interval: &str, jitter_num: i64, jitter_den: u64) -> (r: Result<
    SchedulePolicy,
    ServiceError,
>)
    requires
        jitter_den > 0,
    ensures
        match seconds_in_text(interval@) {
            Err(UnitFault::Overflow) => r matches Err(e) && e is IntervalOverflow,
            Err(_) => r matches Err(ServiceError::BadInterval(t)) && t@ == interval@,
            Ok(secs) => match r {
                Ok(p) => {
                    &&& secs > 0
                    &&& 0 <= jitter_num <= jitter_den
                    &&& p.nominal().nanos == secs * 1_000_000_000
                    &&& p.num() == jitter_num
                    &&& p.den() == jitter_den
                },
                Err(ServiceError::Schedule(ScheduleError::ZeroInterval)) => secs == 0,
                Err(ServiceError::Schedule(ScheduleError::JitterOutOfRange { num, den })) => {
                    &&& secs > 0
                    &&& !(0 <= jitter_num <= jitter_den)
                    &&& num == jitter_num
                    &&& den == jitter_den
                },
                Err(_) => false,
            },
        },
{
    match parse_interval(interval) {
        Err(e) => Err(e),
        Ok(span) => match SchedulePolicy::new(span, jitter_num, jitter_den) {
            Ok(p) => Ok(p),
            Err(e) => Err(ServiceError::Schedule(e)),
        },
    }
}

/// Registers the service. This build manages none.
pub fn install(_run_args: &ServiceRunArgs) -> (r: Result<(), ServiceError>)
    ensures
        r matches Err(e) && e is UnsupportedPlatform,
{
    Err(ServiceError::UnsupportedPlatform)
}

/// Removes the service. This build manages none.
pub fn uninstall() -> (r: Result<(), ServiceError>)
    ensures
        r matches Err(e) && e is UnsupportedPlatform,
{
    Err(ServiceError::UnsupportedPlatform)
}

/// Starts the service. This build manages none.
pub fn start() -> (r: Result<(), ServiceError>)
    ensures
        r matches Err(e) && e is UnsupportedPlatform,
{
    Err(ServiceError::UnsupportedPlatform)
}

/// Stops the service. This build manages none.
pub fn stop() -> (r: Result<(), ServiceError>)
    ensures
        r matches Err(e) && e is UnsupportedPlatform,
{
    Err(ServiceError::UnsupportedPlatform)
}

/// Restarts the service. This build manages none.
pub fn restart() -> (r: Result<(), ServiceError>)
    ensures
        r matches Err(e) && e is UnsupportedPlatform,
{
    Err(ServiceError::UnsupportedPlatform)
}

/// Runs as the service. This build manages none.
pub fn run(_run_args: ServiceRunArgs) -> (r: Result<(), ServiceError>)
    ensures
        r matches Err(e) && e is UnsupportedPlatform,
{
    Err(ServiceError::UnsupportedPlatform)
}

/// Where a running service stands.
#[derive(Debug, Clone, Copy, PartialEq, Eq, Structural)]
pub enum ServiceState {
    /// It has been dispatched and reads its settings.
    StartPending,
    /// It runs the schedule.
    Running,
    /// It has ended.
    Stopped,
}

/// What happens to a running service.
#[derive(Debug, Clone, Copy, PartialEq, Eq, Structural)]
pub enum ServiceEvent {
    /// Its settings are good.
    Configured,
    /// Its settings are not.
    ConfigFailed,
    /// The schedule has ended.
    ScheduleEnded,
}

/// What the service reports of itself.
#[derive(Debug, Clone, Copy, PartialEq, Eq, Structural)]
pub struct ServiceReport {
    /// Where it stands.
    pub state: ServiceState,
    /// Whether it can be told to stop.
    pub accepts_stop: bool,
}

/// The report that goes with a state: only a running service can be told to
/// stop.
pub open spec fn report_of(state: ServiceState) -> ServiceReport {
    ServiceReport { state, accepts_stop: state == ServiceState::Running }
}

/// The state that follows an event.
pub open spec fn next_state(state: ServiceState, event: ServiceEvent) -> ServiceState {
    match (state, event) {
        (ServiceState::StartPending, ServiceEvent::Configured) => ServiceState::Running,
        (ServiceState::StartPending, ServiceEvent::ConfigFailed) => ServiceState::Stopped,
        (ServiceState::Running, ServiceEvent::ScheduleEnded) => ServiceState::Stopped,
        _ => state,
    }
}

/// What a service reports after an event. It reports that it runs only once
/// its settings are good; bad settings stop it at once.
#[must_use]
pub fn run_service_body(state: ServiceState, event: ServiceEvent) -> (r: ServiceReport)
    ensures
        r == report_of(next_state(state, event)),
{
    let next: ServiceState = match (state, event) {
        (ServiceState::StartPending, ServiceEvent::Configured) => ServiceState::Running,
        (ServiceState::StartPending, ServiceEvent::ConfigFailed) => ServiceState::Stopped,
        (ServiceState::Running, ServiceEvent::ScheduleEnded) => ServiceState::Stopped,
        _ => state,
    };
    ServiceReport { state: next, accepts_stop: next == ServiceState::Running }
}

/// A control that the system sends.
#[derive(Debug, Clone, Copy, PartialEq, Eq, Structural)]
pub enum ServiceControl {
    /// Report where you stand.
    Interrogate,
    /// Stop.
    Stop,
    /// Anything else.
    Other,
}

/// The answer to a control, and whether the schedule is to end.
#[derive(Debug, Clone, Copy, PartialEq, Eq, Structural)]
pub struct ControlAnswer {
    /// Whether the control is one that the service knows.
    pub handled: bool,
    /// Whether the schedule is to end.
    pub stop: bool,
}

/// Answers a control: only being told to stop ends the schedule.
#[must_use]
pub fn handle_control(control: ServiceControl) -> (r: ControlAnswer)
    ensures
        r.handled == (control != ServiceControl::Other),
        r.stop == (control == ServiceControl::Stop),
{
    match control {
        ServiceControl::Interrogate => ControlAnswer { handled: true, stop: false },
        ServiceControl::Stop => ControlAnswer { handled: true, stop: true },
        ServiceControl::Other => ControlAnswer { handled: false, stop: false },
    }
}

/// What a restart does after looking at the service.
#[derive(Debug, Clone, Copy, PartialEq, Eq, Structural)]
pub enum RestartStep {
    /// Look again after a while.
    LookAgain,
    /// Start it.
    Start,
}

/// What a restart does after so many looks: it starts the service once it has
/// stopped, or once it has looked long enough.
#[must_use]
pub fn restart_step(looks: u32, stopped: bool) -> (r: RestartStep)
    ensures
        r == if stopped || looks >= RESTART_POLL_ATTEMPTS {
            RestartStep::Start
        } else {
            RestartStep::LookAgain
        },
{
    if stopped || looks >= RESTART_POLL_ATTEMPTS {
        RestartStep::Start
    } else {
        RestartStep::LookAgain
    }
}

/// The launch arguments give the settings back: two settings with the same
/// arguments are the same.
pub proof fn law_launch_argv_determines_settings(a: ServiceRunArgs, b: ServiceRunArgs)
    requires
        args_of(a) == args_of(b),
    ensures
        a.config@ == b.config@,
        a.state@ == b.state@,
        a.interval@ == b.interval@,
        a.jitter@ == b.jitter@,
        a.default_chunking == b.default_chunking,
{
    assert(args_of(a)[1] == a.config@ && args_of(b)[1] == b.config@);
    assert(args_of(a)[3] == a.state@ && args_of(b)[3] == b.state@);
    assert(args_of(a)[5] == a.interval@ && args_of(b)[5] == b.interval@);
    assert(args_of(a)[7] == a.jitter@ && args_of(b)[7] == b.jitter@);
    assert(args_of(a).len() == if a.default_chunking {
        9nat
    } else {
        8
    });
    assert(args_of(b).len() == if b.default_chunking {
        9nat
    } else {
        8
    });
}

/// A service reports that it runs only once its settings were found good.
pub proof fn law_running_means_configured(state: ServiceState, event: ServiceEvent)
    requires
        state != ServiceState::Running,
        next_state(state, event) == ServiceState::Running,
    ensures
        state == ServiceState::StartPending && event == ServiceEvent::Configured,
{
}

/// Every setting stands behind its own flag, and the flag for the default chunk
/// size is there just if that is accepted.
pub proof fn law_settings_stand_behind_flags(a: ServiceRunArgs)
    ensures
        ({
            let args = args_of(a);
            &&& args.len() == if a.default_chunking {
                9nat
            } else {
                8nat
            }
            &&& args[0] == "--config"@ && args[1] == a.config@
            &&& args[2] == "--state"@ && args[3] == a.state@
            &&& args[4] == "--interval"@ && args[5] == a.interval@
            &&& args[6] == "--jitter"@ && args[7] == a.jitter@
            &&& a.default_chunking ==> args[8] == "--default-chunking"@
        }),
{
}

/// A service starts to run once configured, stops if it cannot be or once its
/// schedule has ended, and otherwise stays where it is; it can be told to stop
/// just while it runs.
pub proof fn law_service_states(state: ServiceState, event: ServiceEvent)
    ensures
        ({
            let next = next_state(state, event);
            &&& state == ServiceState::StartPending && event == ServiceEvent::Configured ==> next
                == ServiceState::Running
            &&& state == ServiceState::StartPending && event == ServiceEvent::ConfigFailed ==> next
                == ServiceState::Stopped
            &&& state == ServiceState::Running && event == ServiceEvent::ScheduleEnded ==> next
                == ServiceState::Stopped
            &&& state == ServiceState::Running && event != ServiceEvent::ScheduleEnded ==> next
                == state
            &&& state == ServiceState::StartPending && event == ServiceEvent::ScheduleEnded ==> next
                == state
            &&& state == ServiceState::Stopped ==> next == state
            &&& report_of(next).state == next
            &&& report_of(next).accepts_stop <==> next == ServiceState::Running
        }),
{
}

} // verus!
