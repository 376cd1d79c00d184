//! The Dreame W10 driver.
//!
//! It runs in one of two modes, chosen by the form of the motor controller's address. A
//! device path means that it drives the robot itself; anything else is taken for the
//! address of a relay that mirrors what the robot's own daemon does, and is only read.
use vstd::prelude::*;
use crate::command::{apply_command, CmdState, CmdView, Command};
use crate::command::{commanded, initial_cmd, known_component, linear_asked, sets_speed};
use crate::device::{DeviceConfig, DeviceConfigView, Error, ErrorView, HardwareView};
use crate::float32::Float32;
use crate::text::chars_of;

verus! {

/// Line speed of the motor controller's port.
pub const MCU_BAUD: u32 = 115200;

/// Line speed of the lidar's port.
pub const LDS_BAUD: u32 = 230400;

/// What the driver knows.
pub struct DriverView {
    pub config: DeviceConfigView,
    pub shutdown: bool,
    /// Drive and actuator state; absent while the driver only reads.
    pub cmd: Option<CmdView>,
    pub hazard: bool,
}

/// The driver before it is started.
pub open spec fn fresh_driver(config: DeviceConfigView) -> DriverView {
    DriverView { config, shutdown: false, cmd: None, hazard: false }
}

/// How and where the driver talks to the robot.
#[derive(Debug)]
pub struct Endpoints {
    pub mcu_addr: String,
    pub lds_addr: String,
    /// Opens the ports and drives the robot, instead of reading a relay.
    pub direct: bool,
}

/// The addresses and the mode.
pub struct EndpointsView {
    pub mcu_addr: Seq<char>,
    pub lds_addr: Seq<char>,
    pub direct: bool,
}

impl View for Endpoints {
    type V = EndpointsView;

    open spec fn view(&self) -> EndpointsView {
        EndpointsView { mcu_addr: self.mcu_addr@, lds_addr: self.lds_addr@, direct: self.direct }
    }
}

/// `s` begins with `prefix`.
pub open spec fn begins_with(s: Seq<char>, prefix: Seq<char>) -> bool {
    prefix.len() <= s.len() && s.take(prefix.len() as int) == prefix
}

/// The address in use: the one from the environment where it is set.
pub open spec fn chosen(env: Option<String>, configured: Seq<char>) -> Seq<char> {
    match env {
        Some(s) => s@,
        None => configured,
    }
}

/// Where a driver with this configuration and environment connects.
pub open spec fn endpoints_for(
    config: DeviceConfigView,
    mcu_env: Option<String>,
    lds_env: Option<String>,
) -> Result<EndpointsView, ErrorView> {
    match config.hardware {
        Some(h) => {
            let mcu = chosen(mcu_env, h.gd32_port);
            Ok(
                EndpointsView {
                    mcu_addr: mcu,
                    lds_addr: chosen(lds_env, h.lidar_port),
                    direct: begins_with(mcu, "/dev/"@),
                },
            )
        },
        None => Err(ErrorView::Config("dreame_w10 requires a [device.hardware] section"@)),
    }
}

fn has_prefix(s: &str, prefix: &str) -> (r: bool)
    ensures
        r == begins_with(s@, prefix@),
{
    let a: Vec<char> = chars_of(s);
    let b: Vec<char> = chars_of(prefix);
    if a.len() < b.len() {
        return false;
    }
    let mut i: usize = 0;
    while i < b.len()
        invariant
            i <= b@.len() <= a@.len(),
            a@ == s@,
            b@ == prefix@,
            a@.take(i as int) == b@.take(i as int),
        decreases b.len() - i,
    {
        if a[i] != b[i] {
            assert(a@.take(b@.len() as int)[i as int] != b@[i as int]);
            return false;
        }
        i = i + 1;
        assert(a@.take(i as int) =~= a@.take(i - 1).push(a@[i - 1]));
        assert(b@.take(i as int) =~= b@.take(i - 1).push(b@[i - 1]));
    }
    assert(b@.take(b@.len() as int) =~= b@);
    true
}

/// What became of a command.
#[derive(Clone, Copy, Debug, PartialEq, Eq, Structural)]
pub enum Outcome {
    /// The driver will shut down.
    ShuttingDown,
    /// The driver only reads; the command has no effect.
    ReadOnly,
    /// The command was taken.
    Taken,
    /// The robot has no such component.
    UnknownComponent,
}

/// What becomes of a command.
pub open spec fn outcome_of(d: DriverView, cmd: &Command) -> Outcome {
    match cmd {
        Command::Shutdown => Outcome::ShuttingDown,
        Command::ComponentControl { id, action } => if d.cmd is None {
            Outcome::ReadOnly
        } else if known_component(id@) {
            Outcome::Taken
        } else {
            Outcome::UnknownComponent
        },
    }
}

/// The driver after a command. `mm_s` is the asked forward speed in mm/s; it counts only
/// where the command asks for one.
pub open spec fn after_command(d: DriverView, cmd: &Command, now_ns: u64, mm_s: Float32)
    -> DriverView {
    match cmd {
        Command::Shutdown => DriverView { shutdown: true, ..d },
        Command::ComponentControl { id, action } => match d.cmd {
            Some(c) => DriverView { cmd: Some(commanded(c, id@, action, now_ns, mm_s)), ..d },
            None => d,
        },
    }
}

/// The command asks for a forward speed: this one, in m/s.
pub open spec fn speed_request(d: DriverView, cmd: &Command) -> Option<Float32> {
    match cmd {
        Command::ComponentControl { id, action } => if d.cmd is Some && sets_speed(id@, action) {
            Some(linear_asked(action))
        } else {
            None
        },
        _ => None,
    }
}

/// What becomes of a start in direct mode.
#[derive(Clone, Copy, Debug, PartialEq, Eq, Structural)]
pub enum Start {
    /// The motor controller's port could not be opened: the driver does not start.
    Refused,
    /// The robot is driven, without the lidar.
    WithoutLidar,
    /// The robot is driven and the lidar is read.
    WithLidar,
}

/// What becomes of a start, given which ports could be opened.
pub open spec fn start_of(mcu_open: bool, lds_open: bool) -> Start {
    if !mcu_open {
        Start::Refused
    } else if lds_open {
        Start::WithLidar
    } else {
        Start::WithoutLidar
    }
}

/// The driver after a start in direct mode.
pub open spec fn started(d: DriverView, mcu_open: bool, now_ns: u64) -> DriverView {
    if mcu_open {
        DriverView { cmd: Some(initial_cmd(now_ns)), ..d }
    } else {
        d
    }
}

/// The driver's state.
pub struct DreameW10Driver {
    config: DeviceConfig,
    shutdown: bool,
    cmd: Option<CmdState>,
    hazard: bool,
}

impl View for DreameW10Driver {
    type V = DriverView;

    closed spec fn view(&self) -> DriverView {
        DriverView {
            config: self.config@,
            shutdown: self.shutdown,
            cmd: match self.cmd {
                Some(c) => Some(c@),
                None => None,
            },
            hazard: self.hazard,
        }
    }
}

impl DreameW10Driver {
    /// A driver that is not started yet. It is always made.
    pub fn new(config: DeviceConfig) -> (r: Result<DreameW10Driver, Error>)
        ensures
            r matches Ok(d) && d@ == fresh_driver(config@),
    {
        Ok(DreameW10Driver { config, shutdown: false, cmd: None, hazard: false })
    }

    /// Where to connect and how. Addresses from the environment win over the configured
    /// ones; a configuration without a hardware section is refused.
    pub fn endpoints(&self, mcu_env: Option<String>, lds_env: Option<String>) -> (r: Result<
        Endpoints,
        Error,
    >)
        ensures
            match (r, endpoints_for(self@.config, mcu_env, lds_env)) {
                (Ok(a), Ok(b)) => a@ == b,
                (Err(a), Err(b)) => a@ == b,
                _ => false,
            },
    {
        match &self.config.hardware {
            Some(h) => {
                let mcu_addr: String = match mcu_env {
                    Some(s) => s,
                    None => h.gd32_port.clone(),
                };
                let lds_addr: String = match lds_env {
                    Some(s) => s,
                    None => h.lidar_port.clone(),
                };
                let direct: bool = has_prefix(mcu_addr.as_str(), "/dev/");
                Ok(Endpoints { mcu_addr, lds_addr, direct })
            },
            None => Err(
                Error::Config("dreame_w10 requires a [device.hardware] section".to_owned()),
            ),
        }
    }

    /// Starts the direct mode, given which ports could be opened. Without the motor
    /// controller's there is no driving: commands stay without effect. Without the
    /// lidar's the robot is driven all the same.
    pub fn start_direct(&mut self, mcu_open: bool, lds_open: bool, now_ns: u64) -> (r: Start)
        ensures
            r == start_of(mcu_open, lds_open),
            final(self)@ == started(old(self)@, mcu_open, now_ns),
    {
        if !mcu_open {
            return Start::Refused;
        }
        self.cmd = Some(CmdState::new(now_ns));
        if lds_open {
            Start::WithLidar
        } else {
            Start::WithoutLidar
        }
    }

    /// Takes a client's command. `to_mm_s` turns a speed in m/s into mm/s.
    pub fn send_command<F: Fn(Float32) -> Float32>(
        &mut self,
        cmd: Command,
        now_ns: u64,
        to_mm_s: F,
    ) -> (r: Outcome)
        requires
            cmd.wf(),
            forall|v: Float32| call_requires(to_mm_s, (v,)),
        ensures
            r == outcome_of(old(self)@, &cmd),
            speed_request(old(self)@, &cmd) is Some ==> exists|mm_s: Float32|
                #[trigger] call_ensures(
                    to_mm_s,
                    (speed_request(old(self)@, &cmd).unwrap(),),
                    mm_s,
                ) && final(self)@ == after_command(old(self)@, &cmd, now_ns, mm_s),
            speed_request(old(self)@, &cmd) is None ==> final(self)@ == after_command(
                old(self)@,
                &cmd,
                now_ns,
                Float32 { bits: 0 },
            ),
    {
        match &cmd {
            Command::Shutdown => {
                self.shutdown = true;
                Outcome::ShuttingDown
            },
            Command::ComponentControl { id, action } => {
                let ghost before = self@;
                let mut state: Option<CmdState> = None;
                std::mem::swap(&mut state, &mut self.cmd);
                match state {
                    Some(mut c) => {
                        let ghost was = c@;
                        let known: bool = apply_command(
                            &mut c,
                            id.as_str(),
                            action,
                            now_ns,
                            to_mm_s,
                        );
                        let ghost now = c@;
                        self.cmd = Some(c);
                        proof {
                            if sets_speed(id@, action) {
                                let mm_s = choose|mm_s: Float32|
                                    #[trigger] call_ensures(
                                        to_mm_s,
                                        (linear_asked(action),),
                                        mm_s,
                                    ) && now == commanded(was, id@, action, now_ns, mm_s);
                                assert(speed_request(before, &cmd) == Some(
                                    linear_asked(action),
                                ));
                                assert(call_ensures(
                                    to_mm_s,
                                    (speed_request(before, &cmd).unwrap(),),
                                    mm_s,
                                ));
                                assert(self@ == after_command(before, &cmd, now_ns, mm_s));
                            } else {
                                assert(self@ == after_command(
                                    before,
                                    &cmd,
                                    now_ns,
                                    Float32 { bits: 0 },
                                ));
                            }
                        }
                        if known {
                            Outcome::Taken
                        } else {
                            Outcome::UnknownComponent
                        }
                    },
                    None => {
                        assert(self@ == before);
                        Outcome::ReadOnly
                    },
                }
            },
        }
    }

    /// Notes the hazard that the robot reports.
    pub fn set_hazard(&mut self, hazard: bool)
        ensures
            final(self)@ == (DriverView { hazard, ..old(self)@ }),
    {
        self.hazard = hazard;
    }

    /// The driver is being dropped: it shuts down.
    pub fn request_shutdown(&mut self)
        ensures
            final(self)@ == (DriverView { shutdown: true, ..old(self)@ }),
    {
        self.shutdown = true;
    }

    pub fn is_shut_down(&self) -> (r: bool)
        ensures
            r == self@.shutdown,
    {
        self.shutdown
    }

    pub fn hazard(&self) -> (r: bool)
        ensures
            r == self@.hazard,
    {
        self.hazard
    }

    /// Drive and actuator state, in direct mode.
    pub fn cmd(&self) -> (r: Option<&CmdState>)
        ensures
            match (r, self@.cmd) {
                (Some(a), Some(b)) => a@ == b,
                (None, None) => true,
                _ => false,
            },
    {
        match &self.cmd {
            Some(c) => Some(c),
            None => None,
        }
    }
}

// ---------------------------------------------------------------------------
// Laws
// ---------------------------------------------------------------------------
/// A driver that reads a relay cannot be made to move the robot: no command gives it
/// anything to send.
pub proof fn law_over_ava_is_read_only(
    d: DriverView,
    cmd: &Command,
    now_ns: u64,
    mm_s: Float32,
)
    requires
        d.cmd is None,
    ensures
        after_command(d, cmd, now_ns, mm_s).cmd is None,
        after_command(d, cmd, now_ns, mm_s).hazard == d.hazard,
        speed_request(d, cmd) is None,
{
}

/// The lidar's port never keeps the robot from being driven, and the motor controller's
/// always does: a driver that could not open it takes no command.
pub proof fn law_only_the_mcu_port_is_needed(
    config: DeviceConfigView,
    mcu_open: bool,
    lds_open: bool,
    now_ns: u64,
)
    ensures
        start_of(mcu_open, lds_open) == Start::Refused <==> !mcu_open,
        started(fresh_driver(config), mcu_open, now_ns).cmd is Some <==> mcu_open,
        start_of(mcu_open, lds_open) == Start::WithLidar <==> mcu_open && lds_open,
{
}

/// Once a shutdown was asked for, no command takes it back.
pub proof fn law_shutdown_is_final(d: DriverView, cmd: &Command, now_ns: u64, mm_s: Float32)
    requires
        d.shutdown,
    ensures
        after_command(d, cmd, now_ns, mm_s).shutdown,
{
}

/// Device paths, and only they, select the direct mode.
pub proof fn law_device_path_selects_direct(
    config: DeviceConfigView,
    mcu_env: Option<String>,
    lds_env: Option<String>,
)
    ensures
        endpoints_for(config, mcu_env, lds_env) is Ok <==> config.hardware is Some,
        endpoints_for(config, mcu_env, lds_env) matches Ok(e) ==> (e.direct <==> begins_with(
            e.mcu_addr,
            "/dev/"@,
        )),
{
}

/// A text begins with another exactly if it is that and something behind it.
pub proof fn law_prefix_by_parts(prefix: Seq<char>, rest: Seq<char>, s: Seq<char>)
    ensures
        begins_with(prefix + rest, prefix),
        begins_with(s, prefix) ==> s == prefix + s.skip(prefix.len() as int),
{
    assert((prefix + rest).take(prefix.len() as int) =~= prefix);
    if begins_with(s, prefix) {
        assert(s =~= prefix + s.skip(prefix.len() as int));
    }
}

/// An address from the environment wins over the configured one, for each port apart; the
/// motor controller's address alone selects the mode.
pub proof fn law_environment_wins(
    config: DeviceConfigView,
    h: HardwareView,
    mcu_env: Option<String>,
    lds_env: Option<String>,
)
    requires
        config.hardware == Some(h),
    ensures
        endpoints_for(config, mcu_env, lds_env) matches Ok(e) && {
            &&& mcu_env matches Some(s) ==> e.mcu_addr == s@
            &&& mcu_env is None ==> e.mcu_addr == h.gd32_port
            &&& lds_env matches Some(s) ==> e.lds_addr == s@
            &&& lds_env is None ==> e.lds_addr == h.lidar_port
            &&& e.direct <==> begins_with(e.mcu_addr, "/dev/"@)
        },
{
}

/// Without a hardware section the driver says what it misses.
pub proof fn law_hardware_is_required(
    config: DeviceConfigView,
    mcu_env: Option<String>,
    lds_env: Option<String>,
)
    requires
        config.hardware is None,
    ensures
        endpoints_for(config, mcu_env, lds_env) == Err::<EndpointsView, ErrorView>(
            ErrorView::Config("dreame_w10 requires a [device.hardware] section"@),
        ),
{
}

/// A command reaches the drive and actuator state and nothing else; a shutdown reaches
/// the flag and nothing else.
pub proof fn law_commands_reach_the_state(
    d: DriverView,
    c: CmdView,
    cmd: &Command,
    now_ns: u64,
    mm_s: Float32,
)
    requires
        d.cmd == Some(c),
    ensures
        ({
            let after = after_command(d, cmd, now_ns, mm_s);
            &&& after.config == d.config
            &&& after.hazard == d.hazard
            &&& cmd is Shutdown ==> after.shutdown && after.cmd == d.cmd
            &&& cmd matches Command::ComponentControl { id, action } ==> after.shutdown
                == d.shutdown && after.cmd == Some(commanded(c, id@, &action, now_ns, mm_s))
        }),
{
}

/// What a client is told: that the driver shuts down, that it only reads, or whether the
/// robot has the component.
pub proof fn law_outcomes(d: DriverView, cmd: &Command)
    ensures
        outcome_of(d, cmd) == Outcome::ShuttingDown <==> cmd is Shutdown,
        outcome_of(d, cmd) == Outcome::ReadOnly <==> !(cmd is Shutdown) && d.cmd is None,
        cmd matches Command::ComponentControl { id, action } ==> d.cmd is Some ==> {
            &&& outcome_of(d, cmd) == Outcome::Taken <==> known_component(id@)
            &&& outcome_of(d, cmd) == Outcome::UnknownComponent <==> !known_component(id@)
        },
{
}

/// A start in direct mode begins to drive standing still, at that time, with the lidar
/// off; it leaves the rest as it was.
pub proof fn law_start_begins_standing_still(d: DriverView, now_ns: u64)
    ensures
        ({
            let after = started(d, true, now_ns);
            &&& after.cmd matches Some(c) && c.linear_mm_s.bits == 0 && c.rot_rad_s.bits == 0
                && c.last_cmd_ns == now_ns && !c.lidar_on
            &&& after.shutdown == d.shutdown
            &&& after.hazard == d.hazard
            &&& after.config == d.config
            &&& started(d, false, now_ns) == d
        }),
{
}

/// A driver that was just made runs, drives nothing and knows of no hazard.
pub proof fn law_new_driver_is_idle(config: DeviceConfigView)
    ensures
        ({
            let d = fresh_driver(config);
            d.config == config && !d.shutdown && !d.hazard && d.cmd is None
        }),
{
}

} // verus!
