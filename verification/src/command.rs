//! Client commands and the drive and actuator state they build up.
use vstd::prelude::*;
use crate::float32::Float32;
use crate::sensors::{SensorMap, SensorValue};
use crate::text::same_text;

verus! {

/// What a client wants of a component.
pub enum ComponentAction {
    Enable,
    Disable,
    Reset,
    Configure { config: SensorMap },
}

impl ComponentAction {
    pub open spec fn wf(&self) -> bool {
        match self {
            ComponentAction::Configure { config } => config.wf(),
            _ => true,
        }
    }

    /// The configured value under `name`.
    pub open spec fn configured(&self, name: Seq<char>) -> Option<SensorValue> {
        match self {
            ComponentAction::Configure { config } => if config@.dom().contains(name) {
                Some(config@[name])
            } else {
                None
            },
            _ => None,
        }
    }
}

/// A client's request.
pub enum Command {
    Shutdown,
    ComponentControl { id: String, action: ComponentAction },
}

impl Command {
    pub open spec fn wf(&self) -> bool {
        match self {
            Command::Shutdown => true,
            Command::ComponentControl { id, action } => action.wf(),
        }
    }
}

/// Drive and actuator state.
pub struct CmdView {
    pub linear_mm_s: Float32,
    pub rot_rad_s: Float32,
    /// When the last drive command came.
    pub last_cmd_ns: u64,
    /// Levels: side brush, main brush, fan, pump; then the mode and a spare byte.
    pub levels: Seq<u8>,
    pub lidar_on: bool,
}

/// Drive and actuator state of the direct mode.
pub struct CmdState {
    linear_mm_s: Float32,
    rot_rad_s: Float32,
    last_cmd_ns: u64,
    setcleaning: [u8; 6],
    lidar_on: bool,
}

impl View for CmdState {
    type V = CmdView;

    closed spec fn view(&self) -> CmdView {
        CmdView {
            linear_mm_s: self.linear_mm_s,
            rot_rad_s: self.rot_rad_s,
            last_cmd_ns: self.last_cmd_ns,
            levels: self.setcleaning@,
            lidar_on: self.lidar_on,
        }
    }
}

/// The state at the start: standing still, main brush level one, everything else off.
pub open spec fn initial_cmd(now_ns: u64) -> CmdView {
    CmdView {
        linear_mm_s: Float32 { bits: 0 },
        rot_rad_s: Float32 { bits: 0 },
        last_cmd_ns: now_ns,
        levels: seq![0u8, 1, 0, 0, 0, 0],
        lidar_on: false,
    }
}

/// The level an action asks of a speed component.
pub open spec fn speed_asked(action: &ComponentAction) -> Option<u8> {
    match action {
        ComponentAction::Enable => Some(100u8),
        ComponentAction::Disable => Some(0u8),
        ComponentAction::Configure { config } => match action.configured("speed"@) {
            Some(SensorValue::U8(s)) => Some(s),
            Some(SensorValue::U32(s)) => Some((s % 256) as u8),
            _ => None,
        },
        ComponentAction::Reset => None,
    }
}

/// Maps a speed-component action to a level byte: full, off, or the configured speed.
pub fn speed_of(action: &ComponentAction) -> (r: Option<u8>)
    requires
        action.wf(),
    ensures
        r == speed_asked(action),
{
    match action {
        ComponentAction::Enable => Some(100),
        ComponentAction::Disable => Some(0),
        ComponentAction::Configure { config } => match config.get("speed") {
            Some(SensorValue::U8(s)) => Some(s),
            Some(SensorValue::U32(s)) => Some((s % 256) as u8),
            _ => None,
        },
        ComponentAction::Reset => None,
    }
}

/// The speeds that a drive configuration asks for: `linear` in m/s and `angular` in
/// rad/s, both given as floats.
pub open spec fn drive_asked(action: &ComponentAction) -> Option<(Float32, Float32)> {
    match (action.configured("linear"@), action.configured("angular"@)) {
        (Some(SensorValue::F32(linear)), Some(SensorValue::F32(angular))) => Some(
            (linear, angular),
        ),
        _ => None,
    }
}

/// The state with one level replaced, where a level was asked for.
pub open spec fn with_level(s: CmdView, which: int, action: &ComponentAction) -> CmdView {
    match speed_asked(action) {
        Some(level) => CmdView { levels: s.levels.update(which, level), ..s },
        None => s,
    }
}

/// The state after a command. `mm_s` is the asked forward speed in mm/s; it counts only
/// for a drive configuration.
pub open spec fn commanded(
    s: CmdView,
    id: Seq<char>,
    action: &ComponentAction,
    now_ns: u64,
    mm_s: Float32,
) -> CmdView {
    if id == "drive"@ {
        match action {
            ComponentAction::Configure { config } => match drive_asked(action) {
                Some((linear, angular)) => CmdView {
                    linear_mm_s: mm_s,
                    rot_rad_s: angular,
                    last_cmd_ns: now_ns,
                    ..s
                },
                None => s,
            },
            ComponentAction::Enable => s,
            _ => CmdView {
                linear_mm_s: Float32 { bits: 0 },
                rot_rad_s: Float32 { bits: 0 },
                last_cmd_ns: now_ns,
                ..s
            },
        }
    } else if id == "side_brush"@ {
        with_level(s, 0, action)
    } else if id == "main_brush"@ {
        with_level(s, 1, action)
    } else if id == "vacuum"@ {
        with_level(s, 2, action)
    } else if id == "water_pump"@ {
        with_level(s, 3, action)
    } else if id == "lidar"@ {
        match action {
            ComponentAction::Enable => CmdView { lidar_on: true, ..s },
            ComponentAction::Disable => CmdView { lidar_on: false, ..s },
            _ => s,
        }
    } else {
        s
    }
}

/// The forward speed that a drive configuration asks for, in m/s.
pub open spec fn linear_asked(action: &ComponentAction) -> Float32
    recommends
        drive_asked(action) is Some,
{
    let asked = drive_asked(action).unwrap();
    asked.0
}

/// The command asks for a new drive speed.
pub open spec fn sets_speed(id: Seq<char>, action: &ComponentAction) -> bool {
    id == "drive"@ && drive_asked(action) is Some
}

/// A component that the robot has.
pub open spec fn known_component(id: Seq<char>) -> bool {
    id == "drive"@ || id == "side_brush"@ || id == "main_brush"@ || id == "vacuum"@ || id
        == "water_pump"@ || id == "lidar"@
}

impl CmdState {
    /// There are six level bytes.
    pub proof fn lemma_levels(&self)
        ensures
            self@.levels.len() == 6,
    {
    }

    pub fn new(now_ns: u64) -> (s: CmdState)
        ensures
            s@ == initial_cmd(now_ns),
    {
        let s: CmdState = CmdState {
            linear_mm_s: Float32::zero_value(),
            rot_rad_s: Float32::zero_value(),
            last_cmd_ns: now_ns,
            setcleaning: [0, 1, 0, 0, 0, 0],
            lidar_on: false,
        };
        assert(s@.levels =~= seq![0u8, 1, 0, 0, 0, 0]);
        s
    }

    pub fn linear_mm_s(&self) -> (r: Float32)
        ensures
            r == self@.linear_mm_s,
    {
        self.linear_mm_s
    }

    pub fn rot_rad_s(&self) -> (r: Float32)
        ensures
            r == self@.rot_rad_s,
    {
        self.rot_rad_s
    }

    pub fn last_cmd_ns(&self) -> (r: u64)
        ensures
            r == self@.last_cmd_ns,
    {
        self.last_cmd_ns
    }

    /// One of the six level bytes.
    pub fn level(&self, i: usize) -> (r: u8)
        requires
            i < 6,
        ensures
            r == self@.levels[i as int],
    {
        self.setcleaning[i]
    }

    pub fn lidar_on(&self) -> (r: bool)
        ensures
            r == self@.lidar_on,
    {
        self.lidar_on
    }

    fn set_level(&mut self, i: usize, action: &ComponentAction)
        requires
            i < 6,
            action.wf(),
        ensures
            final(self)@ == with_level(old(self)@, i as int, action),
    {
        let ghost before = self@;
        if let Some(s) = speed_of(action) {
            self.setcleaning[i] = s;
            assert(self@.levels =~= before.levels.update(i as int, s));
        }
    }
}

/// Folds a command into the state. `to_mm_s` turns a speed in m/s into mm/s. True when
/// the component is one that the robot has.
pub fn apply_command<F: Fn(Float32) -> Float32>(
    c: &mut CmdState,
    id: &str,
    action: &ComponentAction,
    now_ns: u64,
    to_mm_s: F,
) -> (known: bool)
    requires
        action.wf(),
        forall|v: Float32| call_requires(to_mm_s, (v,)),
    ensures
        known == known_component(id@),
        sets_speed(id@, action) ==> exists|mm_s: Float32|
            #[trigger] call_ensures(to_mm_s, (linear_asked(action),), mm_s) && final(c)@
                == commanded(old(c)@, id@, action, now_ns, mm_s),
        !sets_speed(id@, action) ==> final(c)@ == commanded(
            old(c)@,
            id@,
            action,
            now_ns,
            Float32 { bits: 0 },
        ),
{
    if same_text(id, "drive") {
        match action {
            ComponentAction::Configure { config } => {
                let linear: Option<SensorValue> = config.get("linear");
                let angular: Option<SensorValue> = config.get("angular");
                if let (Some(SensorValue::F32(lin)), Some(SensorValue::F32(ang))) = (
                    linear,
                    angular,
                ) {
                    let mm_s: Float32 = to_mm_s(lin);
                    c.linear_mm_s = mm_s;
                    c.rot_rad_s = ang;
                    c.last_cmd_ns = now_ns;
                    assert(lin == linear_asked(action));
                    assert(call_ensures(to_mm_s, (linear_asked(action),), mm_s));
                    assert(c@ == commanded(old(c)@, id@, action, now_ns, mm_s));
                }
            },
            ComponentAction::Disable | ComponentAction::Reset => {
                c.linear_mm_s = Float32::zero_value();
                c.rot_rad_s = Float32::zero_value();
                c.last_cmd_ns = now_ns;
            },
            ComponentAction::Enable => {},
        }
        true
    } else if same_text(id, "side_brush") {
        c.set_level(0, action);
        true
    } else if same_text(id, "main_brush") {
        c.set_level(1, action);
        true
    } else if same_text(id, "vacuum") {
        c.set_level(2, action);
        true
    } else if same_text(id, "water_pump") {
        c.set_level(3, action);
        true
    } else if same_text(id, "lidar") {
        match action {
            ComponentAction::Enable => c.lidar_on = true,
            ComponentAction::Disable => c.lidar_on = false,
            _ => {},
        }
        true
    } else {
        false
    }
}

// ---------------------------------------------------------------------------
// Laws
// ---------------------------------------------------------------------------
/// Driving and the actuators are kept apart: a drive command leaves the levels and the
/// lidar as they are, and any other command leaves the speeds and their time.
pub proof fn law_drive_and_actuators_are_apart(
    s: CmdView,
    id: Seq<char>,
    action: &ComponentAction,
    now_ns: u64,
    mm_s: Float32,
)
    ensures
        ({
            let after = commanded(s, id, action, now_ns, mm_s);
            if id == "drive"@ {
                after.levels == s.levels && after.lidar_on == s.lidar_on
            } else {
                after.linear_mm_s == s.linear_mm_s && after.rot_rad_s == s.rot_rad_s
                    && after.last_cmd_ns == s.last_cmd_ns
            }
        }),
{
}

/// A speed component changes its own level byte and nothing else.
pub proof fn law_level_is_set(
    s: CmdView,
    action: &ComponentAction,
    now_ns: u64,
    mm_s: Float32,
    level: u8,
)
    requires
        s.levels.len() == 6,
        speed_asked(action) == Some(level),
    ensures
        commanded(s, "side_brush"@, action, now_ns, mm_s) == (CmdView {
            levels: s.levels.update(0, level),
            ..s
        }),
        commanded(s, "main_brush"@, action, now_ns, mm_s) == (CmdView {
            levels: s.levels.update(1, level),
            ..s
        }),
        commanded(s, "vacuum"@, action, now_ns, mm_s) == (CmdView {
            levels: s.levels.update(2, level),
            ..s
        }),
        commanded(s, "water_pump"@, action, now_ns, mm_s) == (CmdView {
            levels: s.levels.update(3, level),
            ..s
        }),
{
    lemma_component_names();
}

/// Levels are latched: a component keeps its level through every command that is not
/// meant for it, or that asks for no level.
pub proof fn law_level_is_latched(
    s: CmdView,
    id: Seq<char>,
    action: &ComponentAction,
    now_ns: u64,
    mm_s: Float32,
)
    requires
        s.levels.len() == 6,
    ensures
        ({
            let after = commanded(s, id, action, now_ns, mm_s).levels;
            let asked = speed_asked(action) is Some;
            &&& after.len() == 6
            &&& !(id == "side_brush"@ && asked) ==> after[0] == s.levels[0]
            &&& !(id == "main_brush"@ && asked) ==> after[1] == s.levels[1]
            &&& !(id == "vacuum"@ && asked) ==> after[2] == s.levels[2]
            &&& !(id == "water_pump"@ && asked) ==> after[3] == s.levels[3]
        }),
{
}

/// The component names differ in their length or their first letter.
proof fn lemma_component_names()
    ensures
        "drive"@.len() == 5 && "drive"@[0] == 'd',
        "side_brush"@.len() == 10 && "side_brush"@[0] == 's',
        "main_brush"@.len() == 10 && "main_brush"@[0] == 'm',
        "vacuum"@.len() == 6,
        "water_pump"@.len() == 10 && "water_pump"@[0] == 'w',
        "lidar"@.len() == 5 && "lidar"@[0] == 'l',
{
    reveal_strlit("drive");
    reveal_strlit("side_brush");
    reveal_strlit("main_brush");
    reveal_strlit("vacuum");
    reveal_strlit("water_pump");
    reveal_strlit("lidar");
}

/// Turning the lidar on or off changes that and nothing else.
pub proof fn law_lidar_switch(s: CmdView, now_ns: u64, mm_s: Float32)
    ensures
        commanded(s, "lidar"@, &ComponentAction::Enable, now_ns, mm_s) == (CmdView {
            lidar_on: true,
            ..s
        }),
        commanded(s, "lidar"@, &ComponentAction::Disable, now_ns, mm_s) == (CmdView {
            lidar_on: false,
            ..s
        }),
{
    lemma_component_names();
}

/// Disabling or resetting the drive stops it.
pub proof fn law_drive_stop(s: CmdView, now_ns: u64, mm_s: Float32)
    ensures
        commanded(s, "drive"@, &ComponentAction::Disable, now_ns, mm_s).linear_mm_s.zero(),
        commanded(s, "drive"@, &ComponentAction::Disable, now_ns, mm_s).rot_rad_s.zero(),
        commanded(s, "drive"@, &ComponentAction::Reset, now_ns, mm_s).linear_mm_s.zero(),
        commanded(s, "drive"@, &ComponentAction::Reset, now_ns, mm_s).rot_rad_s.zero(),
{
}

/// A component that the robot does not have changes nothing.
pub proof fn law_unknown_component_is_ignored(
    s: CmdView,
    id: Seq<char>,
    action: &ComponentAction,
    now_ns: u64,
    mm_s: Float32,
)
    requires
        !known_component(id),
    ensures
        commanded(s, id, action, now_ns, mm_s) == s,
{
}

/// The configuration holds this value under the name.
pub open spec fn holds(config: SensorMap, name: Seq<char>, value: SensorValue) -> bool {
    config@.dom().contains(name) && config@[name] == value
}

/// The levels that actions ask for: 100 to enable, 0 to disable, and the configured speed,
/// of which the lowest byte counts. Resetting asks for none, nor does a configuration
/// without a speed.
pub proof fn law_levels_asked_for(config: SensorMap, s8: u8, s32: u32)
    ensures
        speed_asked(&ComponentAction::Enable) == Some(100u8),
        speed_asked(&ComponentAction::Disable) == Some(0u8),
        speed_asked(&ComponentAction::Reset) is None,
        holds(config, "speed"@, SensorValue::U8(s8)) ==> speed_asked(
            &(ComponentAction::Configure { config }),
        ) == Some(s8),
        holds(config, "speed"@, SensorValue::U32(s32)) ==> speed_asked(
            &(ComponentAction::Configure { config }),
        ) == Some((s32 % 256) as u8),
        !config@.dom().contains("speed"@) ==> speed_asked(
            &(ComponentAction::Configure { config }),
        ) is None,
{
}

/// A drive configuration with both speeds sets the forward speed, the turn rate and the
/// time, and nothing else.
pub proof fn law_drive_takes_both_speeds(
    s: CmdView,
    config: SensorMap,
    linear: Float32,
    angular: Float32,
    now_ns: u64,
    mm_s: Float32,
)
    requires
        holds(config, "linear"@, SensorValue::F32(linear)),
        holds(config, "angular"@, SensorValue::F32(angular)),
    ensures
        ({
            let action = ComponentAction::Configure { config };
            let after = commanded(s, "drive"@, &action, now_ns, mm_s);
            &&& sets_speed("drive"@, &action)
            &&& linear_asked(&action) == linear
            &&& after.linear_mm_s == mm_s
            &&& after.rot_rad_s == angular
            &&& after.last_cmd_ns == now_ns
            &&& after.levels == s.levels
            &&& after.lidar_on == s.lidar_on
        }),
{
}

/// A drive configuration without one of the speeds changes nothing, nor does enabling the
/// drive.
pub proof fn law_incomplete_drive_is_ignored(
    s: CmdView,
    config: SensorMap,
    now_ns: u64,
    mm_s: Float32,
)
    requires
        !config@.dom().contains("linear"@) || !config@.dom().contains("angular"@),
    ensures
        commanded(s, "drive"@, &(ComponentAction::Configure { config }), now_ns, mm_s) == s,
        !sets_speed("drive"@, &(ComponentAction::Configure { config })),
        commanded(s, "drive"@, &ComponentAction::Enable, now_ns, mm_s) == s,
{
}

/// Disabling or resetting the drive puts both speeds to zero, as a command of that time,
/// whatever they were.
pub proof fn law_drive_stop_is_timed(s: CmdView, now_ns: u64, mm_s: Float32)
    ensures
        ({
            let off = commanded(s, "drive"@, &ComponentAction::Disable, now_ns, mm_s);
            let reset = commanded(s, "drive"@, &ComponentAction::Reset, now_ns, mm_s);
            &&& off.linear_mm_s.bits == 0 && off.rot_rad_s.bits == 0
            &&& off.last_cmd_ns == now_ns
            &&& off.levels == s.levels && off.lidar_on == s.lidar_on
            &&& reset == off
        }),
{
}

/// Resetting or configuring the lidar changes nothing.
pub proof fn law_lidar_only_switches(s: CmdView, config: SensorMap, now_ns: u64, mm_s: Float32)
    ensures
        commanded(s, "lidar"@, &ComponentAction::Reset, now_ns, mm_s) == s,
        commanded(s, "lidar"@, &(ComponentAction::Configure { config }), now_ns, mm_s) == s,
{
    lemma_component_names();
}

/// The components that the robot has.
pub proof fn law_components_by_name(id: Seq<char>)
    ensures
        known_component(id) <==> seq![
            "drive"@,
            "side_brush"@,
            "main_brush"@,
            "vacuum"@,
            "water_pump"@,
            "lidar"@,
        ].contains(id),
{
    let names = seq![
        "drive"@,
        "side_brush"@,
        "main_brush"@,
        "vacuum"@,
        "water_pump"@,
        "lidar"@,
    ];
    assert(names[0] == "drive"@ && names[1] == "side_brush"@ && names[2] == "main_brush"@);
    assert(names[3] == "vacuum"@ && names[4] == "water_pump"@ && names[5] == "lidar"@);
}

/// A value of another kind than is asked for counts as none: a speed that is not a float
/// leaves the drive as it is, and a level that is no byte or 32-bit number leaves the
/// levels.
pub proof fn law_values_of_another_kind_are_ignored(
    s: CmdView,
    config: SensorMap,
    v: SensorValue,
    now_ns: u64,
    mm_s: Float32,
)
    ensures
        !(v is F32) && (holds(config, "linear"@, v) || holds(config, "angular"@, v)) ==> commanded(
            s,
            "drive"@,
            &(ComponentAction::Configure { config }),
            now_ns,
            mm_s,
        ) == s && !sets_speed("drive"@, &(ComponentAction::Configure { config })),
        !(v is U8) && !(v is U32) && holds(config, "speed"@, v) ==> speed_asked(
            &(ComponentAction::Configure { config }),
        ) is None,
{
}

} // verus!
