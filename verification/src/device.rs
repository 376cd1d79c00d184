//! Configuration and the device factory.
use vstd::prelude::*;
use crate::driver::{DreameW10Driver, DriverView};
use crate::driver::fresh_driver;
use crate::text::same_text;

verus! {

/// The ports of a device.
pub struct HardwareConfig {
    /// Motor controller: a device path or `host:port`.
    pub gd32_port: String,
    /// Lidar: a device path or `host:port`.
    pub lidar_port: String,
}

/// What a hardware section says.
pub struct HardwareView {
    pub gd32_port: Seq<char>,
    pub lidar_port: Seq<char>,
}

impl View for HardwareConfig {
    type V = HardwareView;

    open spec fn view(&self) -> HardwareView {
        HardwareView { gd32_port: self.gd32_port@, lidar_port: self.lidar_port@ }
    }
}

impl Clone for HardwareConfig {
    fn clone(&self) -> (r: Self)
        ensures
            r@ == self@,
    {
        HardwareConfig { gd32_port: self.gd32_port.clone(), lidar_port: self.lidar_port.clone() }
    }
}

/// The `[device]` section.
pub struct DeviceConfig {
    pub device_type: String,
    pub name: String,
    pub hardware: Option<HardwareConfig>,
}

/// What a device section says.
pub struct DeviceConfigView {
    pub device_type: Seq<char>,
    pub name: Seq<char>,
    pub hardware: Option<HardwareView>,
}

impl View for DeviceConfig {
    type V = DeviceConfigView;

    open spec fn view(&self) -> DeviceConfigView {
        DeviceConfigView {
            device_type: self.device_type@,
            name: self.name@,
            hardware: match self.hardware {
                Some(h) => Some(h@),
                None => None,
            },
        }
    }
}

impl Clone for DeviceConfig {
    fn clone(&self) -> (r: Self)
        ensures
            r@ == self@,
    {
        let hardware: Option<HardwareConfig> = match &self.hardware {
            Some(h) => Some(h.clone()),
            None => None,
        };
        DeviceConfig { device_type: self.device_type.clone(), name: self.name.clone(), hardware }
    }
}

/// The configuration file.
pub struct Config {
    pub device: DeviceConfig,
}

/// Why a device cannot be made or started.
#[derive(Debug)]
pub enum Error {
    Config(String),
    UnknownDevice(String),
}

/// What an error says.
pub enum ErrorView {
    Config(Seq<char>),
    UnknownDevice(Seq<char>),
}

impl View for Error {
    type V = ErrorView;

    open spec fn view(&self) -> ErrorView {
        match self {
            Error::Config(s) => ErrorView::Config(s@),
            Error::UnknownDevice(s) => ErrorView::UnknownDevice(s@),
        }
    }
}

/// A device type.
#[derive(Clone, Copy, Debug, PartialEq, Eq, Structural)]
pub enum DeviceKind {
    /// The CRL-200S robot.
    Crl200s,
    /// The Dreame W10 robot.
    DreameW10,
    /// A simulated robot.
    Mock,
}

/// Whether the simulated robot is built in. It is an optional part, left out by default.
pub const MOCK_BUILT: bool = false;

/// The device that a type names.
pub open spec fn kind_named(device_type: Seq<char>, mock_built: bool) -> Result<
    DeviceKind,
    ErrorView,
> {
    if device_type == "crl200s"@ {
        Ok(DeviceKind::Crl200s)
    } else if device_type == "dreame_w10"@ {
        Ok(DeviceKind::DreameW10)
    } else if device_type == "mock"@ {
        if mock_built {
            Ok(DeviceKind::Mock)
        } else {
            Err(ErrorView::Config("Mock device not available: rebuild with --features mock"@))
        }
    } else {
        Err(ErrorView::UnknownDevice(device_type))
    }
}

/// The device that a type names, in a build with or without the simulated robot.
pub fn device_kind(device_type: &str, mock_built: bool) -> (r: Result<DeviceKind, Error>)
    ensures
        match (r, kind_named(device_type@, mock_built)) {
            (Ok(a), Ok(b)) => a == b,
            (Err(a), Err(b)) => a@ == b,
            _ => false,
        },
{
    if same_text(device_type, "crl200s") {
        Ok(DeviceKind::Crl200s)
    } else if same_text(device_type, "dreame_w10") {
        Ok(DeviceKind::DreameW10)
    } else if same_text(device_type, "mock") {
        if mock_built {
            Ok(DeviceKind::Mock)
        } else {
            Err(
                Error::Config(
                    "Mock device not available: rebuild with --features mock".to_owned(),
                ),
            )
        }
    } else {
        Err(Error::UnknownDevice(device_type.to_owned()))
    }
}

/// A device as the factory makes it. The drivers of the other robots are made from their
/// configuration by the program that has them.
pub enum Device {
    Crl200s(DeviceConfig),
    DreameW10(DreameW10Driver),
    Mock(DeviceConfig),
}

/// What the factory made.
pub enum DeviceView {
    Crl200s(DeviceConfigView),
    DreameW10(DriverView),
    Mock(DeviceConfigView),
}

impl View for Device {
    type V = DeviceView;

    open spec fn view(&self) -> DeviceView {
        match self {
            Device::Crl200s(c) => DeviceView::Crl200s(c@),
            Device::DreameW10(d) => DeviceView::DreameW10(d@),
            Device::Mock(c) => DeviceView::Mock(c@),
        }
    }
}

/// The device for a configuration.
pub open spec fn device_for(c: DeviceConfigView) -> Result<DeviceView, ErrorView> {
    match kind_named(c.device_type, MOCK_BUILT) {
        Ok(DeviceKind::Crl200s) => Ok(DeviceView::Crl200s(c)),
        Ok(DeviceKind::DreameW10) => Ok(DeviceView::DreameW10(fresh_driver(c))),
        Ok(DeviceKind::Mock) => Ok(DeviceView::Mock(c)),
        Err(e) => Err(e),
    }
}

/// Makes the device that `device.type` names, from a copy of its configuration.
pub fn create_device(config: &Config) -> (r: Result<Device, Error>)
    ensures
        match (r, device_for(config.device@)) {
            (Ok(a), Ok(b)) => a@ == b,
            (Err(a), Err(b)) => a@ == b,
            _ => false,
        },
{
    match device_kind(config.device.device_type.as_str(), MOCK_BUILT) {
        Ok(DeviceKind::Crl200s) => Ok(Device::Crl200s(config.device.clone())),
        Ok(DeviceKind::DreameW10) => {
            match DreameW10Driver::new(config.device.clone()) {
                Ok(d) => Ok(Device::DreameW10(d)),
                Err(e) => Err(e),
            }
        },
        Ok(DeviceKind::Mock) => Ok(Device::Mock(config.device.clone())),
        Err(e) => Err(e),
    }
}

// ---------------------------------------------------------------------------
// Laws
// ---------------------------------------------------------------------------
/// Each device type names its own robot; the simulated one only where it is built in. Any
/// other type is refused by its name.
pub proof fn law_types_by_name(device_type: Seq<char>)
    ensures
        kind_named("crl200s"@, false) == Ok::<DeviceKind, ErrorView>(DeviceKind::Crl200s),
        kind_named("dreame_w10"@, false) == Ok::<DeviceKind, ErrorView>(DeviceKind::DreameW10),
        kind_named("mock"@, true) == Ok::<DeviceKind, ErrorView>(DeviceKind::Mock),
        kind_named("mock"@, false) == Err::<DeviceKind, ErrorView>(
            ErrorView::Config("Mock device not available: rebuild with --features mock"@),
        ),
        device_type != "crl200s"@ && device_type != "dreame_w10"@ && device_type != "mock"@
            ==> kind_named(device_type, true) == Err::<DeviceKind, ErrorView>(
            ErrorView::UnknownDevice(device_type),
        ) && kind_named(device_type, false) == Err::<DeviceKind, ErrorView>(
            ErrorView::UnknownDevice(device_type),
        ),
{
    lemma_type_names();
}

proof fn lemma_type_names()
    ensures
        "crl200s"@.len() == 7,
        "dreame_w10"@.len() == 10,
        "mock"@.len() == 4,
{
    reveal_strlit("crl200s");
    reveal_strlit("dreame_w10");
    reveal_strlit("mock");
}

/// The factory makes the device that the type names, from the whole of its section, and
/// makes none of an unknown type or of the simulated one.
pub proof fn law_factory_makes_the_named_device(c: DeviceConfigView)
    ensures
        c.device_type == "crl200s"@ ==> device_for(c) == Ok::<DeviceView, ErrorView>(
            DeviceView::Crl200s(c),
        ),
        c.device_type == "dreame_w10"@ ==> device_for(c) == Ok::<DeviceView, ErrorView>(
            DeviceView::DreameW10(
                (DriverView { config: c, shutdown: false, cmd: None, hazard: false }),
            ),
        ),
        c.device_type != "crl200s"@ && c.device_type != "dreame_w10"@ ==> device_for(c) is Err,
{
    lemma_type_names();
}

} // verus!
