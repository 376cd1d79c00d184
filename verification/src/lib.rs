//! A bridge to the Dreame Bot W10 robot vacuum.
//!
//! The robot's own navigation daemon talks to the motor controller and to the lidar over
//! two serial ports. A tap inside the daemon mirrors that traffic into rings in shared
//! memory ([`tap`], [`ring`], [`shm`]) and can replace its motor commands ([`control`]);
//! a relay serves the rings ([`relay`]). A driver reads the relay, or takes the daemon's
//! place and drives the robot ([`driver`], [`command`], [`transmit`], [`receive`]). Both
//! ends share the packet formats ([`frame`], [`message`], [`lds`]).
pub mod command;
pub mod control;
pub mod decode;
pub mod device;
pub mod driver;
pub mod float32;
pub mod frame;
pub mod hexdump;
pub mod lds;
pub mod link;
pub mod message;
pub mod options;
pub mod receive;
pub mod relay;
pub mod ring;
pub mod sensors;
pub mod shm;
pub mod sweep;
pub mod tap;
pub mod text;
pub mod transmit;
pub mod volatility;
