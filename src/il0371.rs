//! The command set of the grey-level controller of the first panel
//! generation: one method per register, each sending its opcode and the
//! register's bytes.
use vstd::prelude::*;

use crate::display_connector::{
    cut_short, generated_by, lemma_cut_short, poll_step, send_command_with_data, DisplayConnector,
    Error, Op, Result, MAX_BUSY_POLLS,
};
use crate::gd7965::{be_bytes, flag};

verus! {

/// Panel-setting flags and resolution.
#[derive(Debug, Clone, Copy, PartialEq, Eq, Structural)]
pub struct PSRFlags {
    pub bits: u16,
}

impl PSRFlags {
    pub const RES_640_480: u16 = 0b0000_0000_0000_0000;
    pub const RES_600_450: u16 = 0b0100_0000_0000_0000;
    pub const RES_640_448: u16 = 0b1000_0000_0000_0000;
    pub const RES_600_448: u16 = 0b1100_0000_0000_0000;
    pub const LUT_EN: u16 = 0b0010_0000_0000_0000;
    pub const UD: u16 = 0b0000_1000_0000_0000;
    pub const SHL: u16 = 0b0000_0100_0000_0000;
    pub const SHD_N: u16 = 0b0000_0010_0000_0000;
    pub const RST_N: u16 = 0b0000_0001_0000_0000;
    pub const VCM_HZ: u16 = 0b0000_0000_0001_0000;
    /// Set by the vendor's sample code; the datasheet does not describe it.
    pub const MYSTERY: u16 = 0b0000_0000_0000_1000;

    pub fn from_bits(bits: u16) -> (r: PSRFlags)
        ensures
            r.bits == bits,
    {
        PSRFlags { bits }
    }

    /// The flags set in either.
    pub fn union(self, other: PSRFlags) -> (r: PSRFlags)
        ensures
            r.bits == self.bits | other.bits,
    {
        PSRFlags { bits: self.bits | other.bits }
    }
}

/// Power-setting flags and gate voltage level.
#[derive(Debug, Clone, Copy, PartialEq, Eq, Structural)]
pub struct PWRFlags {
    pub bits: u16,
}

impl PWRFlags {
    pub const EDATA_SEL: u16 = 0b0010_0000_0000_0000;
    pub const EDATA_SET: u16 = 0b0001_0000_0000_0000;
    pub const VSOURCE_LV_EN: u16 = 0b0000_0100_0000_0000;
    pub const VSOURCE_EN: u16 = 0b0000_0010_0000_0000;
    pub const VGATE_EN: u16 = 0b0000_0001_0000_0000;
    pub const VGHL_LVL_20V: u16 = 0b0000_0000_0000_0000;
    pub const VGHL_LVL_19V: u16 = 0b0000_0000_0000_0001;
    pub const VGHL_LVL_18V: u16 = 0b0000_0000_0000_0010;
    pub const VGHL_LVL_17V: u16 = 0b0000_0000_0000_0011;

    pub fn from_bits(bits: u16) -> (r: PWRFlags)
        ensures
            r.bits == bits,
    {
        PWRFlags { bits }
    }

    /// The flags set in either.
    pub fn union(self, other: PWRFlags) -> (r: PWRFlags)
        ensures
            r.bits == self.bits | other.bits,
    {
        PWRFlags { bits: self.bits | other.bits }
    }
}

/// Power-off sequence: how many frames the source stays on.
#[derive(Debug, Clone, Copy, PartialEq, Eq, Structural)]
pub struct PFSFlags {
    pub bits: u8,
}

impl PFSFlags {
    pub const T_VDS_OFF_1FRAME: u8 = 0b0000_0000;
    pub const T_VDS_OFF_2FRAME: u8 = 0b0000_1000;
    pub const T_VDS_OFF_3FRAME: u8 = 0b0001_0000;
    pub const T_VDS_OFF_4FRAME: u8 = 0b0001_1000;

    pub fn from_bits(bits: u8) -> (r: PFSFlags)
        ensures
            r.bits == bits,
    {
        PFSFlags { bits }
    }
}

/// The operations of a wait for readiness up to its next reading: a status
/// command, then for each of `busy` busy readings the reading and a pause of
/// 100 ms. The status command is not repeated.
pub open spec fn busy_pauses(busy: nat) -> Seq<Op>
    decreases busy,
{
    if busy == 0 {
        seq![Op::Command(0x71)]
    } else {
        busy_pauses((busy - 1) as nat) + seq![Op::Busy(true), Op::Delay(100)]
    }
}

/// A whole wait that found the panel ready after `busy` busy readings.
pub open spec fn busy_wait(busy: nat) -> Seq<Op> {
    busy_pauses(busy).push(Op::Busy(false))
}

pub struct IL0371<T: DisplayConnector> {
    connector: T,
}

impl<T: DisplayConnector> IL0371<T> {
    /// What has been sent to the panel so far.
    pub closed spec fn ops(&self) -> Seq<Op> {
        self.connector.ops()
    }

    /// How many operations on the wiring have failed so far.
    pub closed spec fn faults(&self) -> nat {
        self.connector.faults()
    }

    /// The error that the connector's most recent failing operation returned.
    pub closed spec fn last_error(&self) -> Error {
        self.connector.last_error()
    }

    /// The connector underneath.
    pub closed spec fn link(&self) -> T {
        self.connector
    }

    pub fn new(connector: T) -> (r: IL0371<T>)
        ensures
            r.ops() == connector.ops(),
            r.link() == connector,
    {
        IL0371 { connector }
    }

    pub fn connector(&self) -> (r: &T)
        ensures
            *r == self.link(),
            r.ops() == self.ops(),
    {
        &self.connector
    }

    pub fn reset(&mut self) -> (r: Result<()>)
        ensures
            final(self).faults() >= old(self).faults(),
            r is Ok <==> final(self).faults() == old(self).faults(),
            r is Err ==> r == Err::<(), Error>(final(self).last_error()) && final(self).last_error()
                != Error::BusyTimeout,
            r is Ok ==> final(self).ops() == old(self).ops().push(Op::Reset),
            r is Err ==> final(self).ops() == old(self).ops(),
    {
        self.connector.reset()
    }

    /// Sends a command that takes no data.
    fn command(&mut self, command: u8) -> (r: Result<()>)
        ensures
            final(self).faults() >= old(self).faults(),
            r is Ok <==> final(self).faults() == old(self).faults(),
            r is Err ==> r == Err::<(), Error>(final(self).last_error()) && final(self).last_error()
                != Error::BusyTimeout,
            r is Ok ==> final(self).ops() == old(self).ops().push(Op::Command(command)),
            r is Err ==> final(self).ops() == old(self).ops(),
    {
        self.connector.send_command(command)
    }

    /// Sends a command followed by its data.
    fn command_with_data(&mut self, command: u8, data: &[u8]) -> (r: Result<()>)
        ensures
            final(self).faults() >= old(self).faults(),
            r is Ok <==> final(self).faults() == old(self).faults(),
            r is Err ==> r == Err::<(), Error>(final(self).last_error()) && final(self).last_error()
                != Error::BusyTimeout,
            r is Ok ==> final(self).ops() == old(self).ops() + seq![
                Op::Command(command),
                Op::Data(data@),
            ],
            r is Err ==> cut_short(old(self).ops(), final(self).ops(), seq![
                Op::Command(command),
                Op::Data(data@),
            ]),
    {
        send_command_with_data(&mut self.connector, command, data)
    }

    /// Panel setting: the flag word, most significant byte first.
    pub fn psr_panel_setting(&mut self, psr_flags: PSRFlags) -> (r: Result<()>)
        ensures
            final(self).faults() >= old(self).faults(),
            r is Ok <==> final(self).faults() == old(self).faults(),
            r is Err ==> r == Err::<(), Error>(final(self).last_error()) && final(self).last_error()
                != Error::BusyTimeout,
            r is Ok ==> final(self).ops() == old(self).ops() + seq![
                Op::Command(0x00),
                Op::Data(be_bytes(psr_flags.bits)),
            ],
            r is Err ==> cut_short(old(self).ops(), final(self).ops(), seq![
                Op::Command(0x00),
                Op::Data(be_bytes(psr_flags.bits)),
            ]),
    {
        let data = [(psr_flags.bits >> 8) as u8, (psr_flags.bits & 0xff) as u8];
        assert(data@ =~= be_bytes(psr_flags.bits));
        self.command_with_data(0x00, &data)
    }

    /// Power setting: the flag word, most significant byte first.
    pub fn pwr_power_setting(&mut self, pwr_flags: PWRFlags) -> (r: Result<()>)
        ensures
            final(self).faults() >= old(self).faults(),
            r is Ok <==> final(self).faults() == old(self).faults(),
            r is Err ==> r == Err::<(), Error>(final(self).last_error()) && final(self).last_error()
                != Error::BusyTimeout,
            r is Ok ==> final(self).ops() == old(self).ops() + seq![
                Op::Command(0x01),
                Op::Data(be_bytes(pwr_flags.bits)),
            ],
            r is Err ==> cut_short(old(self).ops(), final(self).ops(), seq![
                Op::Command(0x01),
                Op::Data(be_bytes(pwr_flags.bits)),
            ]),
    {
        let data = [(pwr_flags.bits >> 8) as u8, (pwr_flags.bits & 0xff) as u8];
        assert(data@ =~= be_bytes(pwr_flags.bits));
        self.command_with_data(0x01, &data)
    }

    /// Power off.
    pub fn pof_power_off(&mut self) -> (r: Result<()>)
        ensures
            final(self).faults() >= old(self).faults(),
            r is Ok <==> final(self).faults() == old(self).faults(),
            r is Err ==> r == Err::<(), Error>(final(self).last_error()) && final(self).last_error()
                != Error::BusyTimeout,
            r is Ok ==> final(self).ops() == old(self).ops().push(Op::Command(0x02)),
            r is Err ==> final(self).ops() == old(self).ops(),
    {
        self.command(0x02)
    }

    /// Power-off sequence: the flag byte.
    pub fn pfs_power_off_sequence_setting(&mut self, pfs_flags: PFSFlags) -> (r: Result<()>)
        ensures
            final(self).faults() >= old(self).faults(),
            r is Ok <==> final(self).faults() == old(self).faults(),
            r is Err ==> r == Err::<(), Error>(final(self).last_error()) && final(self).last_error()
                != Error::BusyTimeout,
            r is Ok ==> final(self).ops() == old(self).ops() + seq![
                Op::Command(0x03),
                Op::Data(seq![pfs_flags.bits]),
            ],
            r is Err ==> cut_short(old(self).ops(), final(self).ops(), seq![
                Op::Command(0x03),
                Op::Data(seq![pfs_flags.bits]),
            ]),
    {
        let data = [pfs_flags.bits];
        assert(data@ =~= seq![pfs_flags.bits]);
        self.command_with_data(0x03, &data)
    }

    /// Power on.
    pub fn pon_power_on(&mut self) -> (r: Result<()>)
        ensures
            final(self).faults() >= old(self).faults(),
            r is Ok <==> final(self).faults() == old(self).faults(),
            r is Err ==> r == Err::<(), Error>(final(self).last_error()) && final(self).last_error()
                != Error::BusyTimeout,
            r is Ok ==> final(self).ops() == old(self).ops().push(Op::Command(0x04)),
            r is Err ==> final(self).ops() == old(self).ops(),
    {
        self.command(0x04)
    }

    /// Booster soft start: the three phase settings.
    pub fn btst_booster_soft_start(&mut self, pha: u8, phb: u8, phc: u8) -> (r: Result<()>)
        ensures
            final(self).faults() >= old(self).faults(),
            r is Ok <==> final(self).faults() == old(self).faults(),
            r is Err ==> r == Err::<(), Error>(final(self).last_error()) && final(self).last_error()
                != Error::BusyTimeout,
            r is Ok ==> final(self).ops() == old(self).ops() + seq![
                Op::Command(0x06),
                Op::Data(seq![pha, phb, phc]),
            ],
            r is Err ==> cut_short(old(self).ops(), final(self).ops(), seq![
                Op::Command(0x06),
                Op::Data(seq![pha, phb, phc]),
            ]),
    {
        let data = [pha, phb, phc];
        assert(data@ =~= seq![pha, phb, phc]);
        self.command_with_data(0x06, &data)
    }

    /// Deep sleep, with its check byte.
    pub fn dslp_deep_sleep(&mut self) -> (r: Result<()>)
        ensures
            final(self).faults() >= old(self).faults(),
            r is Ok <==> final(self).faults() == old(self).faults(),
            r is Err ==> r == Err::<(), Error>(final(self).last_error()) && final(self).last_error()
                != Error::BusyTimeout,
            r is Ok ==> final(self).ops() == old(self).ops() + seq![
                Op::Command(0x07),
                Op::Data(seq![0xa5u8]),
            ],
            r is Err ==> cut_short(old(self).ops(), final(self).ops(), seq![
                Op::Command(0x07),
                Op::Data(seq![0xa5u8]),
            ]),
    {
        let data = [0xa5u8];
        assert(data@ =~= seq![0xa5u8]);
        self.command_with_data(0x07, &data)
    }

    /// Display refresh.
    pub fn drf_display_refresh(&mut self) -> (r: Result<()>)
        ensures
            final(self).faults() >= old(self).faults(),
            r is Ok <==> final(self).faults() == old(self).faults(),
            r is Err ==> r == Err::<(), Error>(final(self).last_error()) && final(self).last_error()
                != Error::BusyTimeout,
            r is Ok ==> final(self).ops() == old(self).ops().push(Op::Command(0x12)),
            r is Err ==> final(self).ops() == old(self).ops(),
    {
        self.command(0x12)
    }

    /// PLL control: the frame rate code.
    pub fn pll_control(&mut self, frame_rate_code: u8) -> (r: Result<()>)
        ensures
            final(self).faults() >= old(self).faults(),
            r is Ok <==> final(self).faults() == old(self).faults(),
            r is Err ==> r == Err::<(), Error>(final(self).last_error()) && final(self).last_error()
                != Error::BusyTimeout,
            r is Ok ==> final(self).ops() == old(self).ops() + seq![
                Op::Command(0x30),
                Op::Data(seq![frame_rate_code]),
            ],
            r is Err ==> cut_short(old(self).ops(), final(self).ops(), seq![
                Op::Command(0x30),
                Op::Data(seq![frame_rate_code]),
            ]),
    {
        let data = [frame_rate_code];
        assert(data@ =~= seq![frame_rate_code]);
        self.command_with_data(0x30, &data)
    }

    /// Image process: the enable bit (bit 4) over the line width (two bits).
    pub fn ipc_image_process(&mut self, enabled: bool, line_width: u8) -> (r: Result<()>)
        ensures
            final(self).faults() >= old(self).faults(),
            r is Ok <==> final(self).faults() == old(self).faults(),
            r is Err ==> r == Err::<(), Error>(final(self).last_error()) && final(self).last_error()
                != Error::BusyTimeout,
            r is Ok ==> final(self).ops() == old(self).ops() + seq![
                Op::Command(0x31),
                Op::Data(seq![(flag(enabled) << 4 | (line_width & 3)) as u8]),
            ],
            r is Err ==> cut_short(old(self).ops(), final(self).ops(), seq![
                Op::Command(0x31),
                Op::Data(seq![(flag(enabled) << 4 | (line_width & 3)) as u8]),
            ]),
    {
        let data = [(enabled as u8) << 4 | (line_width & 3)];
        assert(data@ =~= seq![(flag(enabled) << 4 | (line_width & 3)) as u8]);
        self.command_with_data(0x31, &data)
    }

    /// Temperature sensor calibration: the sensor selection (bit 7) over the
    /// offset (four bits).
    pub fn tse_temperature_sensor_calibration(&mut self, tse: bool, to: u8) -> (r: Result<()>)
        ensures
            final(self).faults() >= old(self).faults(),
            r is Ok <==> final(self).faults() == old(self).faults(),
            r is Err ==> r == Err::<(), Error>(final(self).last_error()) && final(self).last_error()
                != Error::BusyTimeout,
            r is Ok ==> final(self).ops() == old(self).ops() + seq![
                Op::Command(0x41),
                Op::Data(seq![(flag(tse) << 7 | (to & 0xf)) as u8]),
            ],
            r is Err ==> cut_short(old(self).ops(), final(self).ops(), seq![
                Op::Command(0x41),
                Op::Data(seq![(flag(tse) << 7 | (to & 0xf)) as u8]),
            ]),
    {
        let data = [(tse as u8) << 7 | (to & 0xf)];
        assert(data@ =~= seq![(flag(tse) << 7 | (to & 0xf)) as u8]);
        self.command_with_data(0x41, &data)
    }

    /// VCOM and data interval: border data (bits 5-7), data polarity (bit 4)
    /// and the interval (four bits).
    pub fn cdi_vcom_and_data_interval_settings(&mut self, vbd: u8, ddx: bool, cdi: u8) -> (r:
        Result<()>)
        ensures
            final(self).faults() >= old(self).faults(),
            r is Ok <==> final(self).faults() == old(self).faults(),
            r is Err ==> r == Err::<(), Error>(final(self).last_error()) && final(self).last_error()
                != Error::BusyTimeout,
            r is Ok ==> final(self).ops() == old(self).ops() + seq![
                Op::Command(0x50),
                Op::Data(seq![((vbd & 7) << 5 | flag(ddx) << 4 | cdi & 0xf) as u8]),
            ],
            r is Err ==> cut_short(old(self).ops(), final(self).ops(), seq![
                Op::Command(0x50),
                Op::Data(seq![((vbd & 7) << 5 | flag(ddx) << 4 | cdi & 0xf) as u8]),
            ]),
    {
        let data = [(vbd & 7) << 5 | (ddx as u8) << 4 | cdi & 0xf];
        assert(data@ =~= seq![((vbd & 7) << 5 | flag(ddx) << 4 | cdi & 0xf) as u8]);
        self.command_with_data(0x50, &data)
    }

    /// TCON: the source-to-gate and gate-to-source periods, one nibble each.
    pub fn tcon_setting(&mut self, s2g_g2s: u8) -> (r: Result<()>)
        ensures
            final(self).faults() >= old(self).faults(),
            r is Ok <==> final(self).faults() == old(self).faults(),
            r is Err ==> r == Err::<(), Error>(final(self).last_error()) && final(self).last_error()
                != Error::BusyTimeout,
            r is Ok ==> final(self).ops() == old(self).ops() + seq![
                Op::Command(0x60),
                Op::Data(seq![s2g_g2s]),
            ],
            r is Err ==> cut_short(old(self).ops(), final(self).ops(), seq![
                Op::Command(0x60),
                Op::Data(seq![s2g_g2s]),
            ]),
    {
        let data = [s2g_g2s];
        assert(data@ =~= seq![s2g_g2s]);
        self.command_with_data(0x60, &data)
    }

    /// Resolution: width then height, each most significant byte first.
    pub fn tres_resolution(&mut self, width: u16, height: u16) -> (r: Result<()>)
        ensures
            final(self).faults() >= old(self).faults(),
            r is Ok <==> final(self).faults() == old(self).faults(),
            r is Err ==> r == Err::<(), Error>(final(self).last_error()) && final(self).last_error()
                != Error::BusyTimeout,
            r is Ok ==> final(self).ops() == old(self).ops() + seq![
                Op::Command(0x61),
                Op::Data(be_bytes(width) + be_bytes(height)),
            ],
            r is Err ==> cut_short(old(self).ops(), final(self).ops(), seq![
                Op::Command(0x61),
                Op::Data(be_bytes(width) + be_bytes(height)),
            ]),
    {
        let data = [(width >> 8) as u8, (width & 0xff) as u8, (height >> 8) as u8, (height & 0xff) as u8];
        assert(data@ =~= be_bytes(width) + be_bytes(height));
        self.command_with_data(0x61, &data)
    }

    /// SPI flash control: whether the controller hands the flash bus over.
    pub fn dam_spi_flash_control(&mut self, dam: bool) -> (r: Result<()>)
        ensures
            final(self).faults() >= old(self).faults(),
            r is Ok <==> final(self).faults() == old(self).faults(),
            r is Err ==> r == Err::<(), Error>(final(self).last_error()) && final(self).last_error()
                != Error::BusyTimeout,
            r is Ok ==> final(self).ops() == old(self).ops() + seq![
                Op::Command(0x65),
                Op::Data(seq![flag(dam)]),
            ],
            r is Err ==> cut_short(old(self).ops(), final(self).ops(), seq![
                Op::Command(0x65),
                Op::Data(seq![flag(dam)]),
            ]),
    {
        let data = [dam as u8];
        assert(data@ =~= seq![flag(dam)]);
        self.command_with_data(0x65, &data)
    }

    /// VCOM DC level.
    pub fn vcom_dc_setting(&mut self, vv: u8) -> (r: Result<()>)
        ensures
            final(self).faults() >= old(self).faults(),
            r is Ok <==> final(self).faults() == old(self).faults(),
            r is Err ==> r == Err::<(), Error>(final(self).last_error()) && final(self).last_error()
                != Error::BusyTimeout,
            r is Ok ==> final(self).ops() == old(self).ops() + seq![
                Op::Command(0x82),
                Op::Data(seq![vv]),
            ],
            r is Err ==> cut_short(old(self).ops(), final(self).ops(), seq![
                Op::Command(0x82),
                Op::Data(seq![vv]),
            ]),
    {
        let data = [vv];
        assert(data@ =~= seq![vv]);
        self.command_with_data(0x82, &data)
    }

    /// Register 0xe5, which the vendor's sample code sets without
    /// explanation.
    pub fn define_flash(&mut self, value: u8) -> (r: Result<()>)
        ensures
            final(self).faults() >= old(self).faults(),
            r is Ok <==> final(self).faults() == old(self).faults(),
            r is Err ==> r == Err::<(), Error>(final(self).last_error()) && final(self).last_error()
                != Error::BusyTimeout,
            r is Ok ==> final(self).ops() == old(self).ops() + seq![
                Op::Command(0xe5),
                Op::Data(seq![value]),
            ],
            r is Err ==> cut_short(old(self).ops(), final(self).ops(), seq![
                Op::Command(0xe5),
                Op::Data(seq![value]),
            ]),
    {
        let data = [value];
        assert(data@ =~= seq![value]);
        self.command_with_data(0xe5, &data)
    }

    /// Image data.
    pub fn transmit(&mut self, data: &[u8]) -> (r: Result<()>)
        ensures
            final(self).faults() >= old(self).faults(),
            r is Ok <==> final(self).faults() == old(self).faults(),
            r is Err ==> r == Err::<(), Error>(final(self).last_error()) && final(self).last_error()
                != Error::BusyTimeout,
            r is Ok ==> final(self).ops() == old(self).ops() + seq![
                Op::Command(0x10),
                Op::Data(data@),
            ],
            r is Err ==> cut_short(old(self).ops(), final(self).ops(), seq![
                Op::Command(0x10),
                Op::Data(data@),
            ]),
    {
        self.command_with_data(0x10, data)
    }

    /// Image data, `repeats` bytes from `source`.
    pub fn transmit_with<F: Fn(u32) -> u8>(&mut self, repeats: u32, source: F) -> (r: Result<()>)
        requires
            forall|i: u32| i < repeats ==> source.requires((i,)),
        ensures
            final(self).faults() >= old(self).faults(),
            r is Ok <==> final(self).faults() == old(self).faults(),
            r is Err ==> r == Err::<(), Error>(final(self).last_error()) && final(self).last_error()
                != Error::BusyTimeout,
            r is Ok ==> exists|d: Seq<u8>|
                generated_by(d, repeats, source) && final(self).ops() == old(self).ops() + seq![
                    Op::Command(0x10),
                    Op::Data(d),
                ],
            r is Err ==> final(self).ops() == old(self).ops() || final(self).ops() == old(self).ops().push(
                Op::Command(0x10),
            ),
    {
        self.connector.send_command(0x10)?;
        let ghost mid = self.connector.ops();
        self.connector.send_data_with(repeats, source)?;
        let ghost d = choose|d: Seq<u8>|
            generated_by(d, repeats, source) && self.connector.ops() == mid.push(Op::Data(d));
        assert(self.ops() =~= old(self).ops() + seq![Op::Command(0x10), Op::Data(d)]);
        Ok(())
    }

    /// Flash data.
    pub fn flash_data(&mut self) -> (r: Result<()>)
        ensures
            final(self).faults() >= old(self).faults(),
            r is Ok <==> final(self).faults() == old(self).faults(),
            r is Err ==> r == Err::<(), Error>(final(self).last_error()) && final(self).last_error()
                != Error::BusyTimeout,
            r is Ok ==> final(self).ops() == old(self).ops().push(Op::Command(0xb9)),
            r is Err ==> final(self).ops() == old(self).ops(),
    {
        self.command(0xb9)
    }

    /// Waits until the panel is ready: sends the status command once, then,
    /// while the panel reports busy, pauses 100 ms. Gives up after
    /// `MAX_BUSY_POLLS` busy readings; stops at the first failure.
    pub fn await_ready_state(&mut self) -> (r: Result<()>)
        ensures
            final(self).faults() >= old(self).faults(),
            r is Ok ==> final(self).faults() == old(self).faults() && exists|busy: nat|
                busy <= MAX_BUSY_POLLS && final(self).ops() == old(self).ops() + busy_wait(busy),
            final(self).faults() == old(self).faults() && r is Err ==> r == Err::<(), Error>(
                Error::BusyTimeout,
            ) && final(self).ops() == old(self).ops() + busy_pauses(MAX_BUSY_POLLS as nat).push(
                Op::Busy(true),
            ),
            final(self).faults() != old(self).faults() ==> r == Err::<(), Error>(final(self).last_error())
                && final(self).last_error() != Error::BusyTimeout,
            final(self).faults() != old(self).faults() ==> r is Err && exists|busy: nat|
                cut_short(old(self).ops(), final(self).ops(), busy_pauses(busy)),
    {
        match self.command(0x71) {
            Ok(()) => {},
            Err(e) => {
                proof {
                    lemma_cut_short(old(self).ops(), busy_pauses(0), 0);
                    assert(self.ops() =~= old(self).ops() + busy_pauses(0).take(0));
                }
                return Err(e);
            },
        }
        assert(self.ops() =~= old(self).ops() + busy_pauses(0));
        let mut polls: u32 = 0;
        loop
            invariant
                self.ops() == old(self).ops() + busy_pauses(polls as nat),
                self.faults() == old(self).faults(),
            decreases MAX_BUSY_POLLS - polls,
        {
            let ghost done = busy_pauses(polls as nat);
            let ghost next = busy_pauses((polls + 1) as nat);
            let ghost n = done.len() as int;
            assert(next == done + seq![Op::Busy(true), Op::Delay(100)]);
            let busy = match self.connector.is_busy() {
                Ok(b) => b,
                Err(e) => {
                    proof {
                        lemma_cut_short(old(self).ops(), next, n);
                        assert(self.ops() =~= old(self).ops() + next.take(n));
                    }
                    return Err(e);
                },
            };
            match poll_step(busy, polls) {
                Some(r) => {
                    assert(self.ops() =~= old(self).ops() + done.push(Op::Busy(busy)));
                    if !busy {
                        assert(self.ops() == old(self).ops() + busy_wait(polls as nat));
                    }
                    return r;
                },
                None => {},
            }
            match self.connector.delay_ms(100) {
                Ok(()) => {},
                Err(e) => {
                    proof {
                        lemma_cut_short(old(self).ops(), next, n + 1);
                        assert(self.ops() =~= old(self).ops() + next.take(n + 1));
                    }
                    return Err(e);
                },
            }
            polls = polls + 1;
            assert(self.ops() =~= old(self).ops() + busy_pauses(polls as nat));
        }
    }
}

} // verus!
