//! The command set of the tri-colour controller of the second panel
//! generation: one method per register, each sending its opcode and the
//! register's bytes.
use vstd::prelude::*;

use crate::display_connector::{
    cut_short, generated_by, lemma_cut_short, poll_step, send_command_with_data, DisplayConnector,
    Error, Op, Result, MAX_BUSY_POLLS,
};

verus! {

/// Panel-setting flags.
#[derive(Debug, Clone, Copy, PartialEq, Eq, Structural)]
pub struct PSRFlags {
    pub bits: u8,
}

impl PSRFlags {
    pub const REG: u8 = 0b0010_0000;
    pub const KW_R: u8 = 0b0001_0000;
    pub const UD: u8 = 0b0000_1000;
    pub const SHL: u8 = 0b0000_0100;
    pub const SHD_N: u8 = 0b0000_0010;
    pub const RST_N: u8 = 0b0000_0001;

    pub fn from_bits(bits: u8) -> (r: PSRFlags)
        ensures
            r.bits == bits,
    {
        PSRFlags { bits }
    }

    /// The flags set in either.
    pub fn union(self, other: PSRFlags) -> (r: PSRFlags)
        ensures
            r.bits == self.bits | other.bits,
    {
        PSRFlags { bits: self.bits | other.bits }
    }
}

/// Power-setting flags and gate voltage level.
#[derive(Debug, Clone, Copy, PartialEq, Eq, Structural)]
pub struct PWRFlags {
    pub bits: u16,
}

impl PWRFlags {
    pub const BD_EN: u16 = 0b0001_0000_0000_0000;
    pub const VSR_EN: u16 = 0b0000_0100_0000_0000;
    pub const VS_EN: u16 = 0b0000_0010_0000_0000;
    pub const VG_EN: u16 = 0b0000_0001_0000_0000;
    pub const VPP_EN: u16 = 0b0000_0000_1000_0000;
    pub const VCOM_SLEW: u16 = 0b0000_0000_0001_0000;
    pub const VG_LVL_9V: u16 = 0b0000_0000_0000_0000;
    pub const VG_LVL_10V: u16 = 0b0000_0000_0000_0001;
    pub const VG_LVL_11V: u16 = 0b0000_0000_0000_0010;
    pub const VG_LVL_12V: u16 = 0b0000_0000_0000_0011;
    pub const VG_LVL_17V: u16 = 0b0000_0000_0000_0100;
    pub const VG_LVL_18V: u16 = 0b0000_0000_0000_0101;
    pub const VG_LVL_19V: u16 = 0b0000_0000_0000_0110;
    pub const VG_LVL_20V: u16 = 0b0000_0000_0000_0111;

    pub fn from_bits(bits: u16) -> (r: PWRFlags)
        ensures
            r.bits == bits,
    {
        PWRFlags { bits }
    }

    /// The flags set in either.
    pub fn union(self, other: PWRFlags) -> (r: PWRFlags)
        ensures
            r.bits == self.bits | other.bits,
    {
        PWRFlags { bits: self.bits | other.bits }
    }
}

/// One for `true`, zero for `false`.
pub open spec fn flag(b: bool) -> u8 {
    if b {
        1
    } else {
        0
    }
}

/// The register code of a supply level given in millivolts.
fn level_code(millivolts: i32) -> (r: u8)
    requires
        2400 <= millivolts <= 15000,
    ensures
        r == voltage_code(millivolts as int),
{
    let steps = ((millivolts - 2300) as u32) / 200;
    (steps as u8) & 0x3f
}

/// The two bytes of `v`, most significant first.
pub open spec fn be_bytes(v: u16) -> Seq<u8> {
    seq![(v >> 8) as u8, (v & 0xff) as u8]
}

/// The 6-bit register code of a supply level of `millivolts` (2.4 V to
/// 15 V in steps of 0.2 V): the nearest step above 2.4 V, halves rounding up.
pub open spec fn voltage_code(millivolts: int) -> u8 {
    (((millivolts - 2300) / 200) as u8) & 0x3f
}

/// A supply level in the accepted range gets a code that fits its six bits,
/// and a higher level never gets a lower code.
pub proof fn lemma_voltage_code_monotonic(lower_millivolts: int, higher_millivolts: int)
    requires
        2400 <= lower_millivolts <= higher_millivolts <= 15000,
    ensures
        voltage_code(lower_millivolts) <= 63,
        voltage_code(higher_millivolts) <= 63,
        voltage_code(lower_millivolts) <= voltage_code(higher_millivolts),
{
    lemma_voltage_code_steps(lower_millivolts);
    lemma_voltage_code_steps(higher_millivolts);
    vstd::arithmetic::div_mod::lemma_div_is_ordered(lower_millivolts - 2300, higher_millivolts - 2300, 200);
}

/// In the accepted range, the code is the number of whole steps, the mask
/// aside.
pub proof fn lemma_voltage_code_steps(millivolts: int)
    requires
        2400 <= millivolts <= 15000,
    ensures
        voltage_code(millivolts) == (millivolts - 2300) / 200,
        0 <= (millivolts - 2300) / 200 <= 63,
{
    let steps = (millivolts - 2300) / 200;
    vstd::arithmetic::div_mod::lemma_div_is_ordered(100, millivolts - 2300, 200);
    vstd::arithmetic::div_mod::lemma_div_is_ordered(millivolts - 2300, 12700, 200);
    assert(100int / 200 == 0);
    assert(12700int / 200 == 63);
    let b = steps as u8;
    assert(b & 0x3f == b) by (bit_vector)
        requires
            b <= 63,
    ;
}

/// The operations of a wait for readiness up to its next reading: a status
/// command, then for each of `busy` busy readings the reading, a pause of
/// 100 ms and another status command.
pub open spec fn status_polls(busy: nat) -> Seq<Op>
    decreases busy,
{
    if busy == 0 {
        seq![Op::Command(0x71)]
    } else {
        status_polls((busy - 1) as nat) + seq![Op::Busy(true), Op::Delay(100), Op::Command(0x71)]
    }
}

/// A whole wait that found the panel ready after `busy` busy readings.
pub open spec fn status_wait(busy: nat) -> Seq<Op> {
    status_polls(busy).push(Op::Busy(false))
}

pub struct GD7965<T: DisplayConnector> {
    connector: T,
}

impl<T: DisplayConnector> GD7965<T> {
    /// What has been sent to the panel so far.
    pub closed spec fn ops(&self) -> Seq<Op> {
        self.connector.ops()
    }

    /// How many operations on the wiring have failed so far.
    pub closed spec fn faults(&self) -> nat {
        self.connector.faults()
    }

    /// The error that the connector's most recent failing operation returned.
    pub closed spec fn last_error(&self) -> Error {
        self.connector.last_error()
    }

    /// The connector underneath.
    pub closed spec fn link(&self) -> T {
        self.connector
    }

    pub fn new(connector: T) -> (r: GD7965<T>)
        ensures
            r.ops() == connector.ops(),
            r.link() == connector,
    {
        GD7965 { connector }
    }

    pub fn connector(&self) -> (r: &T)
        ensures
            *r == self.link(),
            r.ops() == self.ops(),
    {
        &self.connector
    }

    pub fn reset(&mut self) -> (r: Result<()>)
        ensures
            final(self).faults() >= old(self).faults(),
            r is Ok <==> final(self).faults() == old(self).faults(),
            r is Err ==> r == Err::<(), Error>(final(self).last_error()) && final(self).last_error()
                != Error::BusyTimeout,
            r is Ok ==> final(self).ops() == old(self).ops().push(Op::Reset),
            r is Err ==> final(self).ops() == old(self).ops(),
    {
        self.connector.reset()
    }

    /// Sends a command that takes no data.
    fn command(&mut self, command: u8) -> (r: Result<()>)
        ensures
            final(self).faults() >= old(self).faults(),
            r is Ok <==> final(self).faults() == old(self).faults(),
            r is Err ==> r == Err::<(), Error>(final(self).last_error()) && final(self).last_error()
                != Error::BusyTimeout,
            r is Ok ==> final(self).ops() == old(self).ops().push(Op::Command(command)),
            r is Err ==> final(self).ops() == old(self).ops(),
    {
        self.connector.send_command(command)
    }

    /// Sends a command followed by its data.
    fn command_with_data(&mut self, command: u8, data: &[u8]) -> (r: Result<()>)
        ensures
            final(self).faults() >= old(self).faults(),
            r is Ok <==> final(self).faults() == old(self).faults(),
            r is Err ==> r == Err::<(), Error>(final(self).last_error()) && final(self).last_error()
                != Error::BusyTimeout,
            r is Ok ==> final(self).ops() == old(self).ops() + seq![
                Op::Command(command),
                Op::Data(data@),
            ],
            r is Err ==> cut_short(old(self).ops(), final(self).ops(), seq![
                Op::Command(command),
                Op::Data(data@),
            ]),
    {
        send_command_with_data(&mut self.connector, command, data)
    }

    /// Panel setting: the flag byte.
    pub fn psr_panel_setting(&mut self, psr_flags: PSRFlags) -> (r: Result<()>)
        ensures
            final(self).faults() >= old(self).faults(),
            r is Ok <==> final(self).faults() == old(self).faults(),
            r is Err ==> r == Err::<(), Error>(final(self).last_error()) && final(self).last_error()
                != Error::BusyTimeout,
            r is Ok ==> final(self).ops() == old(self).ops() + seq![
                Op::Command(0x00),
                Op::Data(seq![psr_flags.bits]),
            ],
            r is Err ==> cut_short(old(self).ops(), final(self).ops(), seq![
                Op::Command(0x00),
                Op::Data(seq![psr_flags.bits]),
            ]),
    {
        let data = [psr_flags.bits];
        assert(data@ =~= seq![psr_flags.bits]);
        self.command_with_data(0x00, &data)
    }

    /// Power setting: one block of the flag word, most significant byte
    /// first, then the codes of the positive source, negative source and red
    /// source levels.
    pub fn pwr_power_setting(
        &mut self,
        pwr_flags: PWRFlags,
        vdh_lvl_millivolts: i32,
        vdl_lvl_millivolts: i32,
        vdhr_lvl_millivolts: i32,
    ) -> (r: Result<()>)
        requires
            2400 <= vdh_lvl_millivolts <= 15000,
            -15000 <= vdl_lvl_millivolts <= -2400,
            2400 <= vdhr_lvl_millivolts <= 15000,
        ensures
            final(self).faults() >= old(self).faults(),
            r is Ok <==> final(self).faults() == old(self).faults(),
            r is Err ==> r == Err::<(), Error>(final(self).last_error()) && final(self).last_error()
                != Error::BusyTimeout,
            r is Ok ==> final(self).ops() == old(self).ops() + seq![
                Op::Command(0x01),
                Op::Data(
                    be_bytes(pwr_flags.bits) + seq![
                        voltage_code(vdh_lvl_millivolts as int),
                        voltage_code(-vdl_lvl_millivolts),
                        voltage_code(vdhr_lvl_millivolts as int),
                    ],
                ),
            ],
            r is Err ==> cut_short(old(self).ops(), final(self).ops(), seq![
                Op::Command(0x01),
                Op::Data(
                    be_bytes(pwr_flags.bits) + seq![
                        voltage_code(vdh_lvl_millivolts as int),
                        voltage_code(-vdl_lvl_millivolts),
                        voltage_code(vdhr_lvl_millivolts as int),
                    ],
                ),
            ]),
    {
        let vdh_lvl = level_code(vdh_lvl_millivolts);
        let vdl_lvl = level_code(-vdl_lvl_millivolts);
        let vdhr_lvl = level_code(vdhr_lvl_millivolts);
        let data = [
            (pwr_flags.bits >> 8) as u8,
            (pwr_flags.bits & 0xff) as u8,
            vdh_lvl,
            vdl_lvl,
            vdhr_lvl,
        ];
        assert(data@ =~= be_bytes(pwr_flags.bits) + seq![
            voltage_code(vdh_lvl_millivolts as int),
            voltage_code(-vdl_lvl_millivolts),
            voltage_code(vdhr_lvl_millivolts as int),
        ]);
        self.command_with_data(0x01, &data)
    }

    /// Power off.
    pub fn pof_power_off(&mut self) -> (r: Result<()>)
        ensures
            final(self).faults() >= old(self).faults(),
            r is Ok <==> final(self).faults() == old(self).faults(),
            r is Err ==> r == Err::<(), Error>(final(self).last_error()) && final(self).last_error()
                != Error::BusyTimeout,
            r is Ok ==> final(self).ops() == old(self).ops().push(Op::Command(0x02)),
            r is Err ==> final(self).ops() == old(self).ops(),
    {
        self.command(0x02)
    }

    /// Power-off sequence: the source-off delay, two bits at bits 4 and 5.
    pub fn pfs_power_off_sequence_setting(&mut self, t_vds_off: u8) -> (r: Result<()>)
        ensures
            final(self).faults() >= old(self).faults(),
            r is Ok <==> final(self).faults() == old(self).faults(),
            r is Err ==> r == Err::<(), Error>(final(self).last_error()) && final(self).last_error()
                != Error::BusyTimeout,
            r is Ok ==> final(self).ops() == old(self).ops() + seq![
                Op::Command(0x03),
                Op::Data(seq![((t_vds_off & 3) << 4) as u8]),
            ],
            r is Err ==> cut_short(old(self).ops(), final(self).ops(), seq![
                Op::Command(0x03),
                Op::Data(seq![((t_vds_off & 3) << 4) as u8]),
            ]),
    {
        let data = [(t_vds_off & 3) << 4];
        assert(data@ =~= seq![((t_vds_off & 3) << 4) as u8]);
        self.command_with_data(0x03, &data)
    }

    /// Power on.
    pub fn pon_power_on(&mut self) -> (r: Result<()>)
        ensures
            final(self).faults() >= old(self).faults(),
            r is Ok <==> final(self).faults() == old(self).faults(),
            r is Err ==> r == Err::<(), Error>(final(self).last_error()) && final(self).last_error()
                != Error::BusyTimeout,
            r is Ok ==> final(self).ops() == old(self).ops().push(Op::Command(0x04)),
            r is Err ==> final(self).ops() == old(self).ops(),
    {
        self.command(0x04)
    }

    /// Booster soft start: the three phase settings, then the enable bit of
    /// the second C phase (bit 7) over its setting.
    pub fn btst_booster_soft_start(&mut self, pha: u8, phb: u8, phc: u8, phc2en: bool, phc2: u8) -> (r:
        Result<()>)
        ensures
            final(self).faults() >= old(self).faults(),
            r is Ok <==> final(self).faults() == old(self).faults(),
            r is Err ==> r == Err::<(), Error>(final(self).last_error()) && final(self).last_error()
                != Error::BusyTimeout,
            r is Ok ==> final(self).ops() == old(self).ops() + seq![
                Op::Command(0x06),
                Op::Data(seq![pha, phb, phc, (flag(phc2en) << 7 | phc2) as u8]),
            ],
            r is Err ==> cut_short(old(self).ops(), final(self).ops(), seq![
                Op::Command(0x06),
                Op::Data(seq![pha, phb, phc, (flag(phc2en) << 7 | phc2) as u8]),
            ]),
    {
        let data = [pha, phb, phc, (phc2en as u8) << 7 | phc2];
        assert(data@ =~= seq![pha, phb, phc, (flag(phc2en) << 7 | phc2) as u8]);
        self.command_with_data(0x06, &data)
    }

    /// Deep sleep, with its check byte.
    pub fn dslp_deep_sleep(&mut self) -> (r: Result<()>)
        ensures
            final(self).faults() >= old(self).faults(),
            r is Ok <==> final(self).faults() == old(self).faults(),
            r is Err ==> r == Err::<(), Error>(final(self).last_error()) && final(self).last_error()
                != Error::BusyTimeout,
            r is Ok ==> final(self).ops() == old(self).ops() + seq![
                Op::Command(0x07),
                Op::Data(seq![0xa5u8]),
            ],
            r is Err ==> cut_short(old(self).ops(), final(self).ops(), seq![
                Op::Command(0x07),
                Op::Data(seq![0xa5u8]),
            ]),
    {
        let data = [0xa5];
        assert(data@ =~= seq![0xa5u8]);
        self.command_with_data(0x07, &data)
    }

    /// Dual SPI mode: the MM input enable at bit 5, dual SPI at bit 4.
    pub fn duspi_dual_spi_mode(&mut self, mm_en: bool, duspi_en: bool) -> (r: Result<()>)
        ensures
            final(self).faults() >= old(self).faults(),
            r is Ok <==> final(self).faults() == old(self).faults(),
            r is Err ==> r == Err::<(), Error>(final(self).last_error()) && final(self).last_error()
                != Error::BusyTimeout,
            r is Ok ==> final(self).ops() == old(self).ops() + seq![
                Op::Command(0x15),
                Op::Data(seq![(flag(mm_en) << 5 | flag(duspi_en) << 4) as u8]),
            ],
            r is Err ==> cut_short(old(self).ops(), final(self).ops(), seq![
                Op::Command(0x15),
                Op::Data(seq![(flag(mm_en) << 5 | flag(duspi_en) << 4) as u8]),
            ]),
    {
        let data = [(mm_en as u8) << 5 | (duspi_en as u8) << 4];
        assert(data@ =~= seq![(flag(mm_en) << 5 | flag(duspi_en) << 4) as u8]);
        self.command_with_data(0x15, &data)
    }

    /// Display refresh.
    pub fn drf_display_refresh(&mut self) -> (r: Result<()>)
        ensures
            final(self).faults() >= old(self).faults(),
            r is Ok <==> final(self).faults() == old(self).faults(),
            r is Err ==> r == Err::<(), Error>(final(self).last_error()) && final(self).last_error()
                != Error::BusyTimeout,
            r is Ok ==> final(self).ops() == old(self).ops().push(Op::Command(0x12)),
            r is Err ==> final(self).ops() == old(self).ops(),
    {
        self.command(0x12)
    }

    /// PLL control: the frame rate code.
    pub fn pll_control(&mut self, frs: u8) -> (r: Result<()>)
        ensures
            final(self).faults() >= old(self).faults(),
            r is Ok <==> final(self).faults() == old(self).faults(),
            r is Err ==> r == Err::<(), Error>(final(self).last_error()) && final(self).last_error()
                != Error::BusyTimeout,
            r is Ok ==> final(self).ops() == old(self).ops() + seq![
                Op::Command(0x30),
                Op::Data(seq![frs]),
            ],
            r is Err ==> cut_short(old(self).ops(), final(self).ops(), seq![
                Op::Command(0x30),
                Op::Data(seq![frs]),
            ]),
    {
        let data = [frs];
        assert(data@ =~= seq![frs]);
        self.command_with_data(0x30, &data)
    }

    /// VCOM and data interval: border Hi-Z (bit 7), border level (bits 4-5),
    /// copy of new to old (bit 3) and data polarity (bits 0-1), then the
    /// interval (three bits).
    pub fn cdi_vcom_and_data_interval_settings(
        &mut self,
        bdz: bool,
        bdv: u8,
        n2ocp: bool,
        ddx: u8,
        cdi: u8,
    ) -> (r: Result<()>)
        ensures
            final(self).faults() >= old(self).faults(),
            r is Ok <==> final(self).faults() == old(self).faults(),
            r is Err ==> r == Err::<(), Error>(final(self).last_error()) && final(self).last_error()
                != Error::BusyTimeout,
            r is Ok ==> final(self).ops() == old(self).ops() + seq![
                Op::Command(0x50),
                Op::Data(
                    seq![
                        (flag(bdz) << 7 | (bdv & 3) << 4 | flag(n2ocp) << 3 | ddx & 3) as u8,
                        cdi & 7,
                    ],
                ),
            ],
            r is Err ==> cut_short(old(self).ops(), final(self).ops(), seq![
                Op::Command(0x50),
                Op::Data(
                    seq![
                        (flag(bdz) << 7 | (bdv & 3) << 4 | flag(n2ocp) << 3 | ddx & 3) as u8,
                        cdi & 7,
                    ],
                ),
            ]),
    {
        let data = [(bdz as u8) << 7 | (bdv & 3) << 4 | (n2ocp as u8) << 3 | ddx & 3, cdi & 7];
        assert(data@ =~= seq![
            (flag(bdz) << 7 | (bdv & 3) << 4 | flag(n2ocp) << 3 | ddx & 3) as u8,
            cdi & 7,
        ]);
        self.command_with_data(0x50, &data)
    }

    /// TCON: source-to-gate (bits 4-6) and gate-to-source (bits 0-2)
    /// non-overlap periods.
    pub fn tcon_setting(&mut self, s2g: u8, g2s: u8) -> (r: Result<()>)
        ensures
            final(self).faults() >= old(self).faults(),
            r is Ok <==> final(self).faults() == old(self).faults(),
            r is Err ==> r == Err::<(), Error>(final(self).last_error()) && final(self).last_error()
                != Error::BusyTimeout,
            r is Ok ==> final(self).ops() == old(self).ops() + seq![
                Op::Command(0x60),
                Op::Data(seq![((s2g & 7) << 4 | g2s & 7) as u8]),
            ],
            r is Err ==> cut_short(old(self).ops(), final(self).ops(), seq![
                Op::Command(0x60),
                Op::Data(seq![((s2g & 7) << 4 | g2s & 7) as u8]),
            ]),
    {
        let data = [(s2g & 7) << 4 | g2s & 7];
        assert(data@ =~= seq![((s2g & 7) << 4 | g2s & 7) as u8]);
        self.command_with_data(0x60, &data)
    }

    /// Resolution: width then height, each most significant byte first.
    pub fn tres_resolution(&mut self, width: u16, height: u16) -> (r: Result<()>)
        ensures
            final(self).faults() >= old(self).faults(),
            r is Ok <==> final(self).faults() == old(self).faults(),
            r is Err ==> r == Err::<(), Error>(final(self).last_error()) && final(self).last_error()
                != Error::BusyTimeout,
            r is Ok ==> final(self).ops() == old(self).ops() + seq![
                Op::Command(0x61),
                Op::Data(be_bytes(width) + be_bytes(height)),
            ],
            r is Err ==> cut_short(old(self).ops(), final(self).ops(), seq![
                Op::Command(0x61),
                Op::Data(be_bytes(width) + be_bytes(height)),
            ]),
    {
        let data = [(width >> 8) as u8, (width & 0xff) as u8, (height >> 8) as u8, (height & 0xff) as u8];
        assert(data@ =~= be_bytes(width) + be_bytes(height));
        self.command_with_data(0x61, &data)
    }

    /// Gate/source start: the horizontal start (two bits, then a byte masked
    /// with 0xf1) and the vertical start (two bits, then a byte).
    pub fn gss_gate_source_start_setting(&mut self, hst: u16, vst: u16) -> (r: Result<()>)
        ensures
            final(self).faults() >= old(self).faults(),
            r is Ok <==> final(self).faults() == old(self).faults(),
            r is Err ==> r == Err::<(), Error>(final(self).last_error()) && final(self).last_error()
                != Error::BusyTimeout,
            r is Ok ==> final(self).ops() == old(self).ops() + seq![
                Op::Command(0x65),
                Op::Data(
                    seq![
                        (0x3 & (hst >> 8) as u8) as u8,
                        (0xf1 & hst as u8) as u8,
                        (0x3 & (vst >> 8) as u8) as u8,
                        vst as u8,
                    ],
                ),
            ],
            r is Err ==> cut_short(old(self).ops(), final(self).ops(), seq![
                Op::Command(0x65),
                Op::Data(
                    seq![
                        (0x3 & (hst >> 8) as u8) as u8,
                        (0xf1 & hst as u8) as u8,
                        (0x3 & (vst >> 8) as u8) as u8,
                        vst as u8,
                    ],
                ),
            ]),
    {
        let data = [0x3 & (hst >> 8) as u8, 0xf1 & hst as u8, 0x3 & (vst >> 8) as u8, vst as u8];
        assert(data@ =~= seq![
            (0x3 & (hst >> 8) as u8) as u8,
            (0xf1 & hst as u8) as u8,
            (0x3 & (vst >> 8) as u8) as u8,
            vst as u8,
        ]);
        self.command_with_data(0x65, &data)
    }

    /// VCOM DC level.
    pub fn vcom_dc_setting(&mut self, vdcs: u8) -> (r: Result<()>)
        ensures
            final(self).faults() >= old(self).faults(),
            r is Ok <==> final(self).faults() == old(self).faults(),
            r is Err ==> r == Err::<(), Error>(final(self).last_error()) && final(self).last_error()
                != Error::BusyTimeout,
            r is Ok ==> final(self).ops() == old(self).ops() + seq![
                Op::Command(0x82),
                Op::Data(seq![vdcs]),
            ],
            r is Err ==> cut_short(old(self).ops(), final(self).ops(), seq![
                Op::Command(0x82),
                Op::Data(seq![vdcs]),
            ]),
    {
        let data = [vdcs];
        assert(data@ =~= seq![vdcs]);
        self.command_with_data(0x82, &data)
    }

    /// Image data for the first plane.
    pub fn transmit(&mut self, data: &[u8]) -> (r: Result<()>)
        ensures
            final(self).faults() >= old(self).faults(),
            r is Ok <==> final(self).faults() == old(self).faults(),
            r is Err ==> r == Err::<(), Error>(final(self).last_error()) && final(self).last_error()
                != Error::BusyTimeout,
            r is Ok ==> final(self).ops() == old(self).ops() + seq![
                Op::Command(0x10),
                Op::Data(data@),
            ],
            r is Err ==> cut_short(old(self).ops(), final(self).ops(), seq![
                Op::Command(0x10),
                Op::Data(data@),
            ]),
    {
        self.command_with_data(0x10, data)
    }

    /// Image data for the first plane, `repeats` bytes from `source`.
    pub fn transmit_with<F: Fn(u32) -> u8>(&mut self, repeats: u32, source: F) -> (r: Result<()>)
        requires
            forall|i: u32| i < repeats ==> source.requires((i,)),
        ensures
            final(self).faults() >= old(self).faults(),
            r is Ok <==> final(self).faults() == old(self).faults(),
            r is Err ==> r == Err::<(), Error>(final(self).last_error()) && final(self).last_error()
                != Error::BusyTimeout,
            r is Ok ==> exists|d: Seq<u8>|
                generated_by(d, repeats, source) && final(self).ops() == old(self).ops() + seq![
                    Op::Command(0x10),
                    Op::Data(d),
                ],
            r is Err ==> final(self).ops() == old(self).ops() || final(self).ops() == old(self).ops().push(
                Op::Command(0x10),
            ),
    {
        self.stream(0x10, repeats, source)
    }

    /// Image data for the second plane, `repeats` bytes from `source`.
    pub fn transmit_with2<F: Fn(u32) -> u8>(&mut self, repeats: u32, source: F) -> (r: Result<()>)
        requires
            forall|i: u32| i < repeats ==> source.requires((i,)),
        ensures
            final(self).faults() >= old(self).faults(),
            r is Ok <==> final(self).faults() == old(self).faults(),
            r is Err ==> r == Err::<(), Error>(final(self).last_error()) && final(self).last_error()
                != Error::BusyTimeout,
            r is Ok ==> exists|d: Seq<u8>|
                generated_by(d, repeats, source) && final(self).ops() == old(self).ops() + seq![
                    Op::Command(0x13),
                    Op::Data(d),
                ],
            r is Err ==> final(self).ops() == old(self).ops() || final(self).ops() == old(self).ops().push(
                Op::Command(0x13),
            ),
    {
        self.stream(0x13, repeats, source)
    }

    /// Sends `command`, then `repeats` bytes from `source` as one block.
    fn stream<F: Fn(u32) -> u8>(&mut self, command: u8, repeats: u32, source: F) -> (r: Result<()>)
        requires
            forall|i: u32| i < repeats ==> source.requires((i,)),
        ensures
            final(self).faults() >= old(self).faults(),
            r is Ok <==> final(self).faults() == old(self).faults(),
            r is Err ==> r == Err::<(), Error>(final(self).last_error()) && final(self).last_error()
                != Error::BusyTimeout,
            r is Ok ==> exists|d: Seq<u8>|
                generated_by(d, repeats, source) && final(self).ops() == old(self).ops() + seq![
                    Op::Command(command),
                    Op::Data(d),
                ],
            r is Err ==> final(self).ops() == old(self).ops() || final(self).ops() == old(self).ops().push(
                Op::Command(command),
            ),
    {
        self.connector.send_command(command)?;
        let ghost mid = self.connector.ops();
        self.connector.send_data_with(repeats, source)?;
        let ghost d = choose|d: Seq<u8>|
            generated_by(d, repeats, source) && self.connector.ops() == mid.push(Op::Data(d));
        assert(self.ops() =~= old(self).ops() + seq![Op::Command(command), Op::Data(d)]);
        Ok(())
    }

    /// Flash data.
    pub fn flash_data(&mut self) -> (r: Result<()>)
        ensures
            final(self).faults() >= old(self).faults(),
            r is Ok <==> final(self).faults() == old(self).faults(),
            r is Err ==> r == Err::<(), Error>(final(self).last_error()) && final(self).last_error()
                != Error::BusyTimeout,
            r is Ok ==> final(self).ops() == old(self).ops().push(Op::Command(0xb9)),
            r is Err ==> final(self).ops() == old(self).ops(),
    {
        self.command(0xb9)
    }

    /// Waits until the panel is ready: sends the status command, then, while
    /// the panel reports busy, pauses 100 ms and sends it again. Gives up
    /// after `MAX_BUSY_POLLS` busy readings; stops at the first failure.
    pub fn await_ready_state(&mut self) -> (r: Result<()>)
        ensures
            final(self).faults() >= old(self).faults(),
            r is Ok ==> final(self).faults() == old(self).faults() && exists|busy: nat|
                busy <= MAX_BUSY_POLLS && final(self).ops() == old(self).ops() + status_wait(busy),
            final(self).faults() == old(self).faults() && r is Err ==> r == Err::<(), Error>(
                Error::BusyTimeout,
            ) && final(self).ops() == old(self).ops() + status_polls(MAX_BUSY_POLLS as nat).push(
                Op::Busy(true),
            ),
            final(self).faults() != old(self).faults() ==> r == Err::<(), Error>(final(self).last_error())
                && final(self).last_error() != Error::BusyTimeout,
            final(self).faults() != old(self).faults() ==> r is Err && exists|busy: nat|
                cut_short(old(self).ops(), final(self).ops(), status_polls(busy)),
    {
        match self.command(0x71) {
            Ok(()) => {},
            Err(e) => {
                proof {
                    lemma_cut_short(old(self).ops(), status_polls(0), 0);
                    assert(self.ops() =~= old(self).ops() + status_polls(0).take(0));
                }
                return Err(e);
            },
        }
        assert(self.ops() =~= old(self).ops() + status_polls(0));
        let mut polls: u32 = 0;
        loop
            invariant
                self.ops() == old(self).ops() + status_polls(polls as nat),
                self.faults() == old(self).faults(),
            decreases MAX_BUSY_POLLS - polls,
        {
            let ghost done = status_polls(polls as nat);
            let ghost next = status_polls((polls + 1) as nat);
            let ghost n = done.len() as int;
            assert(next == done + seq![Op::Busy(true), Op::Delay(100), Op::Command(0x71)]);
            let busy = match self.connector.is_busy() {
                Ok(b) => b,
                Err(e) => {
                    proof {
                        lemma_cut_short(old(self).ops(), next, n);
                        assert(self.ops() =~= old(self).ops() + next.take(n));
                    }
                    return Err(e);
                },
            };
            match poll_step(busy, polls) {
                Some(r) => {
                    assert(self.ops() =~= old(self).ops() + done.push(Op::Busy(busy)));
                    if !busy {
                        assert(self.ops() == old(self).ops() + status_wait(polls as nat));
                    }
                    return r;
                },
                None => {},
            }
            match self.connector.delay_ms(100) {
                Ok(()) => {},
                Err(e) => {
                    proof {
                        lemma_cut_short(old(self).ops(), next, n + 1);
                        assert(self.ops() =~= old(self).ops() + next.take(n + 1));
                    }
                    return Err(e);
                },
            }
            match self.command(0x71) {
                Ok(()) => {},
                Err(e) => {
                    proof {
                        lemma_cut_short(old(self).ops(), next, n + 2);
                        assert(self.ops() =~= old(self).ops() + next.take(n + 2));
                    }
                    return Err(e);
                },
            }
            polls = polls + 1;
            assert(self.ops() =~= old(self).ops() + status_polls(polls as nat));
        }
    }
}

} // verus!
