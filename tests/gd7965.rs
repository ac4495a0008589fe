use epdriver::display_connector::{SpiConnector, WireEvent, WireRecorder};
use epdriver::gd7965::{PSRFlags, PWRFlags, GD7965};

type Driver = GD7965<SpiConnector<WireRecorder>>;

fn driver() -> Driver {
    GD7965::new(SpiConnector::new(WireRecorder::new(), 1024))
}

/// Splits what went over the wires into command bytes and data bytes.
fn recorded(driver: &Driver) -> (Vec<u8>, Vec<u8>) {
    let mut cmd_bytes = Vec::new();
    let mut data_bytes = Vec::new();
    let mut data_mode = true;
    for event in driver.connector().link().events() {
        match event {
            WireEvent::DcLine(high) => data_mode = *high,
            WireEvent::Write(bytes) => {
                if data_mode {
                    data_bytes.extend(bytes.iter());
                } else {
                    cmd_bytes.extend(bytes.iter());
                }
            }
            _ => {}
        }
    }
    (cmd_bytes, data_bytes)
}

fn millivolts(volts: f32) -> i32 {
    (volts * 1000.0).round() as i32
}

#[test]
fn test_pwr_settings() {
    let mut driver = driver();

    let r = driver.pwr_power_setting(
        PWRFlags::from_bits(PWRFlags::VSR_EN | PWRFlags::VS_EN | PWRFlags::VG_EN | PWRFlags::VG_LVL_20V),
        millivolts(15.0),
        millivolts(-15.0),
        millivolts(3.0),
    );
    assert!(r.is_ok());

    let (cmd_bytes, data_bytes) = recorded(&driver);
    assert_eq!(cmd_bytes.len(), 1 as usize);
    assert_eq!(data_bytes.len(), 5 as usize);
    assert_eq!(cmd_bytes[0], 0x01);
    assert_eq!(data_bytes[0], 0x07);
    assert_eq!(data_bytes[1], 0x07);
    assert_eq!(data_bytes[2], 0x3f);
    assert_eq!(data_bytes[3], 0x3f);
    assert_eq!(data_bytes[4], 0x03);
}

#[test]
fn test_pwr_on() {
    let mut driver = driver();

    assert!(driver.pon_power_on().is_ok());

    let (cmd_bytes, data_bytes) = recorded(&driver);
    assert_eq!(cmd_bytes.len(), 1 as usize);
    assert_eq!(data_bytes.len(), 0 as usize);
    assert_eq!(cmd_bytes[0], 4);
}

#[test]
fn test_tres() {
    let mut driver = driver();

    assert!(driver.tres_resolution(800, 480).is_ok());

    let (cmd_bytes, data_bytes) = recorded(&driver);
    assert_eq!(cmd_bytes.len(), 1);
    assert_eq!(data_bytes.len(), 4);
    assert_eq!(cmd_bytes[0], 0x61);
    assert_eq!(data_bytes[0], 0x03);
    assert_eq!(data_bytes[1], 0x20);
    assert_eq!(data_bytes[2], 0x01);
    assert_eq!(data_bytes[3], 0xe0);
}

#[test]
fn test_duspi_dual_spi_mode() {
    let mut driver = driver();

    assert!(driver.duspi_dual_spi_mode(true, false).is_ok());

    let (cmd_bytes, data_bytes) = recorded(&driver);
    assert_eq!(cmd_bytes.len(), 1 as usize);
    assert_eq!(data_bytes.len(), 1 as usize);
    assert_eq!(cmd_bytes[0], 0x15);
    assert_eq!(data_bytes[0], 0x20);
}

#[test]
fn test_cdi_vcom_and_data_interval_settings() {
    let mut driver = driver();

    assert!(driver.cdi_vcom_and_data_interval_settings(false, 1, false, 1, 7).is_ok());

    let (cmd_bytes, data_bytes) = recorded(&driver);
    assert_eq!(cmd_bytes.len(), 1 as usize);
    assert_eq!(data_bytes.len(), 2 as usize);
    assert_eq!(cmd_bytes[0], 0x50);
    assert_eq!(data_bytes[0], 0x11);
    assert_eq!(data_bytes[1], 0x07);
}

#[test]
fn test_tcon_setting() {
    let mut driver = driver();

    assert!(driver.tcon_setting(2, 2).is_ok());

    let (cmd_bytes, data_bytes) = recorded(&driver);
    assert_eq!(cmd_bytes.len(), 1 as usize);
    assert_eq!(data_bytes.len(), 1 as usize);
    assert_eq!(cmd_bytes[0], 0x60);
    assert_eq!(data_bytes[0], 0x22);
}

#[test]
fn gd_register_bytes() {
    let cases: Vec<(fn(&mut Driver) -> bool, u8, Vec<u8>)> = vec![
        (|d| d.psr_panel_setting(PSRFlags::from_bits(PSRFlags::UD | PSRFlags::SHL)).is_ok(), 0x00, vec![0x0c]),
        (|d| d.pof_power_off().is_ok(), 0x02, vec![]),
        (|d| d.pfs_power_off_sequence_setting(0xff).is_ok(), 0x03, vec![0x30]),
        (|d| d.btst_booster_soft_start(0x17, 0x17, 0x28, true, 0x17).is_ok(), 0x06, vec![0x17, 0x17, 0x28, 0x97]),
        (|d| d.dslp_deep_sleep().is_ok(), 0x07, vec![0xa5]),
        (|d| d.duspi_dual_spi_mode(false, true).is_ok(), 0x15, vec![0x10]),
        (|d| d.drf_display_refresh().is_ok(), 0x12, vec![]),
        (|d| d.pll_control(0x06).is_ok(), 0x30, vec![0x06]),
        (|d| d.cdi_vcom_and_data_interval_settings(true, 0xff, true, 0xff, 0xff).is_ok(), 0x50, vec![0xbb, 0x07]),
        (|d| d.tcon_setting(0xff, 0x0a).is_ok(), 0x60, vec![0x72]),
        (|d| d.gss_gate_source_start_setting(0x1ff, 0x2ab).is_ok(), 0x65, vec![0x01, 0xf1, 0x02, 0xab]),
        (|d| d.vcom_dc_setting(0x26).is_ok(), 0x82, vec![0x26]),
        (|d| d.transmit(&[1, 2, 3]).is_ok(), 0x10, vec![1, 2, 3]),
        (|d| d.transmit_with(4, |i| (i * 3) as u8).is_ok(), 0x10, vec![0, 3, 6, 9]),
        (|d| d.transmit_with2(2, |i| 0xf0 + i as u8).is_ok(), 0x13, vec![0xf0, 0xf1]),
        (|d| d.flash_data().is_ok(), 0xb9, vec![]),
        (|d| d.await_ready_state().is_ok(), 0x71, vec![]),
    ];
    for (send, command, data) in cases {
        let mut driver = driver();
        assert!(send(&mut driver));
        let (cmd_bytes, data_bytes) = recorded(&driver);
        assert_eq!(cmd_bytes, vec![command]);
        assert_eq!(data_bytes, data);
    }
}

#[test]
fn gd_voltage_codes_round_to_nearest_step() {
    let cases = [
        (2.4f32, 0x00u8),
        (2.49, 0x00),
        (2.5, 0x01),
        (2.6, 0x01),
        (2.7, 0x02),
        (3.0, 0x03),
        (10.0, 0x26),
        (14.9, 0x3f),
        (15.0, 0x3f),
    ];
    for (volts, code) in cases {
        let mut driver = driver();
        let r = driver.pwr_power_setting(
            PWRFlags::from_bits(PWRFlags::BD_EN),
            millivolts(volts),
            millivolts(-volts),
            millivolts(volts),
        );
        assert!(r.is_ok());
        let (_, data_bytes) = recorded(&driver);
        assert_eq!(data_bytes, vec![0x10, 0x00, code, code, code]);
    }
}

#[test]
fn gd_voltage_codes_never_decrease() {
    let mut last = 0u8;
    for mv in (2400..=15000).step_by(10) {
        let mut driver = driver();
        assert!(driver
            .pwr_power_setting(PWRFlags::from_bits(0), mv, -2400, 2400)
            .is_ok());
        let (_, data_bytes) = recorded(&driver);
        let code = data_bytes[2];
        assert!(code <= 0x3f);
        assert!(code >= last);
        last = code;
    }
    assert_eq!(last, 0x3f);
}

#[test]
fn gd_flag_union_combines_bits() {
    let flags = PWRFlags::from_bits(PWRFlags::VSR_EN).union(PWRFlags::from_bits(PWRFlags::VG_LVL_20V));
    assert_eq!(flags.bits, 0x0407);
    let psr = PSRFlags::from_bits(PSRFlags::REG).union(PSRFlags::from_bits(PSRFlags::RST_N));
    assert_eq!(psr.bits, 0x21);
}
