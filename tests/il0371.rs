use epdriver::display_connector::{SpiConnector, WireEvent, WireRecorder};
use epdriver::il0371::{PFSFlags, PSRFlags, PWRFlags, IL0371};

type Driver = IL0371<SpiConnector<WireRecorder>>;

fn driver() -> Driver {
    IL0371::new(SpiConnector::new(WireRecorder::new(), 64))
}

fn recorded(driver: &Driver) -> (Vec<u8>, Vec<u8>) {
    let mut cmd_bytes = Vec::new();
    let mut data_bytes = Vec::new();
    let mut data_mode = true;
    for event in driver.connector().link().events() {
        match event {
            WireEvent::DcLine(high) => data_mode = *high,
            WireEvent::Write(bytes) => {
                if data_mode {
                    data_bytes.extend(bytes.iter());
                } else {
                    cmd_bytes.extend(bytes.iter());
                }
            }
            _ => {}
        }
    }
    (cmd_bytes, data_bytes)
}

#[test]
fn il_register_bytes() {
    let cases: Vec<(fn(&mut Driver) -> bool, u8, Vec<u8>)> = vec![
        (
            |d| d
                .psr_panel_setting(PSRFlags::from_bits(PSRFlags::RES_600_448 | PSRFlags::UD | PSRFlags::MYSTERY))
                .is_ok(),
            0x00,
            vec![0xc8, 0x08],
        ),
        (
            |d| d
                .pwr_power_setting(PWRFlags::from_bits(PWRFlags::EDATA_SEL | PWRFlags::VGHL_LVL_17V))
                .is_ok(),
            0x01,
            vec![0x20, 0x03],
        ),
        (|d| d.pof_power_off().is_ok(), 0x02, vec![]),
        (
            |d| d.pfs_power_off_sequence_setting(PFSFlags::from_bits(PFSFlags::T_VDS_OFF_3FRAME)).is_ok(),
            0x03,
            vec![0x10],
        ),
        (|d| d.pon_power_on().is_ok(), 0x04, vec![]),
        (|d| d.btst_booster_soft_start(0xc7, 0xcc, 0x28).is_ok(), 0x06, vec![0xc7, 0xcc, 0x28]),
        (|d| d.dslp_deep_sleep().is_ok(), 0x07, vec![0xa5]),
        (|d| d.drf_display_refresh().is_ok(), 0x12, vec![]),
        (|d| d.pll_control(0x3c).is_ok(), 0x30, vec![0x3c]),
        (|d| d.ipc_image_process(true, 0xff).is_ok(), 0x31, vec![0x13]),
        (|d| d.tse_temperature_sensor_calibration(true, 0xf5).is_ok(), 0x41, vec![0x85]),
        (|d| d.cdi_vcom_and_data_interval_settings(3, true, 7).is_ok(), 0x50, vec![0x77]),
        (|d| d.cdi_vcom_and_data_interval_settings(0xff, false, 0xff).is_ok(), 0x50, vec![0xef]),
        (|d| d.tcon_setting(0x22).is_ok(), 0x60, vec![0x22]),
        (|d| d.tres_resolution(640, 384).is_ok(), 0x61, vec![0x02, 0x80, 0x01, 0x80]),
        (|d| d.dam_spi_flash_control(true).is_ok(), 0x65, vec![0x01]),
        (|d| d.dam_spi_flash_control(false).is_ok(), 0x65, vec![0x00]),
        (|d| d.vcom_dc_setting(0x1e).is_ok(), 0x82, vec![0x1e]),
        (|d| d.define_flash(3).is_ok(), 0xe5, vec![0x03]),
        (|d| d.transmit(&[9, 8]).is_ok(), 0x10, vec![9, 8]),
        (|d| d.transmit_with(3, |i| 0x40 + i as u8).is_ok(), 0x10, vec![0x40, 0x41, 0x42]),
        (|d| d.flash_data().is_ok(), 0xb9, vec![]),
    ];
    for (send, command, data) in cases {
        let mut driver = driver();
        assert!(send(&mut driver));
        let (cmd_bytes, data_bytes) = recorded(&driver);
        assert_eq!(cmd_bytes, vec![command]);
        assert_eq!(data_bytes, data);
    }
}

#[test]
fn il_await_ready_sends_one_status_command() {
    let mut driver = driver();
    assert!(driver.await_ready_state().is_ok());
    assert_eq!(
        driver.connector().link().events(),
        &vec![WireEvent::DcLine(false), WireEvent::Write(vec![0x71]), WireEvent::Pause(4)]
    );
}

#[test]
fn il_reset_pulses_the_reset_line() {
    let mut driver = driver();
    assert!(driver.reset().is_ok());
    assert_eq!(
        driver.connector().link().events(),
        &vec![
            WireEvent::ResetLine(true),
            WireEvent::Pause(200),
            WireEvent::ResetLine(false),
            WireEvent::Pause(4),
            WireEvent::ResetLine(true),
            WireEvent::Pause(200),
        ]
    );
}
