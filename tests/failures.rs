use epdriver::display_connector::{DisplayConnector, Error, PanelLink, SpiConnector};
use epdriver::gd7965::GD7965;
use epdriver::il0371::IL0371;
use epdriver::{EPaper75TriColourV2, EPaperDisplay};

/// A link whose chosen operation fails.
#[derive(Default)]
struct FailingLink {
    fail_write: bool,
    fail_reset: bool,
    fail_dc: bool,
    fail_busy: bool,
    writes: usize,
}

impl PanelLink for FailingLink {
    fn write(&mut self, _bytes: &[u8]) -> Result<(), ()> {
        self.writes += 1;
        if self.fail_write {
            Err(())
        } else {
            Ok(())
        }
    }

    fn set_reset(&mut self, _high: bool) -> Result<(), ()> {
        if self.fail_reset {
            Err(())
        } else {
            Ok(())
        }
    }

    fn set_dc(&mut self, _high: bool) -> Result<(), ()> {
        if self.fail_dc {
            Err(())
        } else {
            Ok(())
        }
    }

    fn busy_is_low(&self) -> Result<bool, ()> {
        if self.fail_busy {
            Err(())
        } else {
            Ok(false)
        }
    }

    fn pause(&mut self, _ms: u16) {}
}

fn link() -> FailingLink {
    FailingLink::default()
}

#[test]
fn write_failure_is_spi_write_error() {
    let mut c = SpiConnector::new(FailingLink { fail_write: true, ..link() }, 2);
    assert_eq!(c.send_data(&[1, 2, 3, 4, 5]), Err(Error::SpiWriteError));
    assert_eq!(c.link().writes, 1);
    assert_eq!(c.send_command(0x12), Err(Error::SpiWriteError));
    assert_eq!(c.send_data_with(10, |i| i as u8), Err(Error::SpiWriteError));
}

#[test]
fn dc_failure_is_dc_pin_write_error() {
    let mut c = SpiConnector::new(FailingLink { fail_dc: true, ..link() }, 2);
    assert_eq!(c.send_command(0x12), Err(Error::DcPinWriteError));
    assert_eq!(c.send_data(&[1]), Err(Error::DcPinWriteError));
    assert_eq!(c.link().writes, 0);
}

#[test]
fn reset_failure_is_reset_pin_write_error() {
    let mut c = SpiConnector::new(FailingLink { fail_reset: true, ..link() }, 2);
    assert_eq!(c.reset(), Err(Error::ResetPinWriteError));
}

#[test]
fn busy_failure_is_busy_pin_read_error() {
    let mut c = SpiConnector::new(FailingLink { fail_busy: true, ..link() }, 2);
    assert_eq!(c.is_busy(), Err(Error::BusyPinReadError));
    let mut gd = GD7965::new(SpiConnector::new(FailingLink { fail_busy: true, ..link() }, 2));
    assert_eq!(gd.await_ready_state(), Err(Error::BusyPinReadError));
    let mut il = IL0371::new(SpiConnector::new(FailingLink { fail_busy: true, ..link() }, 2));
    assert_eq!(il.await_ready_state(), Err(Error::BusyPinReadError));
}

#[test]
fn display_stops_at_the_first_failure() {
    let mut d = EPaper75TriColourV2::new(FailingLink { fail_write: true, ..link() }, 64);
    assert_eq!(d.init(), Err(Error::SpiWriteError));
    assert_eq!(d.connector().link().writes, 1);
    let mut d = EPaper75TriColourV2::new(FailingLink { fail_reset: true, ..link() }, 64);
    assert_eq!(d.init(), Err(Error::ResetPinWriteError));
    assert_eq!(d.connector().link().writes, 0);
}

/// A link whose panel reports busy a given number of times, then ready.
struct SlowPanel {
    busy_left: std::cell::Cell<u32>,
    events: Vec<String>,
}

impl PanelLink for SlowPanel {
    fn write(&mut self, bytes: &[u8]) -> Result<(), ()> {
        self.events.push(format!("write {:?}", bytes));
        Ok(())
    }

    fn set_reset(&mut self, high: bool) -> Result<(), ()> {
        self.events.push(format!("reset {}", high));
        Ok(())
    }

    fn set_dc(&mut self, _high: bool) -> Result<(), ()> {
        Ok(())
    }

    fn busy_is_low(&self) -> Result<bool, ()> {
        let left = self.busy_left.get();
        if left > 0 {
            self.busy_left.set(left - 1);
        }
        Ok(left > 0)
    }

    fn pause(&mut self, ms: u16) {
        self.events.push(format!("pause {}", ms));
    }
}

fn slow(busy: u32) -> SlowPanel {
    SlowPanel { busy_left: std::cell::Cell::new(busy), events: Vec::new() }
}

#[test]
fn waits_poll_until_ready() {
    let mut gd = GD7965::new(SpiConnector::new(slow(2), 8));
    assert_eq!(gd.await_ready_state(), Ok(()));
    let events = &gd.connector().link().events;
    assert_eq!(events.iter().filter(|e| *e == "write [113]").count(), 3);
    assert_eq!(events.iter().filter(|e| *e == "pause 100").count(), 2);

    let mut il = IL0371::new(SpiConnector::new(slow(3), 8));
    assert_eq!(il.await_ready_state(), Ok(()));
    let events = &il.connector().link().events;
    assert_eq!(events.iter().filter(|e| *e == "write [113]").count(), 1);
    assert_eq!(events.iter().filter(|e| *e == "pause 100").count(), 3);
}

/// A link whose bus fails at the given write and works otherwise.
struct FailsAtWrite {
    failing: usize,
    writes: Vec<Vec<u8>>,
}

impl PanelLink for FailsAtWrite {
    fn write(&mut self, bytes: &[u8]) -> Result<(), ()> {
        self.writes.push(bytes.to_vec());
        if self.writes.len() == self.failing {
            Err(())
        } else {
            Ok(())
        }
    }

    fn set_reset(&mut self, _high: bool) -> Result<(), ()> {
        Ok(())
    }

    fn set_dc(&mut self, _high: bool) -> Result<(), ()> {
        Ok(())
    }

    fn busy_is_low(&self) -> Result<bool, ()> {
        Ok(false)
    }

    fn pause(&mut self, _ms: u16) {}
}

#[test]
fn failed_refresh_stops_the_push() {
    // Writes: 0x10, white plane, 0x71, 0x13, accent plane, 0x71, then the refresh.
    let link = FailsAtWrite { failing: 7, writes: Vec::new() };
    let mut d = EPaper75TriColourV2::new(link, 1 << 20);
    assert_eq!(d.push_image_with(|_, _| 2), Err(Error::SpiWriteError));
    let writes = &d.connector().link().writes;
    assert_eq!(writes.len(), 7);
    assert_eq!(writes[6], vec![0x12]);
}
