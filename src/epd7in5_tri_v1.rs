//! The 7.5 inch tri-colour panel of the first generation: 640 by 384
//! pixels on the grey-level controller, two pixels of four bits per byte.
use vstd::prelude::*;

use crate::display::EPaperDisplay;
use crate::display_connector::{
    lemma_cut_short_longer,
    ends_with, lemma_ends_with, lemma_ends_with_within, MAX_BUSY_POLLS,
    cut_short, generated_by, lemma_cut_short, lemma_cut_short_within, DisplayConnector, Error, Op,
    Result,
};
use crate::gd7965::{be_bytes, flag};
use crate::il0371::{busy_pauses, busy_wait, PSRFlags, PWRFlags, IL0371};

verus! {

/// The 4-bit code of a colour index: black 0x0, accent 0x4, anything else
/// 0x3.
pub open spec fn pixel_code(val: u8) -> u8 {
    if val == 0 {
        0x0
    } else if val == 1 {
        0x4
    } else {
        0x3
    }
}

/// The byte for two neighbouring pixels: the left one in the high nibble.
pub open spec fn pixel_pair(left: u8, right: u8) -> u8 {
    (pixel_code(left) << 4 | pixel_code(right)) as u8
}

/// `b` is the byte at `offset` of the image that `source` paints, with
/// `line_bytes` bytes per row: the pair at column `2 * (offset % line_bytes)`
/// of row `offset / line_bytes`.
pub open spec fn pair_from<F: Fn(u32, u32) -> u8>(
    source: F,
    line_bytes: u32,
    offset: u32,
    b: u8,
) -> bool {
    let y = (offset / line_bytes) as u32;
    let x = ((offset % line_bytes) * 2) as u32;
    exists|left: u8, right: u8|
        source.ensures((x, y), left) && source.ensures(((x + 1) as u32, y), right) && b
            == pixel_pair(left, right)
}

/// `data` is the image that `source` paints on a panel of `width` by
/// `height`, row by row.
pub open spec fn painted<F: Fn(u32, u32) -> u8>(data: Seq<u8>, source: F, width: u16, height: u16) -> bool {
    let line_bytes = (width / 2) as u32;
    &&& data.len() == line_bytes * height
    &&& forall|o: int| 0 <= o < data.len() ==> pair_from(source, line_bytes, o as u32, #[trigger] data[o])
}

/// The byte that an image of the single colour index `colour` packs to:
/// 0x00 for black, 0x44 for the accent colour, 0x33 for any other index.
pub open spec fn solid_byte(colour: u8) -> u8 {
    if colour == 0 {
        0x00
    } else if colour == 1 {
        0x44
    } else {
        0x33
    }
}

/// An image of a single colour packs to one repeated byte.
pub proof fn lemma_solid_image<F: Fn(u32, u32) -> u8>(
    data: Seq<u8>,
    source: F,
    width: u16,
    height: u16,
    colour: u8,
)
    requires
        painted(data, source, width, height),
        forall|x: u32, y: u32, v: u8| source.ensures((x, y), v) ==> v == colour,
    ensures
        forall|o: int| 0 <= o < data.len() ==> #[trigger] data[o] == solid_byte(colour),
{
    assert(pixel_pair(colour, colour) == solid_byte(colour)) by {
        assert((0u8 << 4 | 0u8) == 0u8 && (4u8 << 4 | 4u8) == 0x44u8 && (3u8 << 4 | 3u8) == 0x33u8)
            by (bit_vector);
    };
    let line_bytes = (width / 2) as u32;
    assert forall|o: int| 0 <= o < data.len() implies #[trigger] data[o] == solid_byte(colour) by {
        assert(pair_from(source, line_bytes, o as u32, data[o]));
    };
}

/// The configuration that `init` writes after the reset, for a panel of
/// `width` by `height`.
pub open spec fn setup(width: u16, height: u16) -> Seq<Op> {
    seq![
        Op::Command(0x01),
        Op::Data(seq![0x37u8, 0x00]),
        Op::Command(0x00),
        Op::Data(seq![0xcfu8, 0x08]),
        Op::Command(0x30),
        Op::Data(seq![0x3cu8]),
        Op::Command(0x82),
        Op::Data(seq![0x1eu8]),
        Op::Command(0x06),
        Op::Data(seq![0xc7u8, 0xcc, 0x28]),
        Op::Command(0x50),
        Op::Data(seq![0x77u8]),
        Op::Command(0x60),
        Op::Data(seq![0x22u8]),
        Op::Command(0x65),
        Op::Data(seq![0x00u8]),
        Op::Command(0x61),
        Op::Data(seq![(width >> 8) as u8, (width & 0xff) as u8, (height >> 8) as u8, (height & 0xff) as u8]),
        Op::Command(0xe5),
        Op::Data(seq![0x03u8]),
    ]
}

/// Power on, a wait, a refresh, and another wait, with the number of busy
/// polls of each wait.
pub open spec fn refreshed(first: nat, second: nat) -> Seq<Op> {
    seq![Op::Command(0x04)] + busy_wait(first) + seq![Op::Command(0x12)] + busy_wait(second)
}

pub struct EPaper75TriColour<T: DisplayConnector> {
    controller: IL0371<T>,
    pub width: u16,
    pub height: u16,
}

impl<T: DisplayConnector> EPaper75TriColour<T> {
    /// What has been sent to the panel so far.
    pub closed spec fn ops(&self) -> Seq<Op> {
        self.controller.ops()
    }

    pub fn new(connector: T) -> (r: EPaper75TriColour<T>)
        ensures
            r.ops() == connector.ops(),
            r.panel_width() == 640,
            r.panel_height() == 384,
    {
        let controller = IL0371::new(connector);
        EPaper75TriColour { controller, width: 640, height: 384 }
    }

    /// The error that the connector's most recent failing operation returned.
    pub closed spec fn last_error(&self) -> Error {
        self.controller.last_error()
    }

    /// The connector underneath.
    pub fn connector(&self) -> (r: &T)
        ensures
            r.ops() == self.ops(),
    {
        self.controller.connector()
    }

    /// The 4-bit code of a colour index.
    pub fn map_pix_value(val: u8) -> (r: u8)
        ensures
            r == pixel_code(val),
    {
        match val {
            0 => 0x0,
            1 => 0x4,
            _ => 0x3,
        }
    }

    /// Powers off, waits for the panel, and puts it into deep sleep.
    pub fn sleep(&mut self) -> (r: Result<()>)
        ensures
            final(self).faults() != old(self).faults() ==> exists|busy: nat|
                cut_short(
                    old(self).ops(),
                    final(self).ops(),
                    seq![Op::Command(0x02)] + busy_wait(busy) + seq![Op::Command(0x07), Op::Data(seq![0xa5u8])],
                ),
            r == Err::<(), Error>(Error::BusyTimeout) ==> final(self).faults() == old(self).faults()
                && ends_with(old(self).ops(), final(self).ops(), busy_pauses(MAX_BUSY_POLLS as nat).push(Op::Busy(true))),
            final(self).faults() != old(self).faults() ==> r == Err::<(), Error>(final(self).last_error())
                && final(self).last_error() != Error::BusyTimeout,
            final(self).faults() >= old(self).faults(),
            final(self).faults() != old(self).faults() ==> r is Err,
            final(self).faults() == old(self).faults() ==> r is Ok || r == Err::<(), Error>(
                Error::BusyTimeout,
            ),
            r is Ok ==> exists|busy: nat|
                final(self).ops() == old(self).ops() + seq![Op::Command(0x02)] + busy_wait(busy)
                    + seq![Op::Command(0x07), Op::Data(seq![0xa5u8])],
    {
        let res = self.controller.pof_power_off();
        proof {
            if res is Err {
                let full = seq![Op::Command(0x02)] + busy_wait(0) + seq![Op::Command(0x07), Op::Data(seq![0xa5u8])];
                assert(self.ops() =~= old(self).ops() + full.take(0int));
                lemma_cut_short(old(self).ops(), full, 0int);
            }
        }
        res?;
        let ghost before = self.ops();
        let ghost pre_call = self.ops();
        let waited = self.controller.await_ready_state();
        proof {
            if waited == Err::<(), Error>(Error::BusyTimeout) {
                assert(pre_call.take(old(self).ops().len() as int) =~= old(self).ops());
                lemma_ends_with(old(self).ops(), pre_call, self.ops(), busy_pauses(MAX_BUSY_POLLS as nat).push(Op::Busy(true)));
            }
            if self.faults() != old(self).faults() {
                let busy = choose|busy: nat| cut_short(pre_call, self.ops(), busy_pauses(busy));
                let full = seq![Op::Command(0x02)] + busy_wait(busy) + seq![Op::Command(0x07), Op::Data(seq![0xa5u8])];
                assert(busy_wait(busy).take(busy_pauses(busy).len() as int) =~= busy_pauses(busy));
                lemma_cut_short_longer(pre_call, self.ops(), busy_pauses(busy), busy_wait(busy));
                assert(full.subrange(1int, 1int + busy_wait(busy).len()) =~= busy_wait(busy));
                assert(pre_call =~= old(self).ops() + full.take(1int));
                lemma_cut_short_within(old(self).ops(), pre_call, self.ops(), full, 1int, busy_wait(busy));
            }
        }
        waited?;
        let ghost busy = choose|busy: nat| self.ops() == before + busy_wait(busy);
        let ghost pre_step = self.ops();
        let res = self.controller.dslp_deep_sleep();
        proof {
            if res is Err {
                let full = seq![Op::Command(0x02)] + busy_wait(busy) + seq![Op::Command(0x07), Op::Data(seq![0xa5u8])];
                let part = seq![Op::Command(0x07), Op::Data(seq![0xa5u8])];
                assert(full.subrange(1int + busy_wait(busy).len(), 1int + busy_wait(busy).len() + part.len()) =~= part);
                assert(pre_step =~= old(self).ops() + full.take(1int + busy_wait(busy).len()));
                lemma_cut_short_within(old(self).ops(), pre_step, self.ops(), full, 1int + busy_wait(busy).len(), part);
            }
        }
        res?;
        assert(self.ops() =~= old(self).ops() + seq![Op::Command(0x02)] + busy_wait(busy)
            + seq![Op::Command(0x07), Op::Data(seq![0xa5u8])]);
        Ok(())
    }

    /// Fills the whole image with the byte `val`, shows it, and powers off.
    pub fn clear_with_val(&mut self, val: u8) -> (r: Result<()>)
        ensures
            final(self).faults() != old(self).faults() ==> exists|first: nat, second: nat|
                cut_short(
                    old(self).ops(),
                    final(self).ops(),
                    seq![Op::Command(0x10), Op::Data(Seq::new(((old(self).panel_width() * old(self).panel_height()) / 2) as nat, |_i: int| val))] + refreshed(first, second) + seq![Op::Command(0x02)],
                ),
            r == Err::<(), Error>(Error::BusyTimeout) ==> final(self).faults() == old(self).faults()
                && ends_with(old(self).ops(), final(self).ops(), busy_pauses(MAX_BUSY_POLLS as nat).push(Op::Busy(true))),
            final(self).faults() != old(self).faults() ==> r == Err::<(), Error>(final(self).last_error())
                && final(self).last_error() != Error::BusyTimeout,
            final(self).faults() >= old(self).faults(),
            final(self).faults() != old(self).faults() ==> r is Err,
            final(self).faults() == old(self).faults() ==> r is Ok || r == Err::<(), Error>(
                Error::BusyTimeout,
            ),
            r is Ok ==> exists|first: nat, second: nat|
                final(self).ops() == old(self).ops() + seq![
                    Op::Command(0x10),
                    Op::Data(Seq::new(((old(self).panel_width() * old(self).panel_height()) / 2) as nat, |_i: int| val)),
                ] + refreshed(first, second) + seq![Op::Command(0x02)],
    {
        let ghost pre_call = self.ops();
        let waited = self.fill(val);
        proof {
            if waited == Err::<(), Error>(Error::BusyTimeout) {
                assert(pre_call.take(old(self).ops().len() as int) =~= old(self).ops());
                lemma_ends_with_within(old(self).ops(), pre_call, self.ops(), busy_pauses(MAX_BUSY_POLLS as nat).push(Op::Busy(true)));
            }
            if self.faults() != old(self).faults() {
                let (f, g) = choose|f: nat, g: nat| cut_short(pre_call, self.ops(), seq![Op::Command(0x10), Op::Data(Seq::new(((self.width * self.height) / 2) as nat, |_i: int| val))] + refreshed(f, g));
                let full = seq![Op::Command(0x10), Op::Data(Seq::new(((self.width * self.height) / 2) as nat, |_i: int| val))] + refreshed(f, g) + seq![Op::Command(0x02)];
                let part = seq![Op::Command(0x10), Op::Data(Seq::new(((self.width * self.height) / 2) as nat, |_i: int| val))] + refreshed(f, g);
                assert(full.subrange(0int, 0int + part.len()) =~= part);
                assert(pre_call =~= old(self).ops() + full.take(0int));
                lemma_cut_short_within(old(self).ops(), pre_call, self.ops(), full, 0int, part);
            }
        }
        waited?;
        let ghost (first, second) = choose|first: nat, second: nat| self.ops() == old(self).ops() + seq![Op::Command(0x10), Op::Data(Seq::new(((self.width * self.height) / 2) as nat, |_i: int| val))] + refreshed(first, second);
        let ghost before = self.ops();
        let res = self.controller.pof_power_off();
        proof {
            if res is Err {
                let full = seq![Op::Command(0x10), Op::Data(Seq::new(((self.width * self.height) / 2) as nat, |_i: int| val))] + refreshed(first, second) + seq![Op::Command(0x02)];
                assert(self.ops() =~= old(self).ops() + full.take(2int + refreshed(first, second).len()));
                lemma_cut_short(old(self).ops(), full, 2int + refreshed(first, second).len());
            }
        }
        res?;
        assert(self.ops() =~= before + seq![Op::Command(0x02)]);
        Ok(())
    }

    /// Sends the whole image as the byte `val`, then powers on and refreshes.
    fn fill(&mut self, val: u8) -> (r: Result<()>)
        ensures
            final(self).faults() != old(self).faults() ==> exists|first: nat, second: nat|
                cut_short(
                    old(self).ops(),
                    final(self).ops(),
                    seq![Op::Command(0x10), Op::Data(Seq::new(((old(self).panel_width() * old(self).panel_height()) / 2) as nat, |_i: int| val))] + refreshed(first, second),
                ),
            r == Err::<(), Error>(Error::BusyTimeout) ==> final(self).faults() == old(self).faults()
                && ends_with(old(self).ops(), final(self).ops(), busy_pauses(MAX_BUSY_POLLS as nat).push(Op::Busy(true))),
            final(self).faults() != old(self).faults() ==> r == Err::<(), Error>(final(self).last_error())
                && final(self).last_error() != Error::BusyTimeout,
            final(self).faults() >= old(self).faults(),
            final(self).faults() != old(self).faults() ==> r is Err,
            final(self).faults() == old(self).faults() ==> r is Ok || r == Err::<(), Error>(
                Error::BusyTimeout,
            ),
            final(self).panel_width() == old(self).panel_width(),
            final(self).panel_height() == old(self).panel_height(),
            r is Ok ==> exists|first: nat, second: nat|
                final(self).ops() == old(self).ops() + seq![
                    Op::Command(0x10),
                    Op::Data(Seq::new(((old(self).panel_width() * old(self).panel_height()) / 2) as nat, |_i: int| val)),
                ] + refreshed(first, second),
    {
        assert((self.width as u32) * (self.height as u32) <= 0xffff * 0xffff) by (nonlinear_arith)
            requires
                self.width <= 0xffff,
                self.height <= 0xffff,
        ;
        let size: u32 = (self.width as u32 * self.height as u32) / 2;
        let fill = |_i: u32| -> (b: u8)
            ensures
                b == val,
            { val };
        let ghost start = self.ops();
        let res = self.controller.transmit_with(size, fill);
        proof {
            if res is Err {
                let full = seq![Op::Command(0x10), Op::Data(Seq::new(size as nat, |_i: int| val))] + refreshed(0, 0);
                if self.ops().len() == old(self).ops().len() + 0int {
                    assert(self.ops() =~= old(self).ops() + full.take(0int));
                    lemma_cut_short(old(self).ops(), full, 0int);
                } else {
                    assert(self.ops() =~= old(self).ops() + full.take(0int + 1));
                    lemma_cut_short(old(self).ops(), full, 0int + 1);
                }
            }
        }
        res?;
        let ghost d = choose|d: Seq<u8>|
            generated_by(d, size, fill) && self.ops() == start + seq![Op::Command(0x10), Op::Data(d)];
        assert(d =~= Seq::new(size as nat, |_i: int| val));
        let ghost sent = self.ops();
        let ghost pre_call = self.ops();
        let waited = self.show();
        proof {
            if waited == Err::<(), Error>(Error::BusyTimeout) {
                assert(pre_call.take(old(self).ops().len() as int) =~= old(self).ops());
                lemma_ends_with_within(old(self).ops(), pre_call, self.ops(), busy_pauses(MAX_BUSY_POLLS as nat).push(Op::Busy(true)));
            }
            if self.faults() != old(self).faults() {
                let (f, g) = choose|f: nat, g: nat| cut_short(pre_call, self.ops(), refreshed(f, g));
                let full = seq![Op::Command(0x10), Op::Data(Seq::new(size as nat, |_i: int| val))] + refreshed(f, g);
                let part = refreshed(f, g);
                assert(full.subrange(2int, 2int + part.len()) =~= part);
                assert(pre_call =~= old(self).ops() + full.take(2int));
                lemma_cut_short_within(old(self).ops(), pre_call, self.ops(), full, 2int, part);
            }
        }
        waited?;
        let ghost (first, second) = choose|first: nat, second: nat| self.ops() == sent + refreshed(first, second);
        assert(self.ops() =~= old(self).ops() + seq![
            Op::Command(0x10),
            Op::Data(Seq::new(size as nat, |_i: int| val)),
        ] + refreshed(first, second));
        Ok(())
    }

    /// Powers on, waits, refreshes, and waits again.
    fn show(&mut self) -> (r: Result<()>)
        ensures
            final(self).faults() != old(self).faults() ==> exists|first: nat, second: nat|
                cut_short(old(self).ops(), final(self).ops(), refreshed(first, second)),
            r == Err::<(), Error>(Error::BusyTimeout) ==> final(self).faults() == old(self).faults()
                && ends_with(old(self).ops(), final(self).ops(), busy_pauses(MAX_BUSY_POLLS as nat).push(Op::Busy(true))),
            final(self).faults() != old(self).faults() ==> r == Err::<(), Error>(final(self).last_error())
                && final(self).last_error() != Error::BusyTimeout,
            final(self).faults() >= old(self).faults(),
            final(self).faults() != old(self).faults() ==> r is Err,
            final(self).faults() == old(self).faults() ==> r is Ok || r == Err::<(), Error>(
                Error::BusyTimeout,
            ),
            final(self).panel_width() == old(self).panel_width(),
            final(self).panel_height() == old(self).panel_height(),
            r is Ok ==> exists|first: nat, second: nat|
                final(self).ops() == old(self).ops() + refreshed(first, second),
    {
        let res = self.controller.pon_power_on();
        proof {
            if res is Err {
                let full = refreshed(0, 0);
                assert(self.ops() =~= old(self).ops() + full.take(0int));
                lemma_cut_short(old(self).ops(), full, 0int);
            }
        }
        res?;
        let ghost on = self.ops();
        let ghost pre_call = self.ops();
        let waited = self.controller.await_ready_state();
        proof {
            if waited == Err::<(), Error>(Error::BusyTimeout) {
                assert(pre_call.take(old(self).ops().len() as int) =~= old(self).ops());
                lemma_ends_with(old(self).ops(), pre_call, self.ops(), busy_pauses(MAX_BUSY_POLLS as nat).push(Op::Busy(true)));
            }
            if self.faults() != old(self).faults() {
                let busy = choose|busy: nat| cut_short(pre_call, self.ops(), busy_pauses(busy));
                let full = refreshed(busy, 0);
                assert(busy_wait(busy).take(busy_pauses(busy).len() as int) =~= busy_pauses(busy));
                lemma_cut_short_longer(pre_call, self.ops(), busy_pauses(busy), busy_wait(busy));
                assert(full.subrange(1int, 1int + busy_wait(busy).len()) =~= busy_wait(busy));
                assert(pre_call =~= old(self).ops() + full.take(1int));
                lemma_cut_short_within(old(self).ops(), pre_call, self.ops(), full, 1int, busy_wait(busy));
            }
        }
        waited?;
        let ghost first = choose|busy: nat| self.ops() == on + busy_wait(busy);
        let res = self.controller.drf_display_refresh();
        proof {
            if res is Err {
                let full = refreshed(first, 0);
                assert(self.ops() =~= old(self).ops() + full.take(1int + busy_wait(first).len()));
                lemma_cut_short(old(self).ops(), full, 1int + busy_wait(first).len());
            }
        }
        res?;
        let ghost refreshing = self.ops();
        let ghost pre_call = self.ops();
        let waited = self.controller.await_ready_state();
        proof {
            if waited == Err::<(), Error>(Error::BusyTimeout) {
                assert(pre_call.take(old(self).ops().len() as int) =~= old(self).ops());
                lemma_ends_with(old(self).ops(), pre_call, self.ops(), busy_pauses(MAX_BUSY_POLLS as nat).push(Op::Busy(true)));
            }
            if self.faults() != old(self).faults() {
                let busy = choose|busy: nat| cut_short(pre_call, self.ops(), busy_pauses(busy));
                let full = refreshed(first, busy);
                assert(busy_wait(busy).take(busy_pauses(busy).len() as int) =~= busy_pauses(busy));
                lemma_cut_short_longer(pre_call, self.ops(), busy_pauses(busy), busy_wait(busy));
                assert(full.subrange(2int + busy_wait(first).len(), 2int + busy_wait(first).len() + busy_wait(busy).len()) =~= busy_wait(busy));
                assert(pre_call =~= old(self).ops() + full.take(2int + busy_wait(first).len()));
                lemma_cut_short_within(old(self).ops(), pre_call, self.ops(), full, 2int + busy_wait(first).len(), busy_wait(busy));
            }
        }
        waited?;
        let ghost second = choose|busy: nat| self.ops() == refreshing + busy_wait(busy);
        assert(self.ops() =~= old(self).ops() + refreshed(first, second));
        Ok(())
    }
}

impl<T: DisplayConnector> EPaperDisplay for EPaper75TriColour<T> {
    closed spec fn panel_width(&self) -> u16 {
        self.width
    }

    closed spec fn panel_height(&self) -> u16 {
        self.height
    }

    closed spec fn faults(&self) -> nat {
        self.controller.faults()
    }

    fn init(&mut self) -> (r: Result<()>)
        ensures
            final(self).faults() >= old(self).faults(),
            r is Ok <==> final(self).faults() == old(self).faults(),
            r is Ok ==> final(self).ops() == old(self).ops().push(Op::Reset) + setup(
                old(self).panel_width(),
                old(self).panel_height(),
            ),
            r is Err ==> cut_short(
                old(self).ops(),
                final(self).ops(),
                seq![Op::Reset] + setup(old(self).panel_width(), old(self).panel_height()),
            ),
    {
        let pwr = PWRFlags::from_bits(
            PWRFlags::EDATA_SEL | PWRFlags::EDATA_SET | PWRFlags::VSOURCE_LV_EN | PWRFlags::VSOURCE_EN
                | PWRFlags::VGATE_EN,
        );
        let psr = PSRFlags::from_bits(
            PSRFlags::RES_600_448 | PSRFlags::UD | PSRFlags::SHL | PSRFlags::SHD_N | PSRFlags::RST_N
                | PSRFlags::MYSTERY,
        );
        let ghost full = seq![Op::Reset] + setup(self.width, self.height);
        proof {
            assert(((3u8 & 7) << 5 | 1u8 << 4 | 7u8 & 0xf) as u8 == 0x77u8) by (bit_vector);
            assert((0x2000u16 | 0x1000 | 0x0400 | 0x0200 | 0x0100) == 0x3700u16) by (bit_vector);
            assert((0xc000u16 | 0x0800 | 0x0400 | 0x0200 | 0x0100 | 0x0008) == 0xcf08u16) by (bit_vector);
            assert(be_bytes(0x3700) =~= seq![0x37u8, 0x00]) by {
                assert((0x3700u16 >> 8) as u8 == 0x37u8 && (0x3700u16 & 0xff) as u8 == 0u8) by (bit_vector);
            };
            assert(be_bytes(0xcf08) =~= seq![0xcfu8, 0x08]) by {
                assert((0xcf08u16 >> 8) as u8 == 0xcfu8 && (0xcf08u16 & 0xff) as u8 == 0x08u8) by (bit_vector);
            };
            assert(be_bytes(self.width) + be_bytes(self.height) =~= seq![
                (self.width >> 8) as u8,
                (self.width & 0xff) as u8,
                (self.height >> 8) as u8,
                (self.height & 0xff) as u8,
            ]);
        }
        match self.controller.reset() {
            Ok(()) => {},
            Err(e) => {
                proof {
                    lemma_cut_short(old(self).ops(), full, 0);
                    assert(self.ops() =~= old(self).ops() + full.take(0));
                }
                return Err(e);
            },
        }
        assert(self.ops() =~= old(self).ops() + full.take(1));
        let ghost mid = self.ops();
        match self.controller.pwr_power_setting(pwr) {
            Ok(()) => {},
            Err(e) => {
                proof {
                    let part = seq![Op::Command(0x01), Op::Data(be_bytes(pwr.bits))];
                    assert(full.subrange(1int, 1int + 2) =~= part);
                    lemma_cut_short_within(old(self).ops(), mid, self.ops(), full, 1, part);
                }
                return Err(e);
            },
        }
        assert(self.ops() =~= old(self).ops() + full.take(3));
        let ghost mid = self.ops();
        match self.controller.psr_panel_setting(psr) {
            Ok(()) => {},
            Err(e) => {
                proof {
                    let part = seq![Op::Command(0x00), Op::Data(be_bytes(psr.bits))];
                    assert(full.subrange(3int, 3int + 2) =~= part);
                    lemma_cut_short_within(old(self).ops(), mid, self.ops(), full, 3, part);
                }
                return Err(e);
            },
        }
        assert(self.ops() =~= old(self).ops() + full.take(5));
        let ghost mid = self.ops();
        match self.controller.pll_control(0x3c) {
            Ok(()) => {},
            Err(e) => {
                proof {
                    let part = seq![Op::Command(0x30), Op::Data(seq![0x3cu8])];
                    assert(full.subrange(5int, 5int + 2) =~= part);
                    lemma_cut_short_within(old(self).ops(), mid, self.ops(), full, 5, part);
                }
                return Err(e);
            },
        }
        assert(self.ops() =~= old(self).ops() + full.take(7));
        let ghost mid = self.ops();
        match self.controller.vcom_dc_setting(0x1e) {
            Ok(()) => {},
            Err(e) => {
                proof {
                    let part = seq![Op::Command(0x82), Op::Data(seq![0x1eu8])];
                    assert(full.subrange(7int, 7int + 2) =~= part);
                    lemma_cut_short_within(old(self).ops(), mid, self.ops(), full, 7, part);
                }
                return Err(e);
            },
        }
        assert(self.ops() =~= old(self).ops() + full.take(9));
        let ghost mid = self.ops();
        match self.controller.btst_booster_soft_start(0xc7, 0xcc, 0x28) {
            Ok(()) => {},
            Err(e) => {
                proof {
                    let part = seq![Op::Command(0x06), Op::Data(seq![0xc7u8, 0xcc, 0x28])];
                    assert(full.subrange(9int, 9int + 2) =~= part);
                    lemma_cut_short_within(old(self).ops(), mid, self.ops(), full, 9, part);
                }
                return Err(e);
            },
        }
        assert(self.ops() =~= old(self).ops() + full.take(11));
        let ghost mid = self.ops();
        match self.controller.cdi_vcom_and_data_interval_settings(3, true, 7) {
            Ok(()) => {},
            Err(e) => {
                proof {
                    let part = seq![Op::Command(0x50), Op::Data(seq![((3u8 & 7) << 5 | flag(true) << 4 | 7u8 & 0xf) as u8])];
                    assert(full.subrange(11int, 11int + 2) =~= part);
                    lemma_cut_short_within(old(self).ops(), mid, self.ops(), full, 11, part);
                }
                return Err(e);
            },
        }
        assert(self.ops() =~= old(self).ops() + full.take(13));
        let ghost mid = self.ops();
        match self.controller.tcon_setting(0x22) {
            Ok(()) => {},
            Err(e) => {
                proof {
                    let part = seq![Op::Command(0x60), Op::Data(seq![0x22u8])];
                    assert(full.subrange(13int, 13int + 2) =~= part);
                    lemma_cut_short_within(old(self).ops(), mid, self.ops(), full, 13, part);
                }
                return Err(e);
            },
        }
        assert(self.ops() =~= old(self).ops() + full.take(15));
        let ghost mid = self.ops();
        match self.controller.dam_spi_flash_control(false) {
            Ok(()) => {},
            Err(e) => {
                proof {
                    let part = seq![Op::Command(0x65), Op::Data(seq![flag(false)])];
                    assert(full.subrange(15int, 15int + 2) =~= part);
                    lemma_cut_short_within(old(self).ops(), mid, self.ops(), full, 15, part);
                }
                return Err(e);
            },
        }
        assert(self.ops() =~= old(self).ops() + full.take(17));
        let ghost mid = self.ops();
        match self.controller.tres_resolution(self.width, self.height) {
            Ok(()) => {},
            Err(e) => {
                proof {
                    let part = seq![Op::Command(0x61), Op::Data(be_bytes(self.width) + be_bytes(self.height))];
                    assert(full.subrange(17int, 17int + 2) =~= part);
                    lemma_cut_short_within(old(self).ops(), mid, self.ops(), full, 17, part);
                }
                return Err(e);
            },
        }
        assert(self.ops() =~= old(self).ops() + full.take(19));
        let ghost mid = self.ops();
        match self.controller.define_flash(3) {
            Ok(()) => {},
            Err(e) => {
                proof {
                    let part = seq![Op::Command(0xe5), Op::Data(seq![3u8])];
                    assert(full.subrange(19int, 19int + 2) =~= part);
                    lemma_cut_short_within(old(self).ops(), mid, self.ops(), full, 19, part);
                }
                return Err(e);
            },
        }
        assert(self.ops() =~= old(self).ops() + full.take(21));
        assert(full.take(21) =~= full);
        assert(self.ops() =~= old(self).ops().push(Op::Reset) + setup(self.width, self.height));
        Ok(())
    }

    fn clear(&mut self) -> (r: Result<()>)
        ensures
            final(self).faults() != old(self).faults() ==> exists|first: nat, second: nat|
                cut_short(
                    old(self).ops(),
                    final(self).ops(),
                    seq![Op::Command(0x10), Op::Data(Seq::new(((old(self).panel_width() * old(self).panel_height()) / 2) as nat, |_i: int| 0u8))] + refreshed(first, second),
                ),
            r == Err::<(), Error>(Error::BusyTimeout) ==> final(self).faults() == old(self).faults()
                && ends_with(old(self).ops(), final(self).ops(), busy_pauses(MAX_BUSY_POLLS as nat).push(Op::Busy(true))),
            final(self).faults() != old(self).faults() ==> r == Err::<(), Error>(final(self).last_error())
                && final(self).last_error() != Error::BusyTimeout,
            r is Ok ==> exists|first: nat, second: nat|
                final(self).ops() == old(self).ops() + seq![
                    Op::Command(0x10),
                    Op::Data(Seq::new(((old(self).panel_width() * old(self).panel_height()) / 2) as nat, |_i: int| 0u8)),
                ] + refreshed(first, second),
    {
        self.fill(0x00)
    }

    fn push_image_with<F: Fn(u32, u32) -> u8>(&mut self, source: F) -> (r: Result<()>)
        ensures
            final(self).faults() != old(self).faults() ==> exists|data: Seq<u8>, first: nat, second: nat|
                cut_short(
                    old(self).ops(),
                    final(self).ops(),
                    seq![Op::Command(0x10), Op::Data(data)] + refreshed(first, second) + seq![Op::Command(0x02)],
                ),
            r == Err::<(), Error>(Error::BusyTimeout) ==> final(self).faults() == old(self).faults()
                && ends_with(old(self).ops(), final(self).ops(), busy_pauses(MAX_BUSY_POLLS as nat).push(Op::Busy(true))),
            final(self).faults() != old(self).faults() ==> r == Err::<(), Error>(final(self).last_error())
                && final(self).last_error() != Error::BusyTimeout,
            r is Ok ==> exists|data: Seq<u8>, first: nat, second: nat|
                painted(data, source, old(self).panel_width(), old(self).panel_height())
                    && final(self).ops() == old(self).ops() + seq![Op::Command(0x10), Op::Data(data)]
                    + refreshed(first, second) + seq![Op::Command(0x02)],
    {
        let line_bytes: u32 = (self.width / 2) as u32;
        assert(line_bytes * (self.height as u32) <= 0xffff * 0xffff) by (nonlinear_arith)
            requires
                line_bytes <= 0xffff,
                self.height <= 0xffff,
        ;
        let size: u32 = line_bytes * self.height as u32;
        let src = &source;
        let pixels = move |offset: u32| -> (b: u8)
            requires
                offset < size,
                forall|x: u32, y: u32| src.requires((x, y)),
            ensures
                pair_from(*src, line_bytes, offset, b),
            {
                proof {
                    if line_bytes == 0 {
                        assert(size == 0);
                    }
                    vstd::arithmetic::div_mod::lemma_mod_bound(offset as int, line_bytes as int);
                }
                let y = offset / line_bytes;
                let x = (offset % line_bytes) * 2;
                let left = src(x, y);
                let right = src(x + 1, y);
                let p1 = Self::map_pix_value(left) << 4;
                let p2 = Self::map_pix_value(right);
                let b = p1 | p2;
                assert(b == pixel_pair(left, right));
                assert(src.ensures((x, y), left) && src.ensures(((x + 1) as u32, y), right));
                b
            };
        let ghost start = self.ops();
        let res = self.controller.transmit_with(size, pixels);
        proof {
            if res is Err {
                let full = seq![Op::Command(0x10), Op::Data(Seq::<u8>::empty())] + refreshed(0, 0) + seq![Op::Command(0x02)];
                if self.ops().len() == old(self).ops().len() + 0int {
                    assert(self.ops() =~= old(self).ops() + full.take(0int));
                    lemma_cut_short(old(self).ops(), full, 0int);
                } else {
                    assert(self.ops() =~= old(self).ops() + full.take(0int + 1));
                    lemma_cut_short(old(self).ops(), full, 0int + 1);
                }
            }
        }
        res?;
        let ghost data = choose|d: Seq<u8>|
            generated_by(d, size, pixels) && self.ops() == start + seq![Op::Command(0x10), Op::Data(d)];
        assert(painted(data, source, self.width, self.height));
        let ghost sent = self.ops();
        let ghost pre_call = self.ops();
        let waited = self.show();
        proof {
            if waited == Err::<(), Error>(Error::BusyTimeout) {
                assert(pre_call.take(old(self).ops().len() as int) =~= old(self).ops());
                lemma_ends_with_within(old(self).ops(), pre_call, self.ops(), busy_pauses(MAX_BUSY_POLLS as nat).push(Op::Busy(true)));
            }
            if self.faults() != old(self).faults() {
                let (f, g) = choose|f: nat, g: nat| cut_short(pre_call, self.ops(), refreshed(f, g));
                let full = seq![Op::Command(0x10), Op::Data(data)] + refreshed(f, g) + seq![Op::Command(0x02)];
                let part = refreshed(f, g);
                assert(full.subrange(2int, 2int + part.len()) =~= part);
                assert(pre_call =~= old(self).ops() + full.take(2int));
                lemma_cut_short_within(old(self).ops(), pre_call, self.ops(), full, 2int, part);
            }
        }
        waited?;
        let ghost (first, second) = choose|first: nat, second: nat| self.ops() == sent + refreshed(first, second);
        let res = self.controller.pof_power_off();
        proof {
            if res is Err {
                let full = seq![Op::Command(0x10), Op::Data(data)] + refreshed(first, second) + seq![Op::Command(0x02)];
                assert(self.ops() =~= old(self).ops() + full.take(2int + refreshed(first, second).len()));
                lemma_cut_short(old(self).ops(), full, 2int + refreshed(first, second).len());
            }
        }
        res?;
        assert(self.ops() =~= old(self).ops() + seq![Op::Command(0x10), Op::Data(data)]
            + refreshed(first, second) + seq![Op::Command(0x02)]);
        Ok(())
    }

    fn width(&self) -> (r: u16) {
        self.width
    }

    fn height(&self) -> (r: u16) {
        self.height
    }
}

} // verus!
