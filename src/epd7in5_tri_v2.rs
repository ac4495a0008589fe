//! The 7.5 inch tri-colour panel of the second generation: 800 by 480
//! pixels on the tri-colour controller, as two planes of one bit per pixel.
use vstd::prelude::*;

use crate::display::EPaperDisplay;
use crate::display_connector::{
    cut_short, lemma_cut_short, lemma_cut_short_longer, lemma_cut_short_within, ends_with, lemma_ends_with, lemma_ends_with_within, MAX_BUSY_POLLS,
    generated_by, DisplayConnector, Error, Op, PanelLink, Result, Signal, SpiConnector,
};
use crate::gd7965::{
    flag, be_bytes, lemma_voltage_code_steps, status_polls, status_wait, voltage_code, PSRFlags, PWRFlags, GD7965,
};

verus! {

/// `mask` where `on` holds, else zero.
pub open spec fn bit(on: bool, mask: u8) -> u8 {
    if on {
        mask
    } else {
        0
    }
}

/// The plane byte of eight neighbouring pixels `v` for `colour`: the bit of
/// the first pixel is the most significant, and a bit is set exactly where
/// the pixel has that colour.
pub open spec fn plane_byte(v: Seq<u8>, colour: u8) -> u8 {
    bit(v[0] == colour, 0x80) | bit(v[1] == colour, 0x40) | bit(v[2] == colour, 0x20) | bit(
        v[3] == colour,
        0x10,
    ) | bit(v[4] == colour, 0x08) | bit(v[5] == colour, 0x04) | bit(v[6] == colour, 0x02) | bit(
        v[7] == colour,
        0x01,
    )
}

/// Whether bit `i` of `b`, counting from the most significant, is set.
pub open spec fn bit_set(b: u8, i: int) -> bool {
    (b >> ((7 - i) as u8)) & 1 == 1
}

/// Where a pixel lands in the two planes: one of colour index 2 sets its bit
/// in the white plane and leaves it clear in the accent plane, one of index 1
/// the reverse, and one of index 0 leaves it clear in both.
pub proof fn lemma_plane_bits(v: Seq<u8>, i: int)
    requires
        v.len() == 8,
        0 <= i < 8,
    ensures
        bit_set(plane_byte(v, 2), i) == (v[i] == 2),
        bit_set(plane_byte(v, 1), i) == (v[i] == 1),
        v[i] == 2 ==> bit_set(plane_byte(v, 2), i) && !bit_set(plane_byte(v, 1), i),
        v[i] == 1 ==> !bit_set(plane_byte(v, 2), i) && bit_set(plane_byte(v, 1), i),
        v[i] == 0 ==> !bit_set(plane_byte(v, 2), i) && !bit_set(plane_byte(v, 1), i),
{
    lemma_plane_bit(v, 2, i);
    lemma_plane_bit(v, 1, i);
}

/// Bit `i` of the plane byte for `colour` is set exactly where pixel `i`
/// has that colour.
pub proof fn lemma_plane_bit(v: Seq<u8>, colour: u8, i: int)
    requires
        v.len() == 8,
        0 <= i < 8,
    ensures
        bit_set(plane_byte(v, colour), i) == (v[i] == colour),
{
    let m0 = bit(v[0] == colour, 0x80);
    let m1 = bit(v[1] == colour, 0x40);
    let m2 = bit(v[2] == colour, 0x20);
    let m3 = bit(v[3] == colour, 0x10);
    let m4 = bit(v[4] == colour, 0x08);
    let m5 = bit(v[5] == colour, 0x04);
    let m6 = bit(v[6] == colour, 0x02);
    let m7 = bit(v[7] == colour, 0x01);
    let b = plane_byte(v, colour);
    assert(b == m0 | m1 | m2 | m3 | m4 | m5 | m6 | m7);
    assert(((b >> 7u8) & 1 == 1) == (m0 == 0x80) && ((b >> 6u8) & 1 == 1) == (m1 == 0x40) && ((b
        >> 5u8) & 1 == 1) == (m2 == 0x20) && ((b >> 4u8) & 1 == 1) == (m3 == 0x10) && ((b >> 3u8)
        & 1 == 1) == (m4 == 0x08) && ((b >> 2u8) & 1 == 1) == (m5 == 0x04) && ((b >> 1u8) & 1 == 1)
        == (m6 == 0x02) && ((b >> 0u8) & 1 == 1) == (m7 == 0x01)) by (bit_vector)
        requires
            m0 == 0 || m0 == 0x80,
            m1 == 0 || m1 == 0x40,
            m2 == 0 || m2 == 0x20,
            m3 == 0 || m3 == 0x10,
            m4 == 0 || m4 == 0x08,
            m5 == 0 || m5 == 0x04,
            m6 == 0 || m6 == 0x02,
            m7 == 0 || m7 == 0x01,
            b == m0 | m1 | m2 | m3 | m4 | m5 | m6 | m7,
    ;
}

/// `b` is the byte at `offset` of the plane for `colour` that `source`
/// paints, with `line_bytes` bytes per row: the eight pixels from column
/// `8 * (offset % line_bytes)` of row `offset / line_bytes`.
pub open spec fn plane_from<F: Fn(u32, u32) -> u8>(
    source: F,
    line_bytes: u32,
    offset: u32,
    colour: u8,
    b: u8,
) -> bool {
    let y = (offset / line_bytes) as u32;
    let x = ((offset % line_bytes) * 8) as u32;
    exists|v: Seq<u8>|
        v.len() == 8 && (forall|i: int|
            0 <= i < 8 ==> source.ensures(((x + i) as u32, y), #[trigger] v[i])) && b
            == plane_byte(v, colour)
}

/// `data` is the plane for `colour` that `source` paints on a panel of
/// `width` by `height`, row by row.
pub open spec fn plane<F: Fn(u32, u32) -> u8>(
    data: Seq<u8>,
    source: F,
    width: u16,
    height: u16,
    colour: u8,
) -> bool {
    let line_bytes = (width / 8) as u32;
    &&& data.len() == line_bytes * height
    &&& forall|o: int|
        0 <= o < data.len() ==> plane_from(source, line_bytes, o as u32, colour, #[trigger] data[o])
}

/// The power setting that `init` writes after the reset.
pub open spec fn power_setup() -> Seq<Op> {
    seq![
        Op::Command(0x01),
        Op::Data(seq![0x07u8, 0x07, 0x3f, 0x3f, 0x03]),
        Op::Command(0x04),
    ]
}

/// The panel configuration that `init` writes once the power is up.
pub open spec fn panel_setup() -> Seq<Op> {
    seq![
        Op::Command(0x00),
        Op::Data(seq![0x0fu8]),
        Op::Command(0x61),
        Op::Data(seq![0x03u8, 0x20, 0x01, 0xe0]),
        Op::Command(0x15),
        Op::Data(seq![0x00u8]),
        Op::Command(0x50),
        Op::Data(seq![0x11u8, 0x07]),
        Op::Command(0x60),
        Op::Data(seq![0x22u8]),
        Op::Command(0x65),
        Op::Data(seq![0x00u8, 0x00, 0x00, 0x00]),
    ]
}

/// The operations of a successful `init`, with the busy readings of its
/// wait.
pub open spec fn initialised(busy: nat) -> Seq<Op> {
    seq![Op::Reset] + power_setup() + status_wait(busy) + panel_setup()
}

/// Power on, a wait, a refresh, and another wait, with the number of busy
/// polls of each wait.
pub open spec fn refreshed(first: nat, second: nat) -> Seq<Op> {
    seq![Op::Command(0x04)] + status_wait(first) + seq![Op::Command(0x12)] + status_wait(second)
}

/// The operations of a successful `push_image_with`: the white plane, a
/// wait, the accent plane, a wait, the refresh and a last wait, with the busy
/// readings of each wait.
pub open spec fn pushed(white: Seq<u8>, accent: Seq<u8>, first: nat, second: nat, third: nat) -> Seq<
    Op,
> {
    seq![Op::Command(0x10), Op::Data(white)] + status_wait(first) + seq![
        Op::Command(0x13),
        Op::Data(accent),
    ] + status_wait(second) + seq![Op::Command(0x12)] + status_wait(third)
}

pub struct EPaper75TriColourV2<T: DisplayConnector> {
    controller: GD7965<T>,
    pub width: u16,
    pub height: u16,
}

impl<L: PanelLink> EPaper75TriColourV2<SpiConnector<L>> {
    /// A panel on `link`, whose bus takes at most `chunk_size` bytes per
    /// transfer.
    pub fn new(link: L, chunk_size: usize) -> (r: EPaper75TriColourV2<SpiConnector<L>>)
        requires
            chunk_size > 0,
        ensures
            r.ops() == Seq::<Op>::empty(),
            r.connector_view().wire() == Seq::<Signal>::empty(),
            r.connector_view().chunk() == chunk_size,
            r.panel_width() == 800,
            r.panel_height() == 480,
    {
        let connector = SpiConnector::new(link, chunk_size);
        let controller = GD7965::new(connector);
        EPaper75TriColourV2 { controller, width: 800, height: 480 }
    }
}

impl<T: DisplayConnector> EPaper75TriColourV2<T> {
    /// What has been sent to the panel so far.
    pub closed spec fn ops(&self) -> Seq<Op> {
        self.controller.ops()
    }

    /// The connector underneath.
    pub closed spec fn connector_view(&self) -> T {
        self.controller.link()
    }

    /// The error that the connector's most recent failing operation returned.
    pub closed spec fn last_error(&self) -> Error {
        self.controller.last_error()
    }

    /// The connector underneath.
    pub fn connector(&self) -> (r: &T)
        ensures
            *r == self.connector_view(),
            r.ops() == self.ops(),
    {
        self.controller.connector()
    }

    /// The plane byte for `colour` at `offset`, from eight calls of `source`.
    fn plane_byte_at<F: Fn(u32, u32) -> u8>(source: &F, line_bytes: u32, offset: u32, colour: u8) -> (b: u8)
        requires
            0 < line_bytes <= 0x2000,
            forall|x: u32, y: u32| source.requires((x, y)),
        ensures
            plane_from(*source, line_bytes, offset, colour, b),
    {
        proof {
            vstd::arithmetic::div_mod::lemma_mod_bound(offset as int, line_bytes as int);
        }
        let y = offset / line_bytes;
        let x = (offset % line_bytes) * 8;
        let v0 = source(x, y);
        let v1 = source(x + 1, y);
        let v2 = source(x + 2, y);
        let v3 = source(x + 3, y);
        let v4 = source(x + 4, y);
        let v5 = source(x + 5, y);
        let v6 = source(x + 6, y);
        let v7 = source(x + 7, y);
        let b = (if v0 == colour { 0x80u8 } else { 0 }) | (if v1 == colour { 0x40u8 } else { 0 })
            | (if v2 == colour { 0x20u8 } else { 0 }) | (if v3 == colour { 0x10u8 } else { 0 })
            | (if v4 == colour { 0x08u8 } else { 0 }) | (if v5 == colour { 0x04u8 } else { 0 })
            | (if v6 == colour { 0x02u8 } else { 0 }) | (if v7 == colour { 0x01u8 } else { 0 });
        let ghost v = seq![v0, v1, v2, v3, v4, v5, v6, v7];
        assert(v.len() == 8);
        assert forall|i: int| 0 <= i < 8 implies (*source).ensures(((x + i) as u32, y), #[trigger] v[i]) by {
            assert(v[0] == v0 && v[1] == v1 && v[2] == v2 && v[3] == v3);
            assert(v[4] == v4 && v[5] == v5 && v[6] == v6 && v[7] == v7);
        };
        assert(b == plane_byte(v, colour));
        assert(y == (offset / line_bytes) as u32 && x == ((offset % line_bytes) * 8) as u32);
        b
    }

    /// Powers on, waits, refreshes, and waits again.
    fn show(&mut self) -> (r: Result<()>)
        ensures
            final(self).faults() != old(self).faults() ==> exists|first: nat, second: nat|
                cut_short(old(self).ops(), final(self).ops(), refreshed(first, second)),
            r == Err::<(), Error>(Error::BusyTimeout) ==> final(self).faults() == old(self).faults()
                && ends_with(old(self).ops(), final(self).ops(), status_polls(MAX_BUSY_POLLS as nat).push(Op::Busy(true))),
            final(self).faults() != old(self).faults() ==> r == Err::<(), Error>(final(self).last_error())
                && final(self).last_error() != Error::BusyTimeout,
            final(self).faults() >= old(self).faults(),
            final(self).faults() != old(self).faults() ==> r is Err,
            final(self).faults() == old(self).faults() ==> r is Ok || r == Err::<(), Error>(
                Error::BusyTimeout,
            ),
            final(self).panel_width() == old(self).panel_width(),
            final(self).panel_height() == old(self).panel_height(),
            r is Ok ==> exists|first: nat, second: nat|
                final(self).ops() == old(self).ops() + refreshed(first, second),
    {
        let res = self.controller.pon_power_on();
        proof {
            if res is Err {
                let full = refreshed(0, 0);
                assert(self.ops() =~= old(self).ops() + full.take(0int));
                lemma_cut_short(old(self).ops(), full, 0int);
            }
        }
        res?;
        let ghost on = self.ops();
        let ghost pre_call = self.ops();
        let waited = self.controller.await_ready_state();
        proof {
            if waited == Err::<(), Error>(Error::BusyTimeout) {
                assert(pre_call.take(old(self).ops().len() as int) =~= old(self).ops());
                lemma_ends_with(old(self).ops(), pre_call, self.ops(), status_polls(MAX_BUSY_POLLS as nat).push(Op::Busy(true)));
            }
            if self.faults() != old(self).faults() {
                let busy = choose|busy: nat| cut_short(pre_call, self.ops(), status_polls(busy));
                let full = refreshed(busy, 0);
                assert(status_wait(busy).take(status_polls(busy).len() as int) =~= status_polls(busy));
                lemma_cut_short_longer(pre_call, self.ops(), status_polls(busy), status_wait(busy));
                assert(full.subrange(1int, 1int + status_wait(busy).len()) =~= status_wait(busy));
                assert(pre_call =~= old(self).ops() + full.take(1int));
                lemma_cut_short_within(old(self).ops(), pre_call, self.ops(), full, 1int, status_wait(busy));
            }
        }
        waited?;
        let ghost first = choose|busy: nat| self.ops() == on + status_wait(busy);
        let res = self.controller.drf_display_refresh();
        proof {
            if res is Err {
                let full = refreshed(first, 0);
                assert(self.ops() =~= old(self).ops() + full.take(1int + status_wait(first).len()));
                lemma_cut_short(old(self).ops(), full, 1int + status_wait(first).len());
            }
        }
        res?;
        let ghost refreshing = self.ops();
        let ghost pre_call = self.ops();
        let waited = self.controller.await_ready_state();
        proof {
            if waited == Err::<(), Error>(Error::BusyTimeout) {
                assert(pre_call.take(old(self).ops().len() as int) =~= old(self).ops());
                lemma_ends_with(old(self).ops(), pre_call, self.ops(), status_polls(MAX_BUSY_POLLS as nat).push(Op::Busy(true)));
            }
            if self.faults() != old(self).faults() {
                let busy = choose|busy: nat| cut_short(pre_call, self.ops(), status_polls(busy));
                let full = refreshed(first, busy);
                assert(status_wait(busy).take(status_polls(busy).len() as int) =~= status_polls(busy));
                lemma_cut_short_longer(pre_call, self.ops(), status_polls(busy), status_wait(busy));
                assert(full.subrange(2int + status_wait(first).len(), 2int + status_wait(first).len() + status_wait(busy).len()) =~= status_wait(busy));
                assert(pre_call =~= old(self).ops() + full.take(2int + status_wait(first).len()));
                lemma_cut_short_within(old(self).ops(), pre_call, self.ops(), full, 2int + status_wait(first).len(), status_wait(busy));
            }
        }
        waited?;
        let ghost second = choose|busy: nat| self.ops() == refreshing + status_wait(busy);
        assert(self.ops() =~= old(self).ops() + refreshed(first, second));
        Ok(())
    }

    /// Sends `width * height / 2` bytes of `val` as the first plane, shows
    /// them, and powers off.
    fn fill(&mut self, val: u8) -> (r: Result<()>)
        ensures
            final(self).faults() != old(self).faults() ==> exists|first: nat, second: nat|
                cut_short(
                    old(self).ops(),
                    final(self).ops(),
                    seq![Op::Command(0x10), Op::Data(Seq::new(((old(self).panel_width() * old(self).panel_height()) / 2) as nat, |_i: int| val))] + refreshed(first, second) + seq![Op::Command(0x02)],
                ),
            r == Err::<(), Error>(Error::BusyTimeout) ==> final(self).faults() == old(self).faults()
                && ends_with(old(self).ops(), final(self).ops(), status_polls(MAX_BUSY_POLLS as nat).push(Op::Busy(true))),
            final(self).faults() != old(self).faults() ==> r == Err::<(), Error>(final(self).last_error())
                && final(self).last_error() != Error::BusyTimeout,
            final(self).panel_width() == old(self).panel_width(),
            final(self).panel_height() == old(self).panel_height(),
            final(self).faults() >= old(self).faults(),
            final(self).faults() != old(self).faults() ==> r is Err,
            final(self).faults() == old(self).faults() ==> r is Ok || r == Err::<(), Error>(
                Error::BusyTimeout,
            ),
            r is Ok ==> exists|first: nat, second: nat|
                final(self).ops() == old(self).ops() + seq![
                    Op::Command(0x10),
                    Op::Data(Seq::new(((old(self).panel_width() * old(self).panel_height()) / 2) as nat, |_i: int| val)),
                ] + refreshed(first, second) + seq![Op::Command(0x02)],
    {
        assert((self.width as u32) * (self.height as u32) <= 0xffff * 0xffff) by (nonlinear_arith)
            requires
                self.width <= 0xffff,
                self.height <= 0xffff,
        ;
        let size: u32 = (self.width as u32 * self.height as u32) / 2;
        let fill = |_i: u32| -> (b: u8)
            ensures
                b == val,
            { val };
        let ghost start = self.ops();
        let res = self.controller.transmit_with(size, fill);
        proof {
            if res is Err {
                let full = seq![Op::Command(0x10), Op::Data(Seq::new(size as nat, |_i: int| val))] + refreshed(0, 0) + seq![Op::Command(0x02)];
                if self.ops().len() == old(self).ops().len() + 0int {
                    assert(self.ops() =~= old(self).ops() + full.take(0int));
                    lemma_cut_short(old(self).ops(), full, 0int);
                } else {
                    assert(self.ops() =~= old(self).ops() + full.take(0int + 1));
                    lemma_cut_short(old(self).ops(), full, 0int + 1);
                }
            }
        }
        res?;
        let ghost d = choose|d: Seq<u8>|
            generated_by(d, size, fill) && self.ops() == start + seq![Op::Command(0x10), Op::Data(d)];
        assert(d =~= Seq::new(size as nat, |_i: int| val));
        let ghost sent = self.ops();
        let ghost pre_call = self.ops();
        let waited = self.show();
        proof {
            if waited == Err::<(), Error>(Error::BusyTimeout) {
                assert(pre_call.take(old(self).ops().len() as int) =~= old(self).ops());
                lemma_ends_with_within(old(self).ops(), pre_call, self.ops(), status_polls(MAX_BUSY_POLLS as nat).push(Op::Busy(true)));
            }
            if self.faults() != old(self).faults() {
                let (f, g) = choose|f: nat, g: nat| cut_short(pre_call, self.ops(), refreshed(f, g));
                let full = seq![Op::Command(0x10), Op::Data(Seq::new(size as nat, |_i: int| val))] + refreshed(f, g) + seq![Op::Command(0x02)];
                let part = refreshed(f, g);
                assert(full.subrange(2int, 2int + part.len()) =~= part);
                assert(pre_call =~= old(self).ops() + full.take(2int));
                lemma_cut_short_within(old(self).ops(), pre_call, self.ops(), full, 2int, part);
            }
        }
        waited?;
        let ghost (first, second) = choose|first: nat, second: nat| self.ops() == sent + refreshed(first, second);
        let res = self.controller.pof_power_off();
        proof {
            if res is Err {
                let full = seq![Op::Command(0x10), Op::Data(Seq::new(size as nat, |_i: int| val))] + refreshed(first, second) + seq![Op::Command(0x02)];
                assert(self.ops() =~= old(self).ops() + full.take(2int + refreshed(first, second).len()));
                lemma_cut_short(old(self).ops(), full, 2int + refreshed(first, second).len());
            }
        }
        res?;
        assert(self.ops() =~= old(self).ops() + seq![
            Op::Command(0x10),
            Op::Data(Seq::new(size as nat, |_i: int| val)),
        ] + refreshed(first, second) + seq![Op::Command(0x02)]);
        Ok(())
    }

    /// Powers off, waits for the panel, and puts it into deep sleep.
    pub fn sleep(&mut self) -> (r: Result<()>)
        ensures
            final(self).faults() != old(self).faults() ==> exists|busy: nat|
                cut_short(old(self).ops(), final(self).ops(), seq![Op::Command(0x02)] + status_wait(busy) + seq![Op::Command(0x07), Op::Data(seq![0xa5u8])]),
            r == Err::<(), Error>(Error::BusyTimeout) ==> final(self).faults() == old(self).faults()
                && ends_with(old(self).ops(), final(self).ops(), status_polls(MAX_BUSY_POLLS as nat).push(Op::Busy(true))),
            final(self).faults() != old(self).faults() ==> r == Err::<(), Error>(final(self).last_error())
                && final(self).last_error() != Error::BusyTimeout,
            final(self).faults() >= old(self).faults(),
            final(self).faults() != old(self).faults() ==> r is Err,
            final(self).faults() == old(self).faults() ==> r is Ok || r == Err::<(), Error>(
                Error::BusyTimeout,
            ),
            r is Ok ==> exists|busy: nat|
                final(self).ops() == old(self).ops() + seq![Op::Command(0x02)] + status_wait(busy)
                    + seq![Op::Command(0x07), Op::Data(seq![0xa5u8])],
    {
        let res = self.controller.pof_power_off();
        proof {
            if res is Err {
                let full = seq![Op::Command(0x02)] + status_wait(0) + seq![Op::Command(0x07), Op::Data(seq![0xa5u8])];
                assert(self.ops() =~= old(self).ops() + full.take(0int));
                lemma_cut_short(old(self).ops(), full, 0int);
            }
        }
        res?;
        let ghost before = self.ops();
        let ghost pre_call = self.ops();
        let waited = self.controller.await_ready_state();
        proof {
            if waited == Err::<(), Error>(Error::BusyTimeout) {
                assert(pre_call.take(old(self).ops().len() as int) =~= old(self).ops());
                lemma_ends_with(old(self).ops(), pre_call, self.ops(), status_polls(MAX_BUSY_POLLS as nat).push(Op::Busy(true)));
            }
            if self.faults() != old(self).faults() {
                let busy = choose|busy: nat| cut_short(pre_call, self.ops(), status_polls(busy));
                let full = seq![Op::Command(0x02)] + status_wait(busy) + seq![Op::Command(0x07), Op::Data(seq![0xa5u8])];
                assert(status_wait(busy).take(status_polls(busy).len() as int) =~= status_polls(busy));
                lemma_cut_short_longer(pre_call, self.ops(), status_polls(busy), status_wait(busy));
                assert(full.subrange(1int, 1int + status_wait(busy).len()) =~= status_wait(busy));
                assert(pre_call =~= old(self).ops() + full.take(1int));
                lemma_cut_short_within(old(self).ops(), pre_call, self.ops(), full, 1int, status_wait(busy));
            }
        }
        waited?;
        let ghost busy = choose|busy: nat| self.ops() == before + status_wait(busy);
        let ghost pre_step = self.ops();
        let res = self.controller.dslp_deep_sleep();
        proof {
            if res is Err {
                let full = seq![Op::Command(0x02)] + status_wait(busy) + seq![Op::Command(0x07), Op::Data(seq![0xa5u8])];
                let part = seq![Op::Command(0x07), Op::Data(seq![0xa5u8])];
                assert(full.subrange(1int + status_wait(busy).len(), 1int + status_wait(busy).len() + part.len()) =~= part);
                assert(pre_step =~= old(self).ops() + full.take(1int + status_wait(busy).len()));
                lemma_cut_short_within(old(self).ops(), pre_step, self.ops(), full, 1int + status_wait(busy).len(), part);
            }
        }
        res?;
        assert(self.ops() =~= old(self).ops() + seq![Op::Command(0x02)] + status_wait(busy)
            + seq![Op::Command(0x07), Op::Data(seq![0xa5u8])]);
        Ok(())
    }

    /// Fills the first plane with the byte `val`, shows it, and powers off.
    pub fn clear_with_val(&mut self, val: u8) -> (r: Result<()>)
        ensures
            final(self).faults() != old(self).faults() ==> exists|first: nat, second: nat|
                cut_short(
                    old(self).ops(),
                    final(self).ops(),
                    seq![Op::Command(0x10), Op::Data(Seq::new(((old(self).panel_width() * old(self).panel_height()) / 2) as nat, |_i: int| val))] + refreshed(first, second) + seq![Op::Command(0x02)],
                ),
            r == Err::<(), Error>(Error::BusyTimeout) ==> final(self).faults() == old(self).faults()
                && ends_with(old(self).ops(), final(self).ops(), status_polls(MAX_BUSY_POLLS as nat).push(Op::Busy(true))),
            final(self).faults() != old(self).faults() ==> r == Err::<(), Error>(final(self).last_error())
                && final(self).last_error() != Error::BusyTimeout,
            final(self).faults() >= old(self).faults(),
            final(self).faults() != old(self).faults() ==> r is Err,
            final(self).faults() == old(self).faults() ==> r is Ok || r == Err::<(), Error>(
                Error::BusyTimeout,
            ),
            r is Ok ==> exists|first: nat, second: nat|
                final(self).ops() == old(self).ops() + seq![
                    Op::Command(0x10),
                    Op::Data(Seq::new(((old(self).panel_width() * old(self).panel_height()) / 2) as nat, |_i: int| val)),
                ] + refreshed(first, second) + seq![Op::Command(0x02)],
    {
        self.fill(val)
    }
}

impl<T: DisplayConnector> EPaperDisplay for EPaper75TriColourV2<T> {
    closed spec fn panel_width(&self) -> u16 {
        self.width
    }

    closed spec fn panel_height(&self) -> u16 {
        self.height
    }

    closed spec fn faults(&self) -> nat {
        self.controller.faults()
    }

    #[verifier::rlimit(100)]
    fn init(&mut self) -> (r: Result<()>)
        ensures
            r == Err::<(), Error>(Error::BusyTimeout) ==> final(self).faults() == old(self).faults()
                && ends_with(old(self).ops(), final(self).ops(), status_polls(MAX_BUSY_POLLS as nat).push(Op::Busy(true))),
            final(self).faults() != old(self).faults() ==> r == Err::<(), Error>(final(self).last_error())
                && final(self).last_error() != Error::BusyTimeout,
            final(self).faults() != old(self).faults() ==> exists|busy: nat|
                cut_short(old(self).ops(), final(self).ops(), initialised(busy)),
            r is Ok ==> exists|busy: nat|
                final(self).ops() == old(self).ops().push(Op::Reset) + power_setup() + status_wait(
                    busy,
                ) + panel_setup(),
    {
        let pwr = PWRFlags::from_bits(
            PWRFlags::VSR_EN | PWRFlags::VS_EN | PWRFlags::VG_EN | PWRFlags::VG_LVL_20V,
        );
        let psr = PSRFlags::from_bits(PSRFlags::UD | PSRFlags::SHL | PSRFlags::SHD_N | PSRFlags::RST_N);
        proof {
            lemma_voltage_code_steps(15000);
            lemma_voltage_code_steps(3000);
            assert((0x0400u16 | 0x0200 | 0x0100 | 0x0007) == 0x0707u16) by (bit_vector);
            assert((0x0707u16 >> 8) as u8 == 0x07u8 && (0x0707u16 & 0xff) as u8 == 0x07u8) by (bit_vector);
            assert(be_bytes(0x0707) =~= seq![0x07u8, 0x07]);
            assert(be_bytes(0x0707) + seq![
                voltage_code(15000),
                voltage_code(15000),
                voltage_code(3000),
            ] =~= seq![0x07u8, 0x07, 0x3f, 0x3f, 0x03]);
            assert((0x08u8 | 0x04 | 0x02 | 0x01) == 0x0fu8) by (bit_vector);
            assert(be_bytes(800) + be_bytes(480) =~= seq![0x03u8, 0x20, 0x01, 0xe0]) by {
                assert((800u16 >> 8) as u8 == 0x03u8 && (800u16 & 0xff) as u8 == 0x20u8) by (bit_vector);
                assert((480u16 >> 8) as u8 == 0x01u8 && (480u16 & 0xff) as u8 == 0xe0u8) by (bit_vector);
            };
            assert(((0u8 << 5) | (0u8 << 4)) as u8 == 0u8) by (bit_vector);
            assert((((0u8 << 7) | ((1u8 & 3) << 4) | (0u8 << 3) | (1u8 & 3)) as u8) == 0x11u8
                && (7u8 & 7) == 7u8) by (bit_vector);
            assert((((2u8 & 7) << 4) | (2u8 & 7)) as u8 == 0x22u8) by (bit_vector);
            assert((0x3u8 & (0u16 >> 8) as u8) == 0u8 && (0xf1u8 & 0u16 as u8) == 0u8) by (bit_vector);
        }
        let res = self.controller.reset();
        proof {
            if res is Err {
                let full = initialised(0);
                assert(self.ops() =~= old(self).ops() + full.take(0int));
                lemma_cut_short(old(self).ops(), full, 0int);
            }
        }
        res?;
        let ghost pre_step = self.ops();
        let res = self.controller.pwr_power_setting(pwr, 15000, -15000, 3000);
        proof {
            if res is Err {
                let full = initialised(0);
                let part = seq![Op::Command(0x01), Op::Data(be_bytes(pwr.bits) + seq![voltage_code(15000), voltage_code(15000), voltage_code(3000)])];
                assert(full.subrange(1int, 1int + part.len()) =~= part);
                assert(pre_step =~= old(self).ops() + full.take(1int));
                lemma_cut_short_within(old(self).ops(), pre_step, self.ops(), full, 1int, part);
            }
        }
        res?;
        let res = self.controller.pon_power_on();
        proof {
            if res is Err {
                let full = initialised(0);
                assert(self.ops() =~= old(self).ops() + full.take(3int));
                lemma_cut_short(old(self).ops(), full, 3int);
            }
        }
        res?;
        let ghost on = self.ops();
        let ghost pre_call = self.ops();
        let waited = self.controller.await_ready_state();
        proof {
            if waited == Err::<(), Error>(Error::BusyTimeout) {
                assert(pre_call.take(old(self).ops().len() as int) =~= old(self).ops());
                lemma_ends_with(old(self).ops(), pre_call, self.ops(), status_polls(MAX_BUSY_POLLS as nat).push(Op::Busy(true)));
            }
            if self.faults() != old(self).faults() {
                let busy = choose|busy: nat| cut_short(pre_call, self.ops(), status_polls(busy));
                let full = initialised(busy);
                assert(status_wait(busy).take(status_polls(busy).len() as int) =~= status_polls(busy));
                lemma_cut_short_longer(pre_call, self.ops(), status_polls(busy), status_wait(busy));
                assert(full.subrange(4int, 4int + status_wait(busy).len()) =~= status_wait(busy));
                assert(pre_call =~= old(self).ops() + full.take(4int));
                lemma_cut_short_within(old(self).ops(), pre_call, self.ops(), full, 4int, status_wait(busy));
            }
        }
        waited?;
        let ghost busy = choose|busy: nat| self.ops() == on + status_wait(busy);
        let ghost m: int = 4int + status_wait(busy).len();
        let ghost pre_step = self.ops();
        let res = self.controller.psr_panel_setting(psr);
        proof {
            if res is Err {
                let full = initialised(busy);
                let part = seq![Op::Command(0x00), Op::Data(seq![psr.bits])];
                assert(full.subrange(m + 0, m + 0 + part.len()) =~= part);
                assert(pre_step =~= old(self).ops() + full.take(m + 0));
                lemma_cut_short_within(old(self).ops(), pre_step, self.ops(), full, m + 0, part);
            }
        }
        res?;
        let ghost pre_step = self.ops();
        let res = self.controller.tres_resolution(800, 480);
        proof {
            if res is Err {
                let full = initialised(busy);
                let part = seq![Op::Command(0x61), Op::Data(be_bytes(800) + be_bytes(480))];
                assert(full.subrange(m + 2, m + 2 + part.len()) =~= part);
                assert(pre_step =~= old(self).ops() + full.take(m + 2));
                lemma_cut_short_within(old(self).ops(), pre_step, self.ops(), full, m + 2, part);
            }
        }
        res?;
        let ghost pre_step = self.ops();
        let res = self.controller.duspi_dual_spi_mode(false, false);
        proof {
            if res is Err {
                let full = initialised(busy);
                let part = seq![Op::Command(0x15), Op::Data(seq![(flag(false) << 5 | flag(false) << 4) as u8])];
                assert(full.subrange(m + 4, m + 4 + part.len()) =~= part);
                assert(pre_step =~= old(self).ops() + full.take(m + 4));
                lemma_cut_short_within(old(self).ops(), pre_step, self.ops(), full, m + 4, part);
            }
        }
        res?;
        let ghost pre_step = self.ops();
        let res = self.controller.cdi_vcom_and_data_interval_settings(false, 1, false, 1, 7);
        proof {
            if res is Err {
                let full = initialised(busy);
                let part = seq![Op::Command(0x50), Op::Data(seq![(flag(false) << 7 | (1u8 & 3) << 4 | flag(false) << 3 | 1u8 & 3) as u8, 7u8 & 7])];
                assert(full.subrange(m + 6, m + 6 + part.len()) =~= part);
                assert(pre_step =~= old(self).ops() + full.take(m + 6));
                lemma_cut_short_within(old(self).ops(), pre_step, self.ops(), full, m + 6, part);
            }
        }
        res?;
        let ghost pre_step = self.ops();
        let res = self.controller.tcon_setting(2, 2);
        proof {
            if res is Err {
                let full = initialised(busy);
                let part = seq![Op::Command(0x60), Op::Data(seq![((2u8 & 7) << 4 | 2u8 & 7) as u8])];
                assert(full.subrange(m + 8, m + 8 + part.len()) =~= part);
                assert(pre_step =~= old(self).ops() + full.take(m + 8));
                lemma_cut_short_within(old(self).ops(), pre_step, self.ops(), full, m + 8, part);
            }
        }
        res?;
        let ghost pre_step = self.ops();
        let res = self.controller.gss_gate_source_start_setting(0, 0);
        proof {
            if res is Err {
                let full = initialised(busy);
                let part = seq![Op::Command(0x65), Op::Data(seq![(0x3 & (0u16 >> 8) as u8) as u8, (0xf1 & 0u16 as u8) as u8, (0x3 & (0u16 >> 8) as u8) as u8, 0u16 as u8])];
                assert(full.subrange(m + 10, m + 10 + part.len()) =~= part);
                assert(pre_step =~= old(self).ops() + full.take(m + 10));
                lemma_cut_short_within(old(self).ops(), pre_step, self.ops(), full, m + 10, part);
            }
        }
        res?;
        assert(self.ops() =~= old(self).ops().push(Op::Reset) + power_setup() + status_wait(busy)
            + panel_setup());
        Ok(())
    }

    fn clear(&mut self) -> (r: Result<()>)
        ensures
            final(self).faults() != old(self).faults() ==> exists|first: nat, second: nat|
                cut_short(
                    old(self).ops(),
                    final(self).ops(),
                    seq![Op::Command(0x10), Op::Data(Seq::new(((old(self).panel_width() * old(self).panel_height()) / 2) as nat, |_i: int| 0u8))] + refreshed(first, second) + seq![Op::Command(0x02)],
                ),
            r == Err::<(), Error>(Error::BusyTimeout) ==> final(self).faults() == old(self).faults()
                && ends_with(old(self).ops(), final(self).ops(), status_polls(MAX_BUSY_POLLS as nat).push(Op::Busy(true))),
            final(self).faults() != old(self).faults() ==> r == Err::<(), Error>(final(self).last_error())
                && final(self).last_error() != Error::BusyTimeout,
            r is Ok ==> exists|first: nat, second: nat|
                final(self).ops() == old(self).ops() + seq![
                    Op::Command(0x10),
                    Op::Data(Seq::new(((old(self).panel_width() * old(self).panel_height()) / 2) as nat, |_i: int| 0u8)),
                ] + refreshed(first, second) + seq![Op::Command(0x02)],
    {
        self.fill(0x00)
    }

    #[verifier::rlimit(100)]
    fn push_image_with<F: Fn(u32, u32) -> u8>(&mut self, source: F) -> (r: Result<()>)
        ensures
            r == Err::<(), Error>(Error::BusyTimeout) ==> final(self).faults() == old(self).faults()
                && ends_with(old(self).ops(), final(self).ops(), status_polls(MAX_BUSY_POLLS as nat).push(Op::Busy(true))),
            final(self).faults() != old(self).faults() ==> r == Err::<(), Error>(final(self).last_error())
                && final(self).last_error() != Error::BusyTimeout,
            r is Ok ==> exists|white: Seq<u8>, accent: Seq<u8>, first: nat, second: nat, third: nat|
                plane(white, source, old(self).panel_width(), old(self).panel_height(), 2)
                    && plane(accent, source, old(self).panel_width(), old(self).panel_height(), 1)
                    && final(self).ops() == old(self).ops() + pushed(white, accent, first, second, third),
            final(self).faults() != old(self).faults() ==> exists|
                white: Seq<u8>,
                accent: Seq<u8>,
                first: nat,
                second: nat,
                third: nat,
            | cut_short(old(self).ops(), final(self).ops(), pushed(white, accent, first, second, third)),
    {
        let line_bytes: u32 = (self.width / 8) as u32;
        assert(line_bytes * (self.height as u32) <= 0x2000 * 0xffff) by (nonlinear_arith)
            requires
                line_bytes <= 0x2000,
                self.height <= 0xffff,
        ;
        let size: u32 = line_bytes * self.height as u32;
        if line_bytes == 0 {
            assert(size == 0) by (nonlinear_arith)
                requires
                    line_bytes == 0,
                    size == line_bytes * (self.height as u32),
            ;
        }
        let src = &source;
        let white_plane = move |offset: u32| -> (b: u8)
            requires
                offset < size,
                0 < line_bytes <= 0x2000,
                forall|x: u32, y: u32| src.requires((x, y)),
            ensures
                plane_from(*src, line_bytes, offset, 2, b),
            {
                Self::plane_byte_at(src, line_bytes, offset, 2)
            };
        let accent_plane = move |offset: u32| -> (b: u8)
            requires
                offset < size,
                0 < line_bytes <= 0x2000,
                forall|x: u32, y: u32| src.requires((x, y)),
            ensures
                plane_from(*src, line_bytes, offset, 1, b),
            {
                Self::plane_byte_at(src, line_bytes, offset, 1)
            };
        let ghost start = self.ops();
        let ghost empty = Seq::<u8>::empty();
        let sent_white_plane = self.controller.transmit_with(size, white_plane);
        proof {
            if sent_white_plane is Err {
                let full = pushed(empty, empty, 0, 0, 0);
                assert(self.ops().len() >= old(self).ops().len());
                if self.ops().len() == old(self).ops().len() + 0int {
                    assert(self.ops() =~= old(self).ops() + full.take(0));
                    lemma_cut_short(old(self).ops(), full, 0int);
                } else {
                    assert(self.ops() =~= old(self).ops() + full.take(1int));
                    lemma_cut_short(old(self).ops(), full, 1int);
                }
            }
        }
        sent_white_plane?;
        let ghost white = choose|d: Seq<u8>|
            generated_by(d, size, white_plane) && self.ops() == start + seq![Op::Command(0x10), Op::Data(d)];
        assert(plane(white, source, self.width, self.height, 2));
        let ghost sent_white = self.ops();
        let ghost pre_call = self.ops();
        let waited = self.controller.await_ready_state();
        proof {
            assert(pre_call.take(old(self).ops().len() as int) =~= old(self).ops());
            if waited == Err::<(), Error>(Error::BusyTimeout) {
                lemma_ends_with(old(self).ops(), pre_call, self.ops(), status_polls(MAX_BUSY_POLLS as nat).push(Op::Busy(true)));
            }
            if self.faults() != old(self).faults() {
                let busy = choose|busy: nat| cut_short(pre_call, self.ops(), status_polls(busy));
                let full = pushed(white, empty, busy, 0, 0);
                assert(status_wait(busy).take(status_polls(busy).len() as int) =~= status_polls(busy));
                lemma_cut_short_longer(pre_call, self.ops(), status_polls(busy), status_wait(busy));
                assert(full.subrange(2int, 2int + status_wait(busy).len()) =~= status_wait(busy));
                assert(pre_call =~= old(self).ops() + full.take(2int));
                lemma_cut_short_within(old(self).ops(), pre_call, self.ops(), full, 2int, status_wait(busy));
            }
        }
        waited?;
        let ghost first = choose|busy: nat| self.ops() == sent_white + status_wait(busy);
        let ghost ready = self.ops();
        let ghost m2: int = 2int + status_wait(first).len();
        let sent_accent_plane = self.controller.transmit_with2(size, accent_plane);
        proof {
            if sent_accent_plane is Err {
                let full = pushed(white, empty, first, 0, 0);
                assert(self.ops().len() >= old(self).ops().len());
                if self.ops().len() == old(self).ops().len() + m2 {
                    assert(self.ops() =~= old(self).ops() + full.take(m2));
                    lemma_cut_short(old(self).ops(), full, m2);
                } else {
                    assert(self.ops() =~= old(self).ops() + full.take(m2 + 1));
                    lemma_cut_short(old(self).ops(), full, m2 + 1);
                }
            }
        }
        sent_accent_plane?;
        let ghost accent = choose|d: Seq<u8>|
            generated_by(d, size, accent_plane) && self.ops() == ready + seq![Op::Command(0x13), Op::Data(d)];
        assert(plane(accent, source, self.width, self.height, 1));
        let ghost sent_accent = self.ops();
        let ghost pre_call = self.ops();
        let waited = self.controller.await_ready_state();
        proof {
            assert(pre_call.take(old(self).ops().len() as int) =~= old(self).ops());
            if waited == Err::<(), Error>(Error::BusyTimeout) {
                lemma_ends_with(old(self).ops(), pre_call, self.ops(), status_polls(MAX_BUSY_POLLS as nat).push(Op::Busy(true)));
            }
            if self.faults() != old(self).faults() {
                let busy = choose|busy: nat| cut_short(pre_call, self.ops(), status_polls(busy));
                let full = pushed(white, accent, first, busy, 0);
                assert(status_wait(busy).take(status_polls(busy).len() as int) =~= status_polls(busy));
                lemma_cut_short_longer(pre_call, self.ops(), status_polls(busy), status_wait(busy));
                assert(full.subrange(m2 + 2, m2 + 2 + status_wait(busy).len()) =~= status_wait(busy));
                assert(pre_call =~= old(self).ops() + full.take(m2 + 2));
                lemma_cut_short_within(old(self).ops(), pre_call, self.ops(), full, m2 + 2, status_wait(busy));
            }
        }
        waited?;
        let ghost second = choose|busy: nat| self.ops() == sent_accent + status_wait(busy);
        let ghost m3: int = m2 + 2 + status_wait(second).len();
        let refreshed_panel = self.controller.drf_display_refresh();
        proof {
            if refreshed_panel is Err {
                let full = pushed(white, accent, first, second, 0);
                assert(self.ops() =~= old(self).ops() + full.take(m3));
                lemma_cut_short(old(self).ops(), full, m3);
            }
        }
        refreshed_panel?;
        let ghost refreshing = self.ops();
        let ghost pre_call = self.ops();
        let waited = self.controller.await_ready_state();
        proof {
            assert(pre_call.take(old(self).ops().len() as int) =~= old(self).ops());
            if waited == Err::<(), Error>(Error::BusyTimeout) {
                lemma_ends_with(old(self).ops(), pre_call, self.ops(), status_polls(MAX_BUSY_POLLS as nat).push(Op::Busy(true)));
            }
            if self.faults() != old(self).faults() {
                let busy = choose|busy: nat| cut_short(pre_call, self.ops(), status_polls(busy));
                let full = pushed(white, accent, first, second, busy);
                assert(status_wait(busy).take(status_polls(busy).len() as int) =~= status_polls(busy));
                lemma_cut_short_longer(pre_call, self.ops(), status_polls(busy), status_wait(busy));
                assert(full.subrange(m3 + 1, m3 + 1 + status_wait(busy).len()) =~= status_wait(busy));
                assert(pre_call =~= old(self).ops() + full.take(m3 + 1));
                lemma_cut_short_within(old(self).ops(), pre_call, self.ops(), full, m3 + 1, status_wait(busy));
            }
        }
        waited?;
        let ghost third = choose|busy: nat| self.ops() == refreshing + status_wait(busy);
        assert(self.ops() =~= old(self).ops() + pushed(white, accent, first, second, third));
        Ok(())
    }

    fn width(&self) -> (r: u16) {
        self.width
    }

    fn height(&self) -> (r: u16) {
        self.height
    }
}

} // verus!
