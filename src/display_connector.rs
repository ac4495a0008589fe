//! The byte transport between the controllers and the panel.
//!
//! Two levels are modelled. A [`DisplayConnector`] speaks in commands and data
//! blocks ([`Op`]); a [`PanelLink`] is the wiring underneath, which drives the
//! reset and data/command lines, writes bytes to the bus and sleeps
//! ([`Signal`]). [`SpiConnector`] builds the first on the second: it chunks
//! writes to the bus's transfer size and streams generated data through one
//! reused buffer.
use vstd::prelude::*;
use vstd::slice::slice_subrange;

verus! {

/// What can go wrong while talking to the panel.
#[derive(Debug, Clone, Copy, PartialEq, Eq, Structural)]
pub enum Error {
    SpiWriteError,
    DelayError,
    BusyPinReadError,
    ResetPinWriteError,
    DcPinWriteError,
    /// The panel still reported busy after the whole polling budget.
    BusyTimeout,
}

pub type Result<T> = core::result::Result<T, Error>;

/// One step of the conversation with the panel, as a controller issues it.
pub enum Op {
    /// The reset pulse.
    Reset,
    /// A command byte, sent with the data/command line low.
    Command(u8),
    /// A block of data bytes, sent with the data/command line high.
    Data(Seq<u8>),
    /// An explicit pause, in milliseconds.
    Delay(u16),
    /// A reading of the busy line, with its answer: `true` while the panel is
    /// not ready.
    Busy(bool),
}

/// `after` is `before` followed by a proper prefix of `steps`: an operation
/// that should have sent `steps` stopped at its first failure.
pub open spec fn cut_short(before: Seq<Op>, after: Seq<Op>, steps: Seq<Op>) -> bool {
    exists|n: int| 0 <= n < steps.len() && after == before + #[trigger] steps.take(n)
}

/// Stopping early in `steps` is stopping early in any run that begins with
/// `steps`.
pub proof fn lemma_cut_short_longer(before: Seq<Op>, after: Seq<Op>, steps: Seq<Op>, longer: Seq<Op>)
    requires
        cut_short(before, after, steps),
        steps.len() <= longer.len(),
        longer.take(steps.len() as int) == steps,
    ensures
        cut_short(before, after, longer),
{
    let n = choose|n: int| 0 <= n < steps.len() && after == before + #[trigger] steps.take(n);
    assert(longer.take(n) =~= steps.take(n));
    lemma_cut_short(before, longer, n);
}

/// `after` is `before` followed by further operations that end in `tail`.
pub open spec fn ends_with(before: Seq<Op>, after: Seq<Op>, tail: Seq<Op>) -> bool {
    exists|pre: Seq<Op>| after == before + pre + tail
}

/// Operations that went on from `before` to `mid` and then did `tail` end in
/// `tail`.
pub proof fn lemma_ends_with(before: Seq<Op>, mid: Seq<Op>, after: Seq<Op>, tail: Seq<Op>)
    requires
        mid.len() >= before.len(),
        mid.take(before.len() as int) == before,
        after == mid + tail,
    ensures
        ends_with(before, after, tail),
{
    let pre = mid.skip(before.len() as int);
    assert(after =~= before + pre + tail);
}

/// Ending in `tail` after `mid` is ending in `tail` after any earlier point.
pub proof fn lemma_ends_with_within(before: Seq<Op>, mid: Seq<Op>, after: Seq<Op>, tail: Seq<Op>)
    requires
        mid.len() >= before.len(),
        mid.take(before.len() as int) == before,
        ends_with(mid, after, tail),
    ensures
        ends_with(before, after, tail),
{
    let pre = choose|pre: Seq<Op>| after == mid + pre + tail;
    assert(after =~= before + (mid.skip(before.len() as int) + pre) + tail);
}

/// Operations that stop after `n` of `steps` are cut short.
pub proof fn lemma_cut_short(before: Seq<Op>, steps: Seq<Op>, n: int)
    requires
        0 <= n < steps.len(),
    ensures
        cut_short(before, before + steps.take(n), steps),
{
}

/// One action on the wires.
pub enum Signal {
    /// The reset line is driven high (`true`) or low.
    ResetLine(bool),
    /// The data/command line is driven high (data) or low (command).
    DcLine(bool),
    /// One bus transfer.
    Write(Seq<u8>),
    /// A pause, in milliseconds.
    Pause(u16),
    /// A reading of the busy line: whether it read low.
    BusyRead(bool),
}

/// `data` holds exactly the `count` bytes that `source` gives for the indices
/// `0..count`, in order.
pub open spec fn generated_by<F: Fn(u32) -> u8>(data: Seq<u8>, count: u32, source: F) -> bool {
    &&& data.len() == count
    &&& forall|i: int| 0 <= i < count ==> source.ensures((i as u32,), #[trigger] data[i])
}

/// `data` holds the first bytes that `source` gives for the indices from 0,
/// at most `count` of them, and a stream of them through buffer loads of
/// `block` bytes failed in the load that starts at `loaded`.
pub open spec fn stopped_at<F: Fn(u32) -> u8>(
    data: Seq<u8>,
    count: u32,
    source: F,
    block: nat,
    loaded: int,
) -> bool {
    &&& 0 <= loaded < data.len() <= count
    &&& loaded % (block as int) == 0
    &&& forall|i: int| 0 <= i < data.len() ==> source.ensures((i as u32,), #[trigger] data[i])
}

/// The bytes that the bus transfers among `signals` carry, in order.
pub open spec fn written(signals: Seq<Signal>) -> Seq<u8>
    decreases signals.len(),
{
    if signals.len() == 0 {
        seq![]
    } else {
        let rest = written(signals.drop_last());
        match signals.last() {
            Signal::Write(bytes) => rest + bytes,
            _ => rest,
        }
    }
}

/// The transfers that send `data` over a bus that takes at most `size` bytes
/// at a time: full chunks, then the remainder.
pub open spec fn chunked(data: Seq<u8>, size: nat) -> Seq<Signal>
    decreases data.len(),
{
    if data.len() == 0 || size == 0 {
        seq![]
    } else if data.len() <= size {
        seq![Signal::Write(data)]
    } else {
        seq![Signal::Write(data.take(size as int))] + chunked(data.skip(size as int), size)
    }
}

/// The signals that stream `data` through a buffer of `block` bytes: each
/// buffer load is sent as data (line high, then its chunks).
pub open spec fn streamed(data: Seq<u8>, block: nat, size: nat) -> Seq<Signal>
    decreases data.len(),
{
    if data.len() == 0 || block == 0 {
        seq![]
    } else if data.len() <= block {
        seq![Signal::DcLine(true)] + chunked(data, size)
    } else {
        seq![Signal::DcLine(true)] + chunked(data.take(block as int), size) + streamed(
            data.skip(block as int),
            block,
            size,
        )
    }
}

/// Transfers of two runs of signals carry the two byte runs, in order.
pub proof fn lemma_written_append(a: Seq<Signal>, b: Seq<Signal>)
    ensures
        written(a + b) == written(a) + written(b),
    decreases b.len(),
{
    if b.len() == 0 {
        assert(a + b =~= a);
        assert(written(a) + written(b) =~= written(a));
    } else {
        lemma_written_append(a, b.drop_last());
        assert((a + b).drop_last() =~= a + b.drop_last());
        assert((a + b).last() == b.last());
        match b.last() {
            Signal::Write(bytes) => {
                assert(written(a + b) =~= written(a) + written(b));
            },
            _ => {},
        }
    }
}

/// Cutting data that fills whole chunks, then more data, chunks each part.
pub proof fn lemma_chunked_append(a: Seq<u8>, b: Seq<u8>, size: nat)
    requires
        size > 0,
        (a.len() as int) % (size as int) == 0,
    ensures
        chunked(a + b, size) == chunked(a, size) + chunked(b, size),
    decreases a.len(),
{
    if a.len() == 0 {
        assert(a + b =~= b);
        assert(chunked(a, size) + chunked(b, size) =~= chunked(b, size));
    } else {
        assert(a.len() >= size) by {
            vstd::arithmetic::div_mod::lemma_mod_self_0(size as int);
            if a.len() < size {
                vstd::arithmetic::div_mod::lemma_small_mod(a.len(), size);
            }
        };
        if b.len() == 0 {
            assert(a + b =~= a);
            assert(chunked(a, size) + chunked(b, size) =~= chunked(a, size));
        } else {
            let rest = a.skip(size as int);
            assert((rest.len() as int) % (size as int) == 0) by {
                vstd::arithmetic::div_mod::lemma_mod_sub_multiples_vanish(a.len() as int, size as int);
            };
            lemma_chunked_append(rest, b, size);
            assert((a + b).take(size as int) =~= a.take(size as int));
            assert((a + b).skip(size as int) =~= rest + b);
            if a.len() == size {
                assert(rest =~= Seq::<u8>::empty());
                assert(a.take(size as int) =~= a);
                assert(rest + b =~= b);
            }
            assert(chunked(a + b, size) =~= chunked(a, size) + chunked(b, size));
        }
    }
}

/// Streaming data that fills whole buffer loads, then more data, streams each
/// part.
pub proof fn lemma_streamed_append(a: Seq<u8>, b: Seq<u8>, block: nat, size: nat)
    requires
        block > 0,
        (a.len() as int) % (block as int) == 0,
    ensures
        streamed(a + b, block, size) == streamed(a, block, size) + streamed(b, block, size),
    decreases a.len(),
{
    if a.len() == 0 {
        assert(a + b =~= b);
        assert(streamed(a, block, size) + streamed(b, block, size) =~= streamed(b, block, size));
    } else {
        assert(a.len() >= block) by {
            if a.len() < block {
                vstd::arithmetic::div_mod::lemma_small_mod(a.len(), block);
            }
        };
        if b.len() == 0 {
            assert(a + b =~= a);
            assert(streamed(a, block, size) + streamed(b, block, size) =~= streamed(a, block, size));
        } else {
            let rest = a.skip(block as int);
            assert((rest.len() as int) % (block as int) == 0) by {
                vstd::arithmetic::div_mod::lemma_mod_sub_multiples_vanish(a.len() as int, block as int);
            };
            lemma_streamed_append(rest, b, block, size);
            assert((a + b).take(block as int) =~= a.take(block as int));
            assert((a + b).skip(block as int) =~= rest + b);
            if a.len() == block {
                assert(rest =~= Seq::<u8>::empty());
                assert(a.take(block as int) =~= a);
                assert(rest + b =~= b);
            }
            assert(streamed(a + b, block, size) =~= streamed(a, block, size) + streamed(b, block, size));
        }
    }
}

/// A single signal carries its own bytes if it is a transfer, none otherwise.
pub proof fn lemma_written_one(x: Signal)
    ensures
        written(seq![x]) == match x {
            Signal::Write(bytes) => bytes,
            _ => Seq::<u8>::empty(),
        },
{
    let s = seq![x];
    assert(s.drop_last() =~= Seq::<Signal>::empty());
    assert(written(s.drop_last()) == Seq::<u8>::empty());
    match x {
        Signal::Write(bytes) => {
            assert(Seq::<u8>::empty() + bytes =~= bytes);
        },
        _ => {},
    }
}

/// However the bus cuts it, chunked data arrives whole and in order.
pub proof fn lemma_chunked_carries_data(data: Seq<u8>, size: nat)
    requires
        size > 0,
    ensures
        written(chunked(data, size)) == data,
    decreases data.len(),
{
    if data.len() == 0 {
    } else if data.len() <= size {
        lemma_written_one(Signal::Write(data));
    } else {
        let head = seq![Signal::Write(data.take(size as int))];
        lemma_chunked_carries_data(data.skip(size as int), size);
        lemma_written_append(head, chunked(data.skip(size as int), size));
        lemma_written_one(Signal::Write(data.take(size as int)));
        assert(data.take(size as int) + data.skip(size as int) =~= data);
    }
}

/// Streamed data reaches the bus whole and in order, whatever the buffer and
/// chunk sizes.
pub proof fn lemma_streamed_carries_data(data: Seq<u8>, block: nat, size: nat)
    requires
        block > 0,
        size > 0,
    ensures
        written(streamed(data, block, size)) == data,
    decreases data.len(),
{
    let line = seq![Signal::DcLine(true)];
    lemma_written_one(Signal::DcLine(true));
    if data.len() == 0 {
    } else if data.len() <= block {
        lemma_chunked_carries_data(data, size);
        lemma_written_append(line, chunked(data, size));
        assert(written(line) + data =~= data);
    } else {
        let first = data.take(block as int);
        lemma_chunked_carries_data(first, size);
        lemma_written_append(line, chunked(first, size));
        lemma_streamed_carries_data(data.skip(block as int), block, size);
        lemma_written_append(line + chunked(first, size), streamed(data.skip(block as int), block, size));
        assert(written(line) + first =~= first);
        assert(first + data.skip(block as int) =~= data);
    }
}

/// The reset pulse: high for 200 ms, low for 4 ms, high again for 200 ms.
pub open spec fn reset_pulse() -> Seq<Signal> {
    seq![
        Signal::ResetLine(true),
        Signal::Pause(200),
        Signal::ResetLine(false),
        Signal::Pause(4),
        Signal::ResetLine(true),
        Signal::Pause(200),
    ]
}

/// The wiring under a [`SpiConnector`]: the bus, the reset and data/command
/// output lines, the busy input line and a delay source. The physical binding
/// implements it; [`WireRecorder`] is a stand-in that records instead. Each
/// operation that returns `Err(())` has failed.
pub trait PanelLink {
    /// One bus transfer of `bytes`.
    fn write(&mut self, bytes: &[u8]) -> core::result::Result<(), ()>;

    /// Drives the reset line.
    fn set_reset(&mut self, high: bool) -> core::result::Result<(), ()>;

    /// Drives the data/command line.
    fn set_dc(&mut self, high: bool) -> core::result::Result<(), ()>;

    /// Whether the busy line reads low.
    fn busy_is_low(&self) -> core::result::Result<bool, ()>;

    /// Sleeps for `ms` milliseconds.
    fn pause(&mut self, ms: u16);
}

/// The transport that the controllers are written against.
pub trait DisplayConnector {
    /// The commands, data blocks, resets and delays issued so far.
    spec fn ops(&self) -> Seq<Op>;

    /// How many operations on the wiring have failed so far. An operation of
    /// the connector succeeds exactly when none of its own fails.
    spec fn faults(&self) -> nat;

    /// The error that the most recent failing operation returned. The
    /// polling budget is never the transport's error.
    spec fn last_error(&self) -> Error;

    fn reset(&mut self) -> (r: Result<()>)
        ensures
            final(self).faults() >= old(self).faults(),
            r is Ok <==> final(self).faults() == old(self).faults(),
            r is Ok ==> final(self).ops() == old(self).ops().push(Op::Reset),
            r is Err ==> final(self).ops() == old(self).ops(),
            r is Err ==> r == Err::<(), Error>(final(self).last_error()) && final(self).last_error()
                != Error::BusyTimeout,
    ;

    /// Reads the busy line: whether the panel signals that it is not ready.
    /// The reading is kept among the operations.
    fn is_busy(&mut self) -> (r: Result<bool>)
        ensures
            final(self).faults() >= old(self).faults(),
            r is Ok <==> final(self).faults() == old(self).faults(),
            r matches Ok(busy) ==> final(self).ops() == old(self).ops().push(Op::Busy(busy)),
            r is Err ==> final(self).ops() == old(self).ops(),
            r is Err ==> r == Err::<bool, Error>(Error::BusyPinReadError),
            r is Err ==> r == Err::<bool, Error>(final(self).last_error()),
    ;

    fn send_command(&mut self, command: u8) -> (r: Result<()>)
        ensures
            final(self).faults() >= old(self).faults(),
            r is Ok <==> final(self).faults() == old(self).faults(),
            r is Ok ==> final(self).ops() == old(self).ops().push(Op::Command(command)),
            r is Err ==> final(self).ops() == old(self).ops(),
            r is Err ==> r == Err::<(), Error>(final(self).last_error()) && final(self).last_error()
                != Error::BusyTimeout,
    ;

    /// Sends the `repeats` bytes `source(0), source(1), ...` as one data block,
    /// without holding them all in memory at once.
    fn send_data_with<F: Fn(u32) -> u8>(&mut self, repeats: u32, source: F) -> (r: Result<()>)
        requires
            forall|i: u32| i < repeats ==> source.requires((i,)),
        ensures
            final(self).faults() >= old(self).faults(),
            r is Ok <==> final(self).faults() == old(self).faults(),
            r is Ok ==> exists|d: Seq<u8>|
                generated_by(d, repeats, source) && final(self).ops() == old(self).ops().push(
                    Op::Data(d),
                ),
            r is Err ==> final(self).ops() == old(self).ops(),
            r is Err ==> r == Err::<(), Error>(final(self).last_error()) && final(self).last_error()
                != Error::BusyTimeout,
    ;

    fn send_data(&mut self, data: &[u8]) -> (r: Result<()>)
        ensures
            final(self).faults() >= old(self).faults(),
            r is Ok <==> final(self).faults() == old(self).faults(),
            r is Ok ==> final(self).ops() == old(self).ops().push(Op::Data(data@)),
            r is Err ==> final(self).ops() == old(self).ops(),
            r is Err ==> r == Err::<(), Error>(final(self).last_error()) && final(self).last_error()
                != Error::BusyTimeout,
    ;

    fn delay_ms(&mut self, ms: u16) -> (r: Result<()>)
        ensures
            final(self).faults() >= old(self).faults(),
            r is Ok <==> final(self).faults() == old(self).faults(),
            r is Ok ==> final(self).ops() == old(self).ops().push(Op::Delay(ms)),
            r is Err ==> final(self).ops() == old(self).ops(),
            r is Err ==> r == Err::<(), Error>(final(self).last_error()) && final(self).last_error()
                != Error::BusyTimeout,
    ;
}

/// The size of the buffer that streamed data passes through.
pub const TMP_BUFFER_SIZE: usize = 122880;

/// How many times a controller polls a busy panel before giving up. At the
/// 100 ms poll interval this is over thirteen years: in practice the wait is
/// unbounded, as a hardware fault that never clears the busy line is meant to
/// block.
pub const MAX_BUSY_POLLS: u32 = 0xffff_ffff;

/// An operation cut short at its first failure, inside a longer run of
/// steps that had gone well up to `mid`, cuts the longer run short too.
pub proof fn lemma_cut_short_within(
    before: Seq<Op>,
    mid: Seq<Op>,
    after: Seq<Op>,
    steps: Seq<Op>,
    m: int,
    part: Seq<Op>,
)
    requires
        0 <= m,
        m + part.len() <= steps.len(),
        mid == before + steps.take(m),
        steps.subrange(m, m + part.len()) == part,
        cut_short(mid, after, part),
    ensures
        cut_short(before, after, steps),
{
    let n = choose|n: int| 0 <= n < part.len() && after == mid + #[trigger] part.take(n);
    assert(after =~= before + steps.take(m + n));
    lemma_cut_short(before, steps, m + n);
}

/// What a wait for readiness does after reading the busy line, with `polls`
/// busy readings before this one: it succeeds when the panel is ready, gives
/// up when the polling budget is spent, and otherwise polls again (`None`).
pub fn poll_step(busy: bool, polls: u32) -> (r: Option<Result<()>>)
    ensures
        r == (if !busy {
            Some(Ok::<(), Error>(()))
        } else if polls == MAX_BUSY_POLLS {
            Some(Err::<(), Error>(Error::BusyTimeout))
        } else {
            None
        }),
{
    if !busy {
        Some(Ok(()))
    } else if polls == MAX_BUSY_POLLS {
        Some(Err(Error::BusyTimeout))
    } else {
        None
    }
}

/// Sends `command`, then `data` as one block.
pub(crate) fn send_command_with_data<T: DisplayConnector>(
    connector: &mut T,
    command: u8,
    data: &[u8],
) -> (r: Result<()>)
    ensures
        r is Ok ==> final(connector).ops() == old(connector).ops() + seq![
            Op::Command(command),
            Op::Data(data@),
        ],
        final(connector).faults() >= old(connector).faults(),
        r is Ok <==> final(connector).faults() == old(connector).faults(),
        r is Err ==> r == Err::<(), Error>(final(connector).last_error())
            && final(connector).last_error() != Error::BusyTimeout,
        r is Err ==> cut_short(
            old(connector).ops(),
            final(connector).ops(),
            seq![Op::Command(command), Op::Data(data@)],
        ),
{
    let ghost steps = seq![Op::Command(command), Op::Data(data@)];
    match connector.send_command(command) {
        Ok(()) => {},
        Err(e) => {
            proof {
                lemma_cut_short(old(connector).ops(), steps, 0);
                assert(connector.ops() =~= old(connector).ops() + steps.take(0));
            }
            return Err(e);
        },
    }
    match connector.send_data(data) {
        Ok(()) => {},
        Err(e) => {
            proof {
                lemma_cut_short(old(connector).ops(), steps, 1);
                assert(connector.ops() =~= old(connector).ops() + steps.take(1));
            }
            return Err(e);
        },
    }
    assert(connector.ops() =~= old(connector).ops() + seq![Op::Command(command), Op::Data(data@)]);
    Ok(())
}

/// A connector over a [`PanelLink`] whose bus takes at most `chunk_size`
/// bytes per transfer.
pub struct SpiConnector<L: PanelLink> {
    link: L,
    chunk_size: ChunkSize,
    tmp_buffer: Option<Vec<u8>>,
    log: Ghost<Seq<Op>>,
    wire: Ghost<Seq<Signal>>,
    faults: Ghost<nat>,
    last_err: Ghost<Error>,
}

/// A bus transfer size, never zero.
struct ChunkSize {
    bytes: usize,
}

impl ChunkSize {
    #[verifier::type_invariant]
    spec fn positive(&self) -> bool {
        self.bytes > 0
    }

    spec fn view(&self) -> nat {
        self.bytes as nat
    }

    fn new(bytes: usize) -> (r: ChunkSize)
        requires
            bytes > 0,
        ensures
            r.view() == bytes,
    {
        ChunkSize { bytes }
    }

    fn get(&self) -> (r: usize)
        ensures
            r == self.view(),
            r > 0,
    {
        proof {
            use_type_invariant(self);
        }
        self.bytes
    }
}

impl<L: PanelLink> SpiConnector<L> {

    /// What has been done on the wires so far: every operation of the link
    /// that succeeded, and every reading of the busy line, in order.
    pub closed spec fn wire(&self) -> Seq<Signal> {
        self.wire@
    }

    /// The most bytes that one bus transfer carries.
    pub closed spec fn chunk(&self) -> nat {
        self.chunk_size.view()
    }

    pub fn new(link: L, chunk_size: usize) -> (r: Self)
        requires
            chunk_size > 0,
        ensures
            r.wire() == Seq::<Signal>::empty(),
            r.chunk() == chunk_size,
            r.ops() == Seq::<Op>::empty(),
            r.faults() == 0,
    {
        SpiConnector { link, chunk_size: ChunkSize::new(chunk_size), tmp_buffer: None, log: Ghost(Seq::empty()), wire: Ghost(Seq::empty()), faults: Ghost(0), last_err: Ghost(Error::SpiWriteError) }
    }

    /// The wiring underneath.
    pub fn link(&self) -> &L {
        &self.link
    }

    fn link_write(&mut self, bytes: &[u8]) -> (r: core::result::Result<(), ()>)
        ensures
            r is Ok ==> final(self).last_error() == old(self).last_error(),
            r is Err ==> final(self).last_error() == Error::SpiWriteError,
            r is Ok ==> final(self).faults() == old(self).faults(),
            r is Err ==> final(self).faults() == old(self).faults() + 1,
            r is Err ==> final(self).wire() == old(self).wire(),
            final(self).chunk() == old(self).chunk(),
            final(self).ops() == old(self).ops(),
            r is Ok ==> final(self).wire() == old(self).wire().push(Signal::Write(bytes@)),
    {
        let r = self.link.write(bytes);
        if r.is_ok() {
            self.wire = Ghost(self.wire@.push(Signal::Write(bytes@)));
        } else {
            self.last_err = Ghost(Error::SpiWriteError);
            self.faults = Ghost(self.faults@ + 1);
        }
        r
    }

    fn link_reset(&mut self, high: bool) -> (r: core::result::Result<(), ()>)
        ensures
            r is Ok ==> final(self).last_error() == old(self).last_error(),
            r is Err ==> final(self).last_error() == Error::ResetPinWriteError,
            r is Ok ==> final(self).faults() == old(self).faults(),
            r is Err ==> final(self).faults() == old(self).faults() + 1,
            r is Err ==> final(self).wire() == old(self).wire(),
            final(self).chunk() == old(self).chunk(),
            final(self).ops() == old(self).ops(),
            r is Ok ==> final(self).wire() == old(self).wire().push(Signal::ResetLine(high)),
    {
        let r = self.link.set_reset(high);
        if r.is_ok() {
            self.wire = Ghost(self.wire@.push(Signal::ResetLine(high)));
        } else {
            self.last_err = Ghost(Error::ResetPinWriteError);
            self.faults = Ghost(self.faults@ + 1);
        }
        r
    }

    fn link_dc(&mut self, high: bool) -> (r: core::result::Result<(), ()>)
        ensures
            r is Ok ==> final(self).last_error() == old(self).last_error(),
            r is Err ==> final(self).last_error() == Error::DcPinWriteError,
            r is Ok ==> final(self).faults() == old(self).faults(),
            r is Err ==> final(self).faults() == old(self).faults() + 1,
            r is Err ==> final(self).wire() == old(self).wire(),
            final(self).chunk() == old(self).chunk(),
            final(self).ops() == old(self).ops(),
            r is Ok ==> final(self).wire() == old(self).wire().push(Signal::DcLine(high)),
    {
        let r = self.link.set_dc(high);
        if r.is_ok() {
            self.wire = Ghost(self.wire@.push(Signal::DcLine(high)));
        } else {
            self.last_err = Ghost(Error::DcPinWriteError);
            self.faults = Ghost(self.faults@ + 1);
        }
        r
    }

    fn link_pause(&mut self, ms: u16)
        ensures
            final(self).last_error() == old(self).last_error(),
            final(self).chunk() == old(self).chunk(),
            final(self).ops() == old(self).ops(),
            final(self).wire() == old(self).wire().push(Signal::Pause(ms)),
            final(self).faults() == old(self).faults(),
    {
        self.link.pause(ms);
        self.wire = Ghost(self.wire@.push(Signal::Pause(ms)));
    }

    /// Writes `data` to the bus, in transfers of at most `chunk_size` bytes.
    fn write(&mut self, data: &[u8]) -> (r: Result<()>)
        ensures
            final(self).chunk() == old(self).chunk(),
            final(self).ops() == old(self).ops(),
            r is Ok ==> final(self).wire() == old(self).wire() + chunked(data@, old(self).chunk()),
            r is Err ==> r == Err::<(), Error>(Error::SpiWriteError),
            r is Err ==> final(self).last_error() == Error::SpiWriteError,
            r is Err ==> exists|n: int|
                0 <= n < data@.len() && n % (old(self).chunk() as int) == 0 && final(self).wire()
                    == old(self).wire() + chunked(data@.take(n), old(self).chunk()),
            final(self).faults() >= old(self).faults(),
            r is Ok <==> final(self).faults() == old(self).faults(),
    {
        let size = self.chunk_size.get();
        let ghost start = self.wire@;
        let mut pos: usize = 0;
        while pos < data.len()
            invariant
                size > 0,
                self.chunk_size.view() == size,
                self.log == old(self).log,
                start == old(self).wire(),
                size == old(self).chunk(),
                pos <= data@.len(),
                pos < data@.len() ==> (pos as int) % (size as int) == 0,
                self.wire@ == start + chunked(data@.take(pos as int), size as nat),
                self.faults == old(self).faults,
            decreases data@.len() - pos,
        {
            let end: usize = if data.len() - pos > size {
                pos + size
            } else {
                data.len()
            };
            let piece = slice_subrange(data, pos, end);
            let ghost before = self.wire@;
            match self.link_write(piece) {
                Ok(()) => {},
                Err(()) => {
                    assert(self.wire@ == start + chunked(data@.take(pos as int), size as nat));
                    return Err(Error::SpiWriteError);
                },
            }
            proof {
                lemma_chunked_append(data@.take(pos as int), piece@, size as nat);
                assert(data@.take(pos as int) + piece@ =~= data@.take(end as int));
                assert(chunked(piece@, size as nat) == seq![Signal::Write(piece@)]);
                if end < data@.len() {
                    vstd::arithmetic::div_mod::lemma_mod_add_multiples_vanish(pos as int, size as int);
                }
                assert(self.wire@ == before.push(Signal::Write(piece@)));
                assert(self.wire@ =~= start + chunked(data@.take(end as int), size as nat));
            }
            pos = end;
        }
        assert(data@.take(data@.len() as int) =~= data@);
        Ok(())
    }

    /// Raises the data/command line and writes `data`.
    fn put_data(&mut self, data: &[u8]) -> (r: Result<()>)
        ensures
            final(self).chunk() == old(self).chunk(),
            final(self).ops() == old(self).ops(),
            r is Ok ==> final(self).wire() == old(self).wire() + seq![Signal::DcLine(true)]
                + chunked(data@, old(self).chunk()),
            r is Err ==> r == Err::<(), Error>(Error::DcPinWriteError) || r == Err::<(), Error>(
                Error::SpiWriteError,
            ),
            r == Err::<(), Error>(Error::DcPinWriteError) ==> final(self).wire() == old(self).wire(),
            r == Err::<(), Error>(Error::SpiWriteError) ==> exists|n: int|
                0 <= n < data@.len() && n % (old(self).chunk() as int) == 0 && final(self).wire()
                    == old(self).wire() + seq![Signal::DcLine(true)] + chunked(
                    data@.take(n),
                    old(self).chunk(),
                ),
            r is Err ==> r == Err::<(), Error>(final(self).last_error()),
            final(self).faults() >= old(self).faults(),
            r is Ok <==> final(self).faults() == old(self).faults(),
    {
        match self.link_dc(true) {
            Ok(()) => {},
            Err(()) => {
                return Err(Error::DcPinWriteError);
            },
        }
        let ghost raised = self.wire@;
        let r = self.write(data);
        proof {
            if r is Err {
                let n = choose|n: int|
                    0 <= n < data@.len() && n % (self.chunk() as int) == 0 && self.wire@ == raised
                        + chunked(data@.take(n), self.chunk());
                assert(self.wire@ =~= old(self).wire() + seq![Signal::DcLine(true)] + chunked(
                    data@.take(n),
                    self.chunk(),
                ));
            }
        }
        r
    }
}

impl<L: PanelLink> DisplayConnector for SpiConnector<L> {
    closed spec fn ops(&self) -> Seq<Op> {
        self.log@
    }

    closed spec fn faults(&self) -> nat {
        self.faults@
    }

    closed spec fn last_error(&self) -> Error {
        self.last_err@
    }

    fn reset(&mut self) -> (r: Result<()>)
        ensures
            final(self).chunk() == old(self).chunk(),
            r is Ok ==> final(self).wire() == old(self).wire() + reset_pulse(),
            r is Err ==> r == Err::<(), Error>(Error::ResetPinWriteError),
            r is Err ==> final(self).wire() == old(self).wire() || final(self).wire() == old(
                self,
            ).wire() + reset_pulse().take(2) || final(self).wire() == old(self).wire()
                + reset_pulse().take(4).push(Signal::Pause(200)),
    {
        let ghost start = self.wire@;
        match self.link_reset(true) {
            Ok(()) => {},
            Err(()) => {
                return Err(Error::ResetPinWriteError);
            },
        }
        self.link_pause(200);
        match self.link_reset(false) {
            Ok(()) => {},
            Err(()) => {
                return Err(Error::ResetPinWriteError);
            },
        }
        self.link_pause(4);
        let raised = self.link_reset(true);
        self.link_pause(200);
        match raised {
            Ok(()) => {
                assert(self.wire@ =~= start + reset_pulse());
                self.log = Ghost(self.log@.push(Op::Reset));
                Ok(())
            },
            Err(()) => Err(Error::ResetPinWriteError),
        }
    }

    fn is_busy(&mut self) -> (r: Result<bool>)
        ensures
            final(self).chunk() == old(self).chunk(),
            r matches Ok(busy) ==> final(self).wire() == old(self).wire().push(Signal::BusyRead(busy)),
            r is Err ==> final(self).wire() == old(self).wire(),
            r is Err ==> r == Err::<bool, Error>(Error::BusyPinReadError),
    {
        match self.link.busy_is_low() {
            Ok(low) => {
                self.log = Ghost(self.log@.push(Op::Busy(low)));
                self.wire = Ghost(self.wire@.push(Signal::BusyRead(low)));
                Ok(low)
            },
            Err(()) => {
                self.faults = Ghost(self.faults@ + 1);
                self.last_err = Ghost(Error::BusyPinReadError);
                Err(Error::BusyPinReadError)
            },
        }
    }

    fn send_command(&mut self, command: u8) -> (r: Result<()>)
        ensures
            final(self).chunk() == old(self).chunk(),
            r is Ok ==> final(self).wire() == old(self).wire() + seq![
                Signal::DcLine(false),
                Signal::Write(seq![command]),
                Signal::Pause(4),
            ],
            r is Err ==> r == Err::<(), Error>(Error::DcPinWriteError) || r == Err::<(), Error>(
                Error::SpiWriteError,
            ),
            r == Err::<(), Error>(Error::DcPinWriteError) ==> final(self).wire() == old(self).wire(),
            r == Err::<(), Error>(Error::SpiWriteError) ==> final(self).wire() == old(self).wire().push(
                Signal::DcLine(false),
            ),
    {
        let ghost start = self.wire@;
        match self.link_dc(false) {
            Ok(()) => {},
            Err(()) => {
                return Err(Error::DcPinWriteError);
            },
        }
        let bytes = [command];
        proof {
            use_type_invariant(&self.chunk_size);
        }
        self.write(&bytes)?;
        self.link_pause(4);
        assert(chunked(bytes@, self.chunk()) == seq![Signal::Write(seq![command])]) by {
            assert(bytes@ =~= seq![command]);
        };
        assert(self.wire@ =~= start + seq![
            Signal::DcLine(false),
            Signal::Write(seq![command]),
            Signal::Pause(4),
        ]);
        self.log = Ghost(self.log@.push(Op::Command(command)));
        Ok(())
    }

    fn send_data_with<F: Fn(u32) -> u8>(&mut self, repeats: u32, source: F) -> (r: Result<()>)
        ensures
            r == Err::<(), Error>(Error::DcPinWriteError) ==> exists|d: Seq<u8>, loaded: int|
                stopped_at(d, repeats, source, TMP_BUFFER_SIZE as nat, loaded) && final(self).wire()
                    == old(self).wire() + streamed(
                    d.take(loaded),
                    TMP_BUFFER_SIZE as nat,
                    old(self).chunk(),
                ),
            r == Err::<(), Error>(Error::SpiWriteError) ==> exists|d: Seq<u8>, loaded: int, n: int|
                stopped_at(d, repeats, source, TMP_BUFFER_SIZE as nat, loaded) && 0 <= n < d.len()
                    - loaded && n % (old(self).chunk() as int) == 0 && final(self).wire() == old(
                    self,
                ).wire() + streamed(d.take(loaded), TMP_BUFFER_SIZE as nat, old(self).chunk())
                    + seq![Signal::DcLine(true)] + chunked(
                    #[trigger] d.subrange(loaded, loaded + n),
                    old(self).chunk(),
                ),
            final(self).chunk() == old(self).chunk(),
            r is Ok ==> exists|d: Seq<u8>|
                generated_by(d, repeats, source) && final(self).ops() == old(self).ops().push(
                    Op::Data(d),
                ) && final(self).wire() == old(self).wire() + streamed(
                    d,
                    TMP_BUFFER_SIZE as nat,
                    old(self).chunk(),
                ) + seq![Signal::Pause(4)],
            repeats == 0 ==> r is Ok && final(self).wire() == old(self).wire().push(Signal::Pause(4)),
            r is Err ==> r == Err::<(), Error>(Error::DcPinWriteError) || r == Err::<(), Error>(
                Error::SpiWriteError,
            ),
    {
        let size = self.chunk_size.get();
        let mut buffer = match self.tmp_buffer.take() {
            Some(b) => b,
            None => vec![0u8; TMP_BUFFER_SIZE],
        };
        if buffer.len() != TMP_BUFFER_SIZE {
            buffer = vec![0u8; TMP_BUFFER_SIZE];
        }
        let ghost start = self.wire@;
        let ghost block = TMP_BUFFER_SIZE as nat;
        let ghost mut d: Seq<u8> = seq![];
        let mut i: usize = 0;
        let mut x: u32 = 0;
        while x < repeats
            invariant
                forall|j: u32| j < repeats ==> source.requires((j,)),
                self.chunk_size.view() == size,
                size == old(self).chunk(),
                size > 0,
                self.log == old(self).log,
                start == old(self).wire(),
                buffer@.len() == TMP_BUFFER_SIZE,
                block == TMP_BUFFER_SIZE as nat,
                x <= repeats,
                d.len() == x,
                i <= x,
                i < TMP_BUFFER_SIZE,
                ((x - i) as int) % (block as int) == 0,
                buffer@.take(i as int) == d.subrange(x - i, x as int),
                forall|j: int| 0 <= j < x ==> source.ensures((j as u32,), #[trigger] d[j]),
                self.wire@ == start + streamed(d.take(x - i), block, size as nat),
                self.faults == old(self).faults,
            decreases repeats - x,
        {
            let b = source(x);
            let ghost filled = buffer@;
            buffer.set(i, b);
            proof {
                let old_d = d;
                d = d.push(b);
                assert forall|k: int| 0 <= k < i + 1 implies #[trigger] buffer@.take(i + 1)[k] == d.subrange(
                    x - i,
                    x + 1,
                )[k] by {
                    if k < i {
                        assert(filled.take(i as int)[k] == old_d.subrange(x - i, x as int)[k]);
                    }
                };
                assert(buffer@.take(i + 1) =~= d.subrange(x - i, x + 1));
                assert(d.take(x - i) =~= old_d.take(x - i));
            }
            i = i + 1;
            x = x + 1;
            if i == TMP_BUFFER_SIZE {
                let ghost pre_flush = self.wire@;
                match self.put_data(buffer.as_slice()) {
                    Ok(()) => {},
                    Err(e) => {
                        proof {
                            let loaded = x - i;
                            assert(buffer@ =~= d.subrange(loaded, x as int));
                            assert(stopped_at(d, repeats, source, block, loaded));
                            if e == Error::SpiWriteError {
                                let n = choose|n: int|
                                    0 <= n < buffer@.len() && n % (size as int) == 0 && self.wire@
                                        == pre_flush + seq![Signal::DcLine(true)] + chunked(
                                        buffer@.take(n),
                                        size as nat,
                                    );
                                assert(buffer@.take(n) =~= d.subrange(loaded, loaded + n));
                            }
                        }
                        self.tmp_buffer = Some(buffer);
                        return Err(e);
                    },
                }
                proof {
                    let before = d.take(x - i);
                    lemma_streamed_append(before, buffer@, block, size as nat);
                    assert(buffer@.take(i as int) =~= buffer@);
                    assert(before + buffer@ =~= d.take(x as int));
                    assert(buffer@.len() == block);
                    assert(streamed(buffer@, block, size as nat) == seq![Signal::DcLine(true)]
                        + chunked(buffer@, size as nat));
                    assert(self.wire@ =~= start + streamed(d.take(x as int), block, size as nat));
                }
                i = 0;
                assert(buffer@.take(0) =~= d.subrange(x as int, x as int));
            }
        }
        if i > 0 {
            let rest = slice_subrange(buffer.as_slice(), 0, i);
            let ghost pre_flush = self.wire@;
            match self.put_data(rest) {
                Ok(()) => {},
                    Err(e) => {
                        proof {
                            let loaded = x - i;
                            assert(rest@ =~= d.subrange(loaded, x as int));
                            assert(stopped_at(d, repeats, source, block, loaded));
                            if e == Error::SpiWriteError {
                                let n = choose|n: int|
                                    0 <= n < rest@.len() && n % (size as int) == 0 && self.wire@
                                        == pre_flush + seq![Signal::DcLine(true)] + chunked(
                                        rest@.take(n),
                                        size as nat,
                                    );
                                assert(rest@.take(n) =~= d.subrange(loaded, loaded + n));
                            }
                        }
                        self.tmp_buffer = Some(buffer);
                        return Err(e);
                    },
            }
            proof {
                let before = d.take(x - i);
                lemma_streamed_append(before, rest@, block, size as nat);
                assert(before + rest@ =~= d.take(x as int));
                assert(streamed(rest@, block, size as nat) == seq![Signal::DcLine(true)]
                    + chunked(rest@, size as nat));
                assert(self.wire@ =~= start + streamed(d.take(x as int), block, size as nat));
            }
        }
        assert(d.take(x as int) =~= d);
        self.link_pause(4);
        self.tmp_buffer = Some(buffer);
        self.log = Ghost(self.log@.push(Op::Data(d)));
        assert(generated_by(d, repeats, source));
        Ok(())
    }

    fn send_data(&mut self, data: &[u8]) -> (r: Result<()>)
        ensures
            final(self).chunk() == old(self).chunk(),
            r is Ok ==> final(self).wire() == old(self).wire() + seq![Signal::DcLine(true)]
                + chunked(data@, old(self).chunk()),
            r is Err ==> r == Err::<(), Error>(Error::DcPinWriteError) || r == Err::<(), Error>(
                Error::SpiWriteError,
            ),
            r == Err::<(), Error>(Error::DcPinWriteError) ==> final(self).wire() == old(self).wire(),
            r == Err::<(), Error>(Error::SpiWriteError) ==> exists|n: int|
                0 <= n < data@.len() && n % (old(self).chunk() as int) == 0 && final(self).wire()
                    == old(self).wire() + seq![Signal::DcLine(true)] + chunked(
                    data@.take(n),
                    old(self).chunk(),
                ),
    {
        self.put_data(data)?;
        self.log = Ghost(self.log@.push(Op::Data(data@)));
        Ok(())
    }

    fn delay_ms(&mut self, ms: u16) -> (r: Result<()>)
        ensures
            final(self).chunk() == old(self).chunk(),
            r is Ok && final(self).wire() == old(self).wire().push(Signal::Pause(ms)),
    {
        self.link_pause(ms);
        self.log = Ghost(self.log@.push(Op::Delay(ms)));
        Ok(())
    }
}

/// One action on the wires, as a [`WireRecorder`] keeps it.
#[derive(Debug, PartialEq, Eq)]
pub enum WireEvent {
    ResetLine(bool),
    DcLine(bool),
    Write(Vec<u8>),
    Pause(u16),
}

/// A [`PanelLink`] that touches no hardware: it records every action, and
/// its panel is never busy.
pub struct WireRecorder {
    events: Vec<WireEvent>,
}

impl WireRecorder {
    pub fn new() -> WireRecorder {
        WireRecorder { events: Vec::new() }
    }

    /// What was recorded, in order.
    pub fn events(&self) -> &Vec<WireEvent> {
        &self.events
    }
}

impl PanelLink for WireRecorder {
    fn write(&mut self, bytes: &[u8]) -> core::result::Result<(), ()> {
        let copy = vstd::slice::slice_to_vec(bytes);
        self.events.push(WireEvent::Write(copy));
        Ok(())
    }

    fn set_reset(&mut self, high: bool) -> core::result::Result<(), ()> {
        self.events.push(WireEvent::ResetLine(high));
        Ok(())
    }

    fn set_dc(&mut self, high: bool) -> core::result::Result<(), ()> {
        self.events.push(WireEvent::DcLine(high));
        Ok(())
    }

    fn busy_is_low(&self) -> core::result::Result<bool, ()> {
        Ok(false)
    }

    fn pause(&mut self, ms: u16) {
        self.events.push(WireEvent::Pause(ms));
    }
}

} // verus!
