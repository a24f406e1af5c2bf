//! The driver: it writes command lines to the transport and reads the
//! replies back, one byte at a time, never blocking.
use vstd::prelude::*;
use crate::bounded::{buffer_bytes, decode_text, new_buffer, push_byte, text_bytes};
use crate::protocol::{
    ascii, command_line, crlf_at, decimal, documented_reply, is_line, lemma_documented_reply_accepted, lemma_documented_reply_exact, lemma_reply_extend,
    lemma_line_done, lemma_no_line, lemma_reply_step, lemma_status_differs_unique, lemma_status_reply,
    line_content, lines_fit, no_crlf, ok_line, prepend, reply, reply_parts, scan, status_differs_at,
    Command, Fault, Part, Reply, Scan, CR, DIGIT_ZERO, LF, LINE_CAPACITY, SKIP_LIMIT,
};
use crate::state::ModuleRevision;
use vstd::string::StringSliceAdditionalSpecFns;

verus! {

broadcast use vstd::string::is_ascii_spec_bytes;

/// The receiving half of a serial link, one byte at a time.
pub trait SerialRead {
    type Error;

    /// The next byte, a failure of the link, or `WouldBlock` when no byte has arrived yet.
    fn read(&mut self) -> nb::Result<u8, Self::Error>;
}

/// The sending half of a serial link, one byte at a time.
pub trait SerialWrite {
    type Error;

    /// Sends one byte, or fails, or answers `WouldBlock` when there is no room yet.
    fn write(&mut self, byte: u8) -> nb::Result<(), Self::Error>;
}

/// A family of AT commands that a caller may enable.
#[derive(Debug, Clone, Copy, PartialEq, Eq, Structural)]
pub enum CommandSet {
    Wifi,
    TcpIp,
    Ble,
    ParticleArgonExt,
}

/// What went wrong in a command.
pub enum Error<RXE, TXE> {
    /// The command belongs to a family that was not enabled.
    CommandSetNotSupported { command_set: CommandSet },
    /// A reply byte differed from the one the protocol requires.
    UnexpectedResponse,
    /// A reply line did not fit its buffer.
    BufferOverflow,
    /// The receiving half of the link failed.
    UartRead { cause: RXE },
    /// The sending half of the link failed.
    UartWrite { cause: TXE },
    /// A reply line was not valid UTF-8.
    Utf8 { cause: core::str::Utf8Error },
}

impl<RXE, TXE> Error<RXE, TXE> {
    /// The reply fault that this error reports, if it reports one.
    pub open spec fn fault(&self) -> Option<Fault> {
        match self {
            Error::UnexpectedResponse => Some(Fault::Unexpected),
            Error::BufferOverflow => Some(Fault::Overflow),
            Error::Utf8 { .. } => Some(Fault::BadText),
            _ => None,
        }
    }
}

impl<RXE, TXE> Error<RXE, TXE> {
    /// A short human-readable description of the kind of failure.
    pub fn description(&self) -> (r: &'static str)
        ensures
            r@ == match self {
                Error::CommandSetNotSupported { .. } => "command set not supported"@,
                Error::UnexpectedResponse => "unexpected response"@,
                Error::BufferOverflow => "buffer overflow"@,
                Error::UartRead { .. } => "UART read error"@,
                Error::UartWrite { .. } => "UART write error"@,
                Error::Utf8 { .. } => "UTF-8 decoding error"@,
            },
    {
        match self {
            Error::CommandSetNotSupported { .. } => "command set not supported",
            Error::UnexpectedResponse => "unexpected response",
            Error::BufferOverflow => "buffer overflow",
            Error::UartRead { .. } => "UART read error",
            Error::UartWrite { .. } => "UART write error",
            Error::Utf8 { .. } => "UTF-8 decoding error",
        }
    }
}

/// `r` reports a stop on the receiving side: `WouldBlock`, or a failure of
/// the receiving half. Which answer of the transport it passes on is stated
/// by `reads_match`.
pub open spec fn read_stop<T, RXE, TXE>(r: nb::Result<T, Error<RXE, TXE>>) -> bool {
    r matches Err(e) && (e is WouldBlock || e matches nb::Error::Other(Error::UartRead { .. }))
}

/// The answers of the receiving half when it hands over the bytes `got`.
pub open spec fn answered<E>(got: Seq<u8>) -> Seq<nb::Result<u8, E>> {
    Seq::new(got.len(), |i: int| Ok::<u8, nb::Error<E>>(got[i]))
}

/// The calls to the sending half, byte and answer, when it takes every
/// byte of `wrote`.
pub open spec fn accepted<E>(wrote: Seq<u8>) -> Seq<(u8, nb::Result<(), E>)> {
    Seq::new(wrote.len(), |i: int| (wrote[i], Ok::<(), nb::Error<E>>(())))
}

/// `r` passes on `a`, an answer of the receiving half that is not a byte.
pub open spec fn passes_read_answer<T, RXE, TXE>(a: nb::Result<u8, RXE>, r: nb::Result<T, Error<RXE, TXE>>) -> bool {
    match a {
        Ok(_) => false,
        Err(nb::Error::WouldBlock) => r matches Err(nb::Error::WouldBlock),
        Err(nb::Error::Other(e)) => r matches Err(nb::Error::Other(Error::UartRead { cause })) && cause == e,
    }
}

/// `r` passes on `a`, an answer of the sending half that is not success.
pub open spec fn passes_write_answer<T, RXE, TXE>(a: nb::Result<(), TXE>, r: nb::Result<T, Error<RXE, TXE>>) -> bool {
    match a {
        Ok(_) => false,
        Err(nb::Error::WouldBlock) => r matches Err(nb::Error::WouldBlock),
        Err(nb::Error::Other(e)) => r matches Err(nb::Error::Other(Error::UartWrite { cause })) && cause == e,
    }
}

/// The receiving half was asked for bytes from log `before` to log `after`:
/// it handed over `got`, one `Ok` answer per byte, and where `r` reports a
/// read stop exactly one more answer followed, which `r` passes on.
pub open spec fn reads_match<T, RXE, TXE>(
    before: Seq<nb::Result<u8, RXE>>,
    after: Seq<nb::Result<u8, RXE>>,
    got: Seq<u8>,
    r: nb::Result<T, Error<RXE, TXE>>,
) -> bool {
    if read_stop(r) {
        &&& after.len() == before.len() + got.len() + 1
        &&& after.drop_last() == before + answered::<RXE>(got)
        &&& passes_read_answer(after.last(), r)
    } else {
        after == before + answered::<RXE>(got)
    }
}

/// The sending half was handed the bytes of `data` in order from log
/// `before` to log `after`: it took `wrote`, and where `r` is an error it
/// was handed one more byte, the next of `data`, and `r` passes on its answer.
pub open spec fn writes_match<T, RXE, TXE>(
    before: Seq<(u8, nb::Result<(), TXE>)>,
    after: Seq<(u8, nb::Result<(), TXE>)>,
    data: Seq<u8>,
    wrote: Seq<u8>,
    r: nb::Result<T, Error<RXE, TXE>>,
) -> bool {
    if r is Err {
        &&& wrote.len() < data.len()
        &&& after.len() == before.len() + wrote.len() + 1
        &&& after.drop_last() == before + accepted::<TXE>(wrote)
        &&& after.last().0 == data[wrote.len() as int]
        &&& passes_write_answer(after.last().1, r)
    } else {
        after == before + accepted::<TXE>(wrote)
    }
}

/// Reads that follow earlier successful reads match as one.
proof fn lemma_reads_then<T, RXE, TXE>(
    q0: Seq<nb::Result<u8, RXE>>,
    q1: Seq<nb::Result<u8, RXE>>,
    q2: Seq<nb::Result<u8, RXE>>,
    g1: Seq<u8>,
    g2: Seq<u8>,
    r: nb::Result<T, Error<RXE, TXE>>,
)
    requires
        q1 == q0 + answered::<RXE>(g1),
        reads_match(q1, q2, g2, r),
    ensures
        reads_match(q0, q2, g1 + g2, r),
{
    assert(answered::<RXE>(g1) + answered::<RXE>(g2) =~= answered::<RXE>(g1 + g2));
    assert(q0 + answered::<RXE>(g1) + answered::<RXE>(g2) =~= q0 + answered::<RXE>(g1 + g2));
}

/// Writes that follow earlier successful writes match as one.
proof fn lemma_writes_then<T, RXE, TXE>(
    w0: Seq<(u8, nb::Result<(), TXE>)>,
    w1: Seq<(u8, nb::Result<(), TXE>)>,
    w2: Seq<(u8, nb::Result<(), TXE>)>,
    d1: Seq<u8>,
    d2: Seq<u8>,
    wrote2: Seq<u8>,
    r: nb::Result<T, Error<RXE, TXE>>,
)
    requires
        w1 == w0 + accepted::<TXE>(d1),
        writes_match(w1, w2, d2, wrote2, r),
    ensures
        writes_match(w0, w2, d1 + d2, d1 + wrote2, r),
{
    assert(accepted::<TXE>(d1) + accepted::<TXE>(wrote2) =~= accepted::<TXE>(d1 + wrote2));
    assert(w0 + accepted::<TXE>(d1) + accepted::<TXE>(wrote2) =~= w0 + accepted::<TXE>(d1 + wrote2));
}

/// A failed write of a prefix of `d1 + d2` matches the whole.
proof fn lemma_writes_within<T, RXE, TXE>(
    w0: Seq<(u8, nb::Result<(), TXE>)>,
    w1: Seq<(u8, nb::Result<(), TXE>)>,
    d1: Seq<u8>,
    d2: Seq<u8>,
    wrote: Seq<u8>,
    r: nb::Result<T, Error<RXE, TXE>>,
)
    requires
        r is Err,
        writes_match(w0, w1, d1, wrote, r),
    ensures
        writes_match(w0, w1, d1 + d2, wrote, r),
{
}

/// `r` is what a part owes on `got`, the bytes read for it.
pub open spec fn part_agrees<T, RXE, TXE>(p: Part, got: Seq<u8>, r: nb::Result<T, Error<RXE, TXE>>) -> bool {
    match scan(p, got) {
        Scan::Pending => read_stop(r),
        Scan::Done(n) => n == got.len() && r is Ok,
        Scan::Failed(f, n) => n == got.len() && (r matches Err(nb::Error::Other(e)) && e.fault()
            == Some(f)),
    }
}

/// `r` is what the reply to `c` owes on `got`, the bytes read after the
/// command line was written whole.
pub open spec fn reply_agrees<T, RXE, TXE>(c: Command, got: Seq<u8>, r: nb::Result<T, Error<RXE, TXE>>) -> bool {
    let (v, n) = reply(reply_parts(c), got);
    &&& n == got.len()
    &&& match v {
        Reply::Pending => read_stop(r),
        Reply::Complete(_) => r is Ok,
        Reply::Failed(f) => r matches Err(nb::Error::Other(e)) && e.fault() == Some(f),
    }
}

/// `r` is what issuing `c` owes, given the driver before and after the
/// call. The command line is handed to the sending half from its first byte.
/// If the sending half does not take it whole, nothing is read, and `r`
/// passes on the answer that refused a byte. Otherwise the reply is read:
/// every byte comes from an `Ok` answer of the receiving half, a stop is
/// returned only when its last answer was that stop, and the verdict is the
/// one `reply_agrees` owes on the bytes read.
pub open spec fn command_outcome<T, RX: SerialRead, TX: SerialWrite>(
    c: Command,
    before: Esp32At<RX, TX>,
    after: Esp32At<RX, TX>,
    r: nb::Result<T, Error<RX::Error, TX::Error>>,
) -> bool {
    let wrote = after.sent().skip(before.sent().len() as int);
    let got = after.received().skip(before.received().len() as int);
    &&& before.sent().is_prefix_of(after.sent())
    &&& before.received().is_prefix_of(after.received())
    &&& wrote.is_prefix_of(command_line(c))
    &&& if wrote == command_line(c) {
        &&& after.writes() == before.writes() + accepted::<TX::Error>(command_line(c))
        &&& reads_match(before.reads(), after.reads(), got, r)
        &&& reply_agrees(c, got, r)
    } else {
        &&& got.len() == 0
        &&& after.reads() == before.reads()
        &&& r is Err
        &&& writes_match(before.writes(), after.writes(), command_line(c), wrote, r)
    }
}

/// A command whose line was refused part way: what was sent splits into the
/// bytes before the call and those it wrote, and nothing was read.
proof fn lemma_write_refused(sent_before: Seq<u8>, sent_after: Seq<u8>, received: Seq<u8>)
    requires
        sent_before.is_prefix_of(sent_after),
    ensures
        sent_after == sent_before + sent_after.skip(sent_before.len() as int),
        received.skip(received.len() as int) == Seq::<u8>::empty(),
        received.is_prefix_of(received),
{
    assert(sent_after.subrange(0, sent_before.len() as int) =~= sent_before);
    assert(sent_after =~= sent_before + sent_after.skip(sent_before.len() as int));
    assert(received.skip(received.len() as int) =~= Seq::<u8>::empty());
    assert(received.subrange(0, received.len() as int) =~= received);
}

/// One more byte handed over adds one `Ok` answer.
proof fn lemma_answered_push<E>(got: Seq<u8>, b: u8)
    ensures
        answered::<E>(got.push(b)) == answered::<E>(got).push(Ok(b)),
{
    assert(answered::<E>(got.push(b)) =~= answered::<E>(got).push(Ok(b)));
}

/// When `a`, `b`, `c` each extend the one before, what `c` adds to `a` is
/// what `b` adds to `a` followed by what `c` adds to `b`.
proof fn lemma_split(a: Seq<u8>, b: Seq<u8>, c: Seq<u8>)
    requires
        a.is_prefix_of(b),
        b.is_prefix_of(c),
    ensures
        a.is_prefix_of(c),
        c.skip(a.len() as int) =~= b.skip(a.len() as int) + c.skip(b.len() as int),
{
    assert(c.subrange(0, a.len() as int) =~= b.subrange(0, a.len() as int));
}

/// The verdict of a revision reply whose three lines were read whole.
proof fn lemma_revision_reply(g1: Seq<u8>, g2: Seq<u8>, g3: Seq<u8>, g4: Seq<u8>)
    requires
        scan(Part::Line, g1) == Scan::Done(g1.len()),
        scan(Part::Line, g2) == Scan::Done(g2.len()),
        scan(Part::Line, g3) == Scan::Done(g3.len()),
    ensures
        reply(reply_parts(Command::ModuleRevision), g1 + g2 + g3 + g4) == prepend(
            Part::Line,
            g1,
            prepend(Part::Line, g2, prepend(Part::Line, g3, reply(seq![Part::Status], g4))),
        ),
{
    let parts = reply_parts(Command::ModuleRevision);
    let t1 = seq![Part::Line, Part::Line, Part::Status];
    let t2 = seq![Part::Line, Part::Status];
    let t3 = seq![Part::Status];
    assert(parts.drop_first() =~= t1 && t1.drop_first() =~= t2 && t2.drop_first() =~= t3);
    assert(parts[0] == Part::Line && t1[0] == Part::Line && t2[0] == Part::Line);
    assert(g1 + g2 + g3 + g4 =~= g1 + (g2 + (g3 + g4)));
    lemma_reply_step(parts, g1, g2 + (g3 + g4));
    lemma_reply_step(t1, g2, g3 + g4);
    lemma_reply_step(t2, g3, g4);
}

/// Every call that the driver made of the transport between `before` and
/// `after` was answered with success.
pub open spec fn transport_never_stopped<RX: SerialRead, TX: SerialWrite>(
    before: Esp32At<RX, TX>,
    after: Esp32At<RX, TX>,
) -> bool {
    &&& forall|i: int| before.reads().len() <= i < after.reads().len() ==> #[trigger] after.reads()[i] is Ok
    &&& forall|i: int|
        before.writes().len() <= i < after.writes().len() ==> (#[trigger] after.writes()[i]).1 is Ok
}

/// When the transport takes every byte and offers the documented reply,
/// perhaps followed by later bytes, a command succeeds: it writes its whole
/// command line and reads the reply to its last byte and nothing after it.
pub proof fn lemma_documented_reply_read_exactly<T, RX: SerialRead, TX: SerialWrite>(
    c: Command,
    lines: Seq<Seq<u8>>,
    later: Seq<u8>,
    before: Esp32At<RX, TX>,
    after: Esp32At<RX, TX>,
    r: nb::Result<T, Error<RX::Error, TX::Error>>,
)
    requires
        lines_fit(c, lines),
        command_outcome(c, before, after, r),
        transport_never_stopped(before, after),
        after.received().skip(before.received().len() as int).is_prefix_of(
            documented_reply(c, lines) + later,
        ),
    ensures
        r is Ok,
        after.sent() == before.sent() + command_line(c),
        after.received() == before.received() + documented_reply(c, lines),
{
    let doc = documented_reply(c, lines);
    let wrote = after.sent().skip(before.sent().len() as int);
    let got = after.received().skip(before.received().len() as int);
    if wrote != command_line(c) {
        assert(!(after.writes()[after.writes().len() - 1].1 is Ok));
    }
    assert(after.sent() =~= before.sent() + wrote) by {
        assert(after.sent().subrange(0, before.sent().len() as int) =~= before.sent());
    }
    if read_stop(r) {
        assert(!(after.reads()[after.reads().len() - 1] is Ok));
    }
    lemma_documented_reply_accepted(c, lines);
    if got.len() <= doc.len() {
        assert(got + doc.skip(got.len() as int) =~= doc);
        lemma_documented_reply_exact(c, lines, got, doc.skip(got.len() as int));
        assert(got =~= doc);
    } else {
        assert(got =~= doc + got.skip(doc.len() as int));
        lemma_reply_extend(reply_parts(c), doc, got.skip(doc.len() as int));
    }
    assert(after.received() =~= before.received() + got) by {
        assert(after.received().subrange(0, before.received().len() as int) =~= before.received());
    }
}

/// Testing the link twice in a row, on a transport that takes every byte
/// and offers `OK` once for each call, succeeds both times: the second call
/// owes nothing to the first.
pub proof fn lemma_test_startup_repeatable<RX: SerialRead, TX: SerialWrite>(
    d0: Esp32At<RX, TX>,
    d1: Esp32At<RX, TX>,
    d2: Esp32At<RX, TX>,
    first: nb::Result<(), Error<RX::Error, TX::Error>>,
    second: nb::Result<(), Error<RX::Error, TX::Error>>,
)
    requires
        command_outcome(Command::TestStartup, d0, d1, first),
        command_outcome(Command::TestStartup, d1, d2, second),
        transport_never_stopped(d0, d1),
        transport_never_stopped(d1, d2),
        d2.received() == d0.received() + ok_line() + ok_line(),
    ensures
        first is Ok,
        second is Ok,
        d2.sent() == d0.sent() + command_line(Command::TestStartup) + command_line(Command::TestStartup),
{
    let c = Command::TestStartup;
    let none = Seq::<Seq<u8>>::empty();
    assert(documented_reply(c, none) == ok_line());
    assert(lines_fit(c, none));
    let g1 = d1.received().skip(d0.received().len() as int);
    assert(g1.is_prefix_of(ok_line() + ok_line())) by {
        assert(d2.received().subrange(0, d1.received().len() as int) =~= d1.received());
        assert(d1.received().subrange(0, d0.received().len() as int) =~= d0.received());
        assert(g1 =~= (ok_line() + ok_line()).subrange(0, g1.len() as int));
    }
    lemma_documented_reply_read_exactly(c, none, ok_line(), d0, d1, first);
    let g2 = d2.received().skip(d1.received().len() as int);
    assert(g2 =~= ok_line() + Seq::<u8>::empty());
    lemma_documented_reply_read_exactly(c, none, Seq::<u8>::empty(), d1, d2, second);
}

/// A driver for one module behind one serial link.
///
/// Every command starts from the beginning of its command line. A command
/// that answered `WouldBlock` is retried by calling it again, which writes
/// the line again and reads a fresh reply: bytes consumed by the earlier
/// attempt are not kept.
pub struct Esp32At<RX: SerialRead, TX: SerialWrite> {
    rx: RX,
    tx: TX,
    command_sets: crate::command_sets::CommandSets,
    sent: Ghost<Seq<u8>>,
    received: Ghost<Seq<u8>>,
    reads: Ghost<Seq<nb::Result<u8, RX::Error>>>,
    writes: Ghost<Seq<(u8, nb::Result<(), TX::Error>)>>,
}

impl<RX: SerialRead, TX: SerialWrite> Esp32At<RX, TX> {
    /// Every byte written to the link so far, in order.
    pub closed spec fn sent(&self) -> Seq<u8> {
        self.sent@
    }

    /// Every byte read from the link so far, in order.
    pub closed spec fn received(&self) -> Seq<u8> {
        self.received@
    }

    /// Every answer of the receiving half so far, in order.
    pub closed spec fn reads(&self) -> Seq<nb::Result<u8, RX::Error>> {
        self.reads@
    }

    /// Every call to the sending half so far, byte and answer, in order.
    pub closed spec fn writes(&self) -> Seq<(u8, nb::Result<(), TX::Error>)> {
        self.writes@
    }

    /// The command families enabled at construction.
    pub closed spec fn enabled(&self) -> Set<CommandSet> {
        self.command_sets@
    }

    pub fn new(rx: RX, tx: TX, command_sets: crate::command_sets::CommandSets) -> (r: Self)
        ensures
            r.sent() == Seq::<u8>::empty(),
            r.received() == Seq::<u8>::empty(),
            r.reads() == Seq::<nb::Result<u8, RX::Error>>::empty(),
            r.writes() == Seq::<(u8, nb::Result<(), TX::Error>)>::empty(),
            r.enabled() == command_sets@,
    {
        Esp32At {
            rx,
            tx,
            command_sets,
            sent: Ghost(Seq::empty()),
            received: Ghost(Seq::empty()),
            reads: Ghost(Seq::empty()),
            writes: Ghost(Seq::empty()),
        }
    }

    /// Whether the command family was enabled at construction.
    pub fn supports(&self, set: CommandSet) -> (r: bool)
        ensures
            r == self.enabled().contains(set),
    {
        self.command_sets.contains(set)
    }

    /// Succeeds exactly when the command family was enabled at construction;
    /// commands of a family call this before they write anything.
    pub fn require_command_set(&self, set: CommandSet) -> (r: Result<(), Error<RX::Error, TX::Error>>)
        ensures
            r is Ok <==> self.enabled().contains(set),
            r is Err ==> r == Err::<(), Error<RX::Error, TX::Error>>(
                Error::CommandSetNotSupported { command_set: set },
            ),
    {
        if self.command_sets.contains(set) {
            Ok(())
        } else {
            Err(Error::CommandSetNotSupported { command_set: set })
        }
    }

    /// Asks the receiving half for one byte and passes its answer on.
    fn getc(&mut self) -> (r: nb::Result<u8, Error<RX::Error, TX::Error>>)
        ensures
            final(self).reads().len() == old(self).reads().len() + 1,
            final(self).reads().drop_last() == old(self).reads(),
            final(self).reads().last() matches Ok(b) ==> r == Ok::<u8, nb::Error<Error<RX::Error, TX::Error>>>(b)
                && final(self).received() == old(self).received().push(b) && final(self).reads()
                == old(self).reads().push(Ok::<u8, nb::Error<RX::Error>>(b)),
            !(final(self).reads().last() is Ok) ==> passes_read_answer(final(self).reads().last(), r)
                && final(self).received() == old(self).received(),
            final(self).sent() == old(self).sent(),
            final(self).writes() == old(self).writes(),
            final(self).enabled() == old(self).enabled(),
    {
        let answer = self.rx.read();
        self.reads = Ghost(self.reads@.push(answer));
        assert(self.reads@.drop_last() =~= old(self).reads());
        match answer {
            Ok(b) => {
                self.received = Ghost(self.received@.push(b));
                Ok(b)
            },
            Err(nb::Error::WouldBlock) => Err(nb::Error::WouldBlock),
            Err(nb::Error::Other(cause)) => Err(nb::Error::Other(Error::UartRead { cause })),
        }
    }

    /// Hands one byte to the sending half and passes its answer on.
    fn putc(&mut self, byte: u8) -> (r: nb::Result<(), Error<RX::Error, TX::Error>>)
        ensures
            final(self).writes().len() == old(self).writes().len() + 1,
            final(self).writes().drop_last() == old(self).writes(),
            final(self).writes().last().0 == byte,
            final(self).writes().last().1 is Ok ==> r is Ok && final(self).sent() == old(self).sent().push(byte)
                && final(self).writes() == old(self).writes().push((byte, Ok::<(), nb::Error<TX::Error>>(()))),
            !(final(self).writes().last().1 is Ok) ==> passes_write_answer(final(self).writes().last().1, r)
                && final(self).sent() == old(self).sent(),
            final(self).received() == old(self).received(),
            final(self).reads() == old(self).reads(),
            final(self).enabled() == old(self).enabled(),
    {
        match self.tx.write(byte) {
            Ok(()) => {
                self.writes = Ghost(self.writes@.push((byte, Ok(()))));
                self.sent = Ghost(self.sent@.push(byte));
                assert(self.writes@.drop_last() =~= old(self).writes());
                Ok(())
            },
            Err(nb::Error::WouldBlock) => {
                self.writes = Ghost(self.writes@.push((byte, Err(nb::Error::WouldBlock))));
                assert(self.writes@.drop_last() =~= old(self).writes());
                Err(nb::Error::WouldBlock)
            },
            Err(nb::Error::Other(cause)) => {
                self.writes = Ghost(self.writes@.push((byte, Err(nb::Error::Other(cause)))));
                assert(self.writes@.drop_last() =~= old(self).writes());
                Err(nb::Error::Other(Error::UartWrite { cause }))
            },
        }
    }

    /// Writes the bytes in order, stopping at the first byte the transport does not take.
    fn write(&mut self, data: &[u8]) -> (r: nb::Result<(), Error<RX::Error, TX::Error>>)
        ensures
            old(self).sent().is_prefix_of(final(self).sent()),
            final(self).sent().skip(old(self).sent().len() as int).is_prefix_of(data@),
            r is Ok <==> final(self).sent() == old(self).sent() + data@,
            writes_match(old(self).writes(), final(self).writes(), data@, final(self).sent().skip(old(self).sent().len() as int), r),
            final(self).received() == old(self).received(),
            final(self).reads() == old(self).reads(),
            final(self).enabled() == old(self).enabled(),
    {
        let ghost start = self.sent@;
        let mut i: usize = 0;
        while i < data.len()
            invariant
                0 <= i <= data@.len(),
                start == old(self).sent(),
                self.sent@ == start + data@.take(i as int),
                self.writes@ == old(self).writes() + accepted::<TX::Error>(data@.take(i as int)),
                self.received() == old(self).received(),
                self.reads() == old(self).reads(),
                self.enabled() == old(self).enabled(),
            decreases data@.len() - i,
        {
            match self.putc(data[i]) {
                Ok(()) => {},
                Err(e) => {
                    assert(self.sent@.skip(start.len() as int) =~= data@.take(i as int));
                    assert(self.sent@.subrange(0, start.len() as int) =~= start);
                    assert(data@.subrange(0, i as int) =~= data@.take(i as int));
                    assert(self.sent@ != start + data@) by {
                        assert((start + data@).len() != self.sent@.len());
                    }
                    return Err(e);
                },
            }
            assert(data@.take(i as int).push(data@[i as int]) =~= data@.take(i + 1));
            assert(accepted::<TX::Error>(data@.take(i as int)).push((data@[i as int], Ok(())))
                =~= accepted::<TX::Error>(data@.take(i + 1)));
            i = i + 1;
        }
        assert(data@.take(i as int) =~= data@);
        assert(self.sent@.skip(start.len() as int) =~= data@);
        assert(self.sent@.subrange(0, start.len() as int) =~= start);
        assert(data@.subrange(0, data@.len() as int) =~= data@);
        let r = Ok(());
        assert(writes_match(old(self).writes(), self.writes@, data@, self.sent@.skip(start.len() as int), r));
        r
    }

    /// Writes the decimal digits of `n`, most significant first.
    fn write_decimal(&mut self, n: u32) -> (r: nb::Result<(), Error<RX::Error, TX::Error>>)
        ensures
            old(self).sent().is_prefix_of(final(self).sent()),
            final(self).sent().skip(old(self).sent().len() as int).is_prefix_of(decimal(n as nat)),
            r is Ok <==> final(self).sent() == old(self).sent() + decimal(n as nat),
            writes_match(
                old(self).writes(),
                final(self).writes(),
                decimal(n as nat),
                final(self).sent().skip(old(self).sent().len() as int),
                r,
            ),
            final(self).received() == old(self).received(),
            final(self).reads() == old(self).reads(),
            final(self).enabled() == old(self).enabled(),
        decreases n,
    {
        let ghost start = self.sent@;
        let digit = DIGIT_ZERO + (n % 10) as u8;
        if n >= 10 {
            match self.write_decimal(n / 10) {
                Ok(()) => {},
                Err(e) => {
                    let ghost got = self.sent@.skip(start.len() as int);
                    assert(got.is_prefix_of(decimal(n as nat))) by {
                        assert(decimal(n as nat) == decimal((n / 10) as nat).push(digit));
                        assert(decimal(n as nat).subrange(0, got.len() as int) =~= decimal(
                            (n / 10) as nat,
                        ).subrange(0, got.len() as int));
                    }
                    assert(self.sent@ != start + decimal(n as nat)) by {
                        assert(decimal(n as nat).len() == decimal((n / 10) as nat).len() + 1);
                        assert(start.is_prefix_of(self.sent@));
                        assert(self.sent@ =~= start + got);
                    }
                    proof {
                        lemma_writes_within(
                            old(self).writes(),
                            self.writes@,
                            decimal((n / 10) as nat),
                            seq![digit],
                            got,
                            Err::<(), nb::Error<Error<RX::Error, TX::Error>>>(e),
                        );
                    }
                    return Err(e);
                },
            }
        }
        let ghost mid = self.sent@;
        let ghost mid_writes = self.writes@;
        let ghost head = if n >= 10 { decimal((n / 10) as nat) } else { Seq::<u8>::empty() };
        assert(mid_writes == old(self).writes() + accepted::<TX::Error>(head));
        let r = self.putc(digit);
        proof {
            let d = decimal(n as nat);
            let tail = self.sent@.skip(mid.len() as int);
            if r is Ok {
                assert(tail =~= seq![digit]);
                assert(self.writes@ =~= mid_writes + accepted::<TX::Error>(tail));
            } else {
                assert(tail =~= Seq::<u8>::empty());
                assert(self.writes@.drop_last() =~= mid_writes + accepted::<TX::Error>(tail));
            }
            assert(writes_match(mid_writes, self.writes@, seq![digit], tail, r));
            lemma_writes_then(old(self).writes(), mid_writes, self.writes@, head, seq![digit], tail, r);
            assert(head + seq![digit] =~= d);
            assert(head + tail =~= self.sent@.skip(start.len() as int)) by {
                assert(self.sent@.subrange(0, mid.len() as int) =~= mid);
            }
            if n >= 10 {
                assert(d == decimal((n / 10) as nat).push(digit));
                assert(mid == start + decimal((n / 10) as nat));
            } else {
                assert(d == seq![digit]);
                assert(mid == start);
            }
            assert(mid + seq![digit] =~= start + d);
            assert(self.sent@.subrange(0, start.len() as int) =~= start);
            if r is Ok {
                assert(self.sent@ =~= start + d);
                assert(self.sent@.skip(start.len() as int) =~= d);
                assert(d.subrange(0, d.len() as int) =~= d);
            } else {
                assert(self.sent@ == mid);
                assert(self.sent@.skip(start.len() as int) =~= d.drop_last());
                assert(d.subrange(0, d.len() - 1) =~= d.drop_last());
                assert(self.sent@.len() != (start + d).len());
            }
        }
        r
    }

    /// Writes the command line of `c`, CRLF included.
    #[verifier::spinoff_prover]
    #[verifier::rlimit(60)]
    fn write_command(&mut self, c: Command) -> (r: nb::Result<(), Error<RX::Error, TX::Error>>)
        ensures
            old(self).sent().is_prefix_of(final(self).sent()),
            final(self).sent().skip(old(self).sent().len() as int).is_prefix_of(command_line(c)),
            r is Ok <==> final(self).sent() == old(self).sent() + command_line(c),
            writes_match(
                old(self).writes(),
                final(self).writes(),
                command_line(c),
                final(self).sent().skip(old(self).sent().len() as int),
                r,
            ),
            final(self).received() == old(self).received(),
            final(self).reads() == old(self).reads(),
            final(self).enabled() == old(self).enabled(),
    {
        let ghost start = self.sent@;
        let text: &str = match c {
            Command::TestStartup => "AT",
            Command::Restart => "AT+RST",
            Command::ModuleRevision => "AT+GMR",
            Command::DeepSleep(_) => "AT+GSLP=",
            Command::FactoryReset => "AT+RESTORE",
        };
        proof {
            reveal_strlit("AT");
            reveal_strlit("AT+RST");
            reveal_strlit("AT+GMR");
            reveal_strlit("AT+GSLP=");
            reveal_strlit("AT+RESTORE");
            assert(vstd::string::is_ascii(text));
            assert(text.spec_bytes() =~= ascii(text@));
        }
        let ghost whole = command_line(c);
        let ghost head = text.spec_bytes();
        let ghost digits = match c {
            Command::DeepSleep(ms) => decimal(ms as nat),
            _ => Seq::<u8>::empty(),
        };
        assert(whole =~= head + digits + seq![CR, LF]);
        match self.write(text.as_bytes()) {
            Ok(()) => {},
            Err(e) => {
                let ghost got = self.sent@.skip(start.len() as int);
                assert(whole.subrange(0, got.len() as int) =~= head.subrange(0, got.len() as int));
                assert(self.sent@ != start + whole) by {
                    assert(self.sent@ =~= start + got);
                }
                proof {
                    lemma_writes_within(
                        old(self).writes(),
                        self.writes@,
                        head,
                        digits + seq![CR, LF],
                        got,
                        Err::<(), nb::Error<Error<RX::Error, TX::Error>>>(e),
                    );
                }
                assert(head + (digits + seq![CR, LF]) =~= whole);
                return Err(e);
            },
        }
        let ghost mid = self.sent@;
        let ghost mid_writes = self.writes@;
        assert(self.sent@.skip(start.len() as int) =~= head);
        assert(mid_writes == old(self).writes() + accepted::<TX::Error>(head));
        if let Command::DeepSleep(ms) = c {
            match self.write_decimal(ms) {
                Ok(()) => {},
                Err(e) => {
                    let ghost got = self.sent@.skip(mid.len() as int);
                    assert(self.sent@ =~= start + head + got) by {
                        assert(mid.is_prefix_of(self.sent@));
                    }
                    assert(self.sent@.skip(start.len() as int) =~= head + got);
                    assert(whole.subrange(0, (head + got).len() as int) =~= head + digits.subrange(
                        0,
                        got.len() as int,
                    ));
                    assert(self.sent@.subrange(0, start.len() as int) =~= start);
                    assert(self.sent@ != start + whole) by {
                        assert(self.sent@.len() < (start + whole).len());
                    }
                    proof {
                        let r = Err::<(), nb::Error<Error<RX::Error, TX::Error>>>(e);
                        lemma_writes_within(mid_writes, self.writes@, digits, seq![CR, LF], got, r);
                        lemma_writes_then(
                            old(self).writes(),
                            mid_writes,
                            self.writes@,
                            head,
                            digits + seq![CR, LF],
                            got,
                            r,
                        );
                    }
                    assert(head + (digits + seq![CR, LF]) =~= whole);
                    return Err(e);
                },
            }
        }
        let ghost mid2 = self.sent@;
        assert(mid2 =~= start + head + digits);
        let ghost mid2_writes = self.writes@;
        assert(mid2_writes =~= old(self).writes() + accepted::<TX::Error>(head + digits)) by {
            assert(accepted::<TX::Error>(head) + accepted::<TX::Error>(digits) =~= accepted::<TX::Error>(head + digits));
            if !(c is DeepSleep) {
                assert(digits =~= Seq::<u8>::empty());
            }
        }
        let crlf: [u8; 2] = [CR, LF];
        let r = self.write(&crlf);
        proof {
            assert(crlf@ =~= seq![CR, LF]);
            let got = self.sent@.skip(mid2.len() as int);
            assert(self.sent@ =~= start + head + digits + got) by {
                assert(mid2.is_prefix_of(self.sent@));
            }
            assert(self.sent@.skip(start.len() as int) =~= head + digits + got);
            assert(self.sent@.subrange(0, start.len() as int) =~= start);
            assert(whole.subrange(0, (head + digits + got).len() as int) =~= head + digits
                + seq![CR, LF].subrange(0, got.len() as int));
            lemma_writes_then(old(self).writes(), mid2_writes, self.writes@, head + digits, crlf@, got, r);
            assert(head + digits + crlf@ =~= whole);
            if r is Ok {
                assert(self.sent@ =~= start + whole);
            } else {
                assert(got.len() < 2) by {
                    if got.len() == 2 {
                        assert(got =~= crlf@.subrange(0, 2));
                        assert(self.sent@ =~= mid2 + crlf@);
                    }
                }
                assert(self.sent@.len() < (start + whole).len());
            }
        }
        r
    }

    /// Reads the status line `OK`, failing at the first byte that differs.
    fn read_status(&mut self) -> (r: nb::Result<(), Error<RX::Error, TX::Error>>)
        ensures
            old(self).received().is_prefix_of(final(self).received()),
            part_agrees(Part::Status, final(self).received().skip(old(self).received().len() as int), r),
            reads_match(
                old(self).reads(),
                final(self).reads(),
                final(self).received().skip(old(self).received().len() as int),
                r,
            ),
            final(self).writes() == old(self).writes(),
            final(self).sent() == old(self).sent(),
            final(self).enabled() == old(self).enabled(),
    {
        let ghost start = self.received@;
        let expected: [u8; 4] = [79u8, 75u8, CR, LF];
        proof {
            reveal_strlit("OK");
            assert(expected@ =~= ok_line());
        }
        let mut i: usize = 0;
        while i < 4
            invariant
                i <= 4,
                start == old(self).received(),
                expected@ == ok_line(),
                self.received@ == start + ok_line().take(i as int),
                self.reads@ == old(self).reads() + answered::<RX::Error>(ok_line().take(i as int)),
                self.writes() == old(self).writes(),
                self.sent() == old(self).sent(),
                self.enabled() == old(self).enabled(),
            decreases 4 - i,
        {
            let actual = match self.getc() {
                Ok(b) => b,
                Err(e) => {
                    proof {
                        let got = self.received@.skip(start.len() as int);
                        assert(got =~= ok_line().take(i as int));
                        assert forall|j: int| !#[trigger] status_differs_at(got, j) by {
                            if status_differs_at(got, j) {
                                assert(got[j] == ok_line()[j]);
                            }
                        }
                        assert(self.received@.subrange(0, start.len() as int) =~= start);
                    }
                    return Err(e);
                },
            };
            proof {
                lemma_answered_push::<RX::Error>(ok_line().take(i as int), actual);
            }
            if actual != expected[i] {
                proof {
                    let got = self.received@.skip(start.len() as int);
                    assert(got =~= ok_line().take(i as int).push(actual));
                    assert(got.take(i as int) =~= ok_line().take(i as int));
                    assert(status_differs_at(got, i as int));
                    let j = choose|j: int| status_differs_at(got, j);
                    lemma_status_differs_unique(got, i as int, j);
                    assert(self.received@.subrange(0, start.len() as int) =~= start);
                }
                return Err(nb::Error::Other(Error::UnexpectedResponse));
            }
            assert(ok_line().take(i as int).push(actual) =~= ok_line().take(i + 1));
            i = i + 1;
        }
        proof {
            let got = self.received@.skip(start.len() as int);
            assert(got =~= ok_line());
            assert(ok_line().take(i as int) =~= got);
            assert forall|j: int| !#[trigger] status_differs_at(got, j) by {
                if status_differs_at(got, j) {
                    assert(got.take(j) =~= ok_line().take(j));
                }
            }
            assert(self.received@.subrange(0, start.len() as int) =~= start);
        }
        Ok(())
    }

    /// Reads one line of at most `LINE_CAPACITY` bytes and decodes it as text.
    fn read_line(&mut self) -> (r: nb::Result<heapless::String<LINE_CAPACITY>, Error<RX::Error, TX::Error>>)
        ensures
            old(self).received().is_prefix_of(final(self).received()),
            part_agrees(Part::Line, final(self).received().skip(old(self).received().len() as int), r),
            reads_match(
                old(self).reads(),
                final(self).reads(),
                final(self).received().skip(old(self).received().len() as int),
                r,
            ),
            final(self).writes() == old(self).writes(),
            r matches Ok(text) ==> text_bytes(text) == line_content(
                final(self).received().skip(old(self).received().len() as int),
            ),
            final(self).sent() == old(self).sent(),
            final(self).enabled() == old(self).enabled(),
    {
        let ghost start = self.received@;
        let mut buffer = new_buffer();
        let mut last: u8 = 0;
        let mut count: usize = 0;
        loop
            invariant
                start == old(self).received(),
                start.is_prefix_of(self.received@),
                count == self.received@.len() - start.len(),
                count <= LINE_CAPACITY + 1,
                no_crlf(self.received@.skip(start.len() as int)),
                self.reads@ == old(self).reads() + answered::<RX::Error>(self.received@.skip(start.len() as int)),
                self.writes() == old(self).writes(),
                count > 0 ==> last == self.received@.last(),
                count > 0 ==> buffer_bytes(buffer) == self.received@.skip(start.len() as int).drop_last(),
                count == 0 ==> buffer_bytes(buffer) == Seq::<u8>::empty(),
                self.sent() == old(self).sent(),
                self.enabled() == old(self).enabled(),
            decreases LINE_CAPACITY + 1 - count,
        {
            let ghost before = self.received@.skip(start.len() as int);
            let byte = match self.getc() {
                Ok(b) => b,
                Err(e) => {
                    proof {
                        lemma_no_line(before, LINE_CAPACITY as nat);
                    }
                    return Err(e);
                },
            };
            let ghost got = self.received@.skip(start.len() as int);
            assert(got =~= before.push(byte)) by {
                assert(self.received@ =~= start + before + seq![byte]) by {
                    assert(self.received@.subrange(0, start.len() as int) =~= start);
                }
            }
            assert(start.is_prefix_of(self.received@)) by {
                assert(self.received@.subrange(0, start.len() as int) =~= start);
            }
            proof {
                lemma_answered_push::<RX::Error>(before, byte);
            }
            if count > 0 && last == CR && byte == LF {
                proof {
                    assert(crlf_at(got, got.len() - 2));
                    assert(got.drop_last() =~= before);
                    assert(is_line(got));
                    lemma_line_done(got, LINE_CAPACITY as nat);
                    assert(line_content(got) =~= buffer_bytes(buffer));
                    assert(got.take(got.len() as int) =~= got);
                }
                return match decode_text(buffer) {
                    Ok(text) => Ok(text),
                    Err(cause) => Err(nb::Error::Other(Error::Utf8 { cause })),
                };
            }
            assert forall|i: int| !#[trigger] crlf_at(got, i) by {
                if crlf_at(got, i) {
                    if i + 2 < got.len() {
                        assert(crlf_at(before, i));
                    }
                }
            }
            if count > 0 {
                match push_byte(&mut buffer, last) {
                    Ok(()) => {},
                    Err(_) => {
                        proof {
                            lemma_no_line(got, LINE_CAPACITY as nat);
                        }
                        return Err(nb::Error::Other(Error::BufferOverflow));
                    },
                }
                assert(buffer_bytes(buffer) =~= got.drop_last());
            } else {
                assert(got.drop_last() =~= Seq::<u8>::empty());
            }
            last = byte;
            count = count + 1;
        }
    }

    /// Reads one line of at most `SKIP_LIMIT` bytes and discards it.
    fn skip_line(&mut self) -> (r: nb::Result<(), Error<RX::Error, TX::Error>>)
        ensures
            old(self).received().is_prefix_of(final(self).received()),
            part_agrees(Part::Skip, final(self).received().skip(old(self).received().len() as int), r),
            reads_match(
                old(self).reads(),
                final(self).reads(),
                final(self).received().skip(old(self).received().len() as int),
                r,
            ),
            final(self).writes() == old(self).writes(),
            final(self).sent() == old(self).sent(),
            final(self).enabled() == old(self).enabled(),
    {
        let ghost start = self.received@;
        let mut last: u8 = 0;
        let mut count: usize = 0;
        loop
            invariant
                start == old(self).received(),
                start.is_prefix_of(self.received@),
                count == self.received@.len() - start.len(),
                count <= SKIP_LIMIT + 1,
                no_crlf(self.received@.skip(start.len() as int)),
                self.reads@ == old(self).reads() + answered::<RX::Error>(self.received@.skip(start.len() as int)),
                self.writes() == old(self).writes(),
                count > 0 ==> last == self.received@.last(),
                self.sent() == old(self).sent(),
                self.enabled() == old(self).enabled(),
            decreases SKIP_LIMIT + 1 - count,
        {
            let ghost before = self.received@.skip(start.len() as int);
            let byte = match self.getc() {
                Ok(b) => b,
                Err(e) => {
                    proof {
                        lemma_no_line(before, SKIP_LIMIT as nat);
                    }
                    return Err(e);
                },
            };
            let ghost got = self.received@.skip(start.len() as int);
            assert(got =~= before.push(byte)) by {
                assert(self.received@ =~= start + before + seq![byte]) by {
                    assert(self.received@.subrange(0, start.len() as int) =~= start);
                }
            }
            assert(start.is_prefix_of(self.received@)) by {
                assert(self.received@.subrange(0, start.len() as int) =~= start);
            }
            proof {
                lemma_answered_push::<RX::Error>(before, byte);
            }
            if count > 0 && last == CR && byte == LF {
                proof {
                    assert(crlf_at(got, got.len() - 2));
                    assert(got.drop_last() =~= before);
                    lemma_line_done(got, SKIP_LIMIT as nat);
                }
                return Ok(());
            }
            assert forall|i: int| !#[trigger] crlf_at(got, i) by {
                if crlf_at(got, i) {
                    if i + 2 < got.len() {
                        assert(crlf_at(before, i));
                    }
                }
            }
            if count == SKIP_LIMIT + 1 {
                proof {
                    lemma_no_line(got, SKIP_LIMIT as nat);
                }
                return Err(nb::Error::Other(Error::BufferOverflow));
            }
            last = byte;
            count = count + 1;
        }
    }

    /// Issues a command whose whole reply is the status line.
    fn status_command(&mut self, c: Command) -> (r: nb::Result<(), Error<RX::Error, TX::Error>>)
        requires
            reply_parts(c) == seq![Part::Status],
        ensures
            command_outcome(c, *old(self), *final(self), r),
            final(self).enabled() == old(self).enabled(),
    {
        let ghost r0 = self.received@;
        match self.write_command(c) {
            Ok(()) => {},
            Err(e) => {
                proof {
                    lemma_write_refused(old(self).sent(), self.sent@, r0);
                }
                return Err(e);
            },
        }
        let r = self.read_status();
        proof {
            let got = self.received@.skip(r0.len() as int);
            assert(self.sent@.skip(old(self).sent().len() as int) =~= command_line(c));
            lemma_status_reply(got);
        }
        r
    }

    /// Checks that the module answers: writes `AT` and expects `OK`.
    pub fn test_startup(&mut self) -> (r: nb::Result<(), Error<RX::Error, TX::Error>>)
        ensures
            command_outcome(Command::TestStartup, *old(self), *final(self), r),
            final(self).enabled() == old(self).enabled(),
    {
        self.status_command(Command::TestStartup)
    }

    /// Restarts the module: writes `AT+RST` and expects `OK`.
    pub fn restart(&mut self) -> (r: nb::Result<(), Error<RX::Error, TX::Error>>)
        ensures
            command_outcome(Command::Restart, *old(self), *final(self), r),
            final(self).enabled() == old(self).enabled(),
    {
        self.status_command(Command::Restart)
    }

    /// Restores the factory settings: writes `AT+RESTORE` and expects `OK`.
    pub fn factory_reset(&mut self) -> (r: nb::Result<(), Error<RX::Error, TX::Error>>)
        ensures
            command_outcome(Command::FactoryReset, *old(self), *final(self), r),
            final(self).enabled() == old(self).enabled(),
    {
        self.status_command(Command::FactoryReset)
    }

    /// Puts the module into deep sleep for `wakeup_delay_ms` milliseconds:
    /// writes `AT+GSLP=<ms>`, skips one line and expects `OK`.
    pub fn enter_deep_sleep(&mut self, wakeup_delay_ms: u32) -> (r: nb::Result<(), Error<RX::Error, TX::Error>>)
        ensures
            command_outcome(Command::DeepSleep(wakeup_delay_ms), *old(self), *final(self), r),
            final(self).enabled() == old(self).enabled(),
    {
        let ghost c = Command::DeepSleep(wakeup_delay_ms);
        let ghost parts = reply_parts(c);
        let ghost r0 = self.received@;
        match self.write_command(Command::DeepSleep(wakeup_delay_ms)) {
            Ok(()) => {},
            Err(e) => {
                proof {
                    lemma_write_refused(old(self).sent(), self.sent@, r0);
                }
                return Err(e);
            },
        }
        assert(self.sent@.skip(old(self).sent().len() as int) =~= command_line(c));
        assert(self.reads@ == old(self).reads());
        match self.skip_line() {
            Ok(()) => {},
            Err(e) => {
                assert(parts[0] == Part::Skip);
                return Err(e);
            },
        }
        let ghost r1 = self.received@;
        let ghost q1 = self.reads@;
        let r = self.read_status();
        proof {
            let g1 = r1.skip(r0.len() as int);
            let g2 = self.received@.skip(r1.len() as int);
            lemma_split(r0, r1, self.received@);
            lemma_reads_then(old(self).reads(), q1, self.reads@, g1, g2, r);
            lemma_reply_step(parts, g1, g2);
            assert(parts.drop_first() =~= seq![Part::Status]);
            lemma_status_reply(g2);
        }
        r
    }

    /// Reads the module's revision: writes `AT+GMR`, reads three text lines
    /// (AT version, SDK version, compile time) and expects `OK`.
    #[verifier::spinoff_prover]
    #[verifier::rlimit(100)]
    pub fn get_module_revision(&mut self) -> (r: nb::Result<ModuleRevision, Error<RX::Error, TX::Error>>)
        ensures
            command_outcome(Command::ModuleRevision, *old(self), *final(self), r),
            r matches Ok(rev) ==> reply(
                reply_parts(Command::ModuleRevision),
                final(self).received().skip(old(self).received().len() as int),
            ).0 == Reply::Complete(
                seq![text_bytes(rev.at_version), text_bytes(rev.sdk_version), text_bytes(rev.compile_time)],
            ),
            final(self).enabled() == old(self).enabled(),
    {
        let ghost c = Command::ModuleRevision;
        let ghost parts = reply_parts(c);
        let ghost t1 = seq![Part::Line, Part::Line, Part::Status];
        let ghost t2 = seq![Part::Line, Part::Status];
        let ghost t3 = seq![Part::Status];
        assert(parts.drop_first() =~= t1 && t1.drop_first() =~= t2 && t2.drop_first() =~= t3);
        assert(parts[0] == Part::Line && t1[0] == Part::Line && t2[0] == Part::Line && t3[0]
            == Part::Status);
        let ghost r0 = self.received@;
        match self.write_command(Command::ModuleRevision) {
            Ok(()) => {},
            Err(e) => {
                proof {
                    lemma_write_refused(old(self).sent(), self.sent@, r0);
                }
                return Err(e);
            },
        }
        assert(self.sent@.skip(old(self).sent().len() as int) =~= command_line(c));
        assert(self.reads@ == old(self).reads());
        let at_version = match self.read_line() {
            Ok(text) => text,
            Err(e) => {
                return Err(e);
            },
        };
        let ghost r1 = self.received@;
        let ghost q1 = self.reads@;
        let ghost g1 = r1.skip(r0.len() as int);
        let sdk_version = match self.read_line() {
            Ok(text) => text,
            Err(e) => {
                proof {
                    let g2 = self.received@.skip(r1.len() as int);
                    lemma_split(r0, r1, self.received@);
                    lemma_reads_then(
                        old(self).reads(),
                        q1,
                        self.reads@,
                        g1,
                        g2,
                        Err::<ModuleRevision, nb::Error<Error<RX::Error, TX::Error>>>(e),
                    );
                    lemma_reply_step(parts, g1, g2);
                }
                return Err(e);
            },
        };
        let ghost r2 = self.received@;
        let ghost q2 = self.reads@;
        let ghost g2 = r2.skip(r1.len() as int);
        proof {
            lemma_split(r0, r1, r2);
            assert(answered::<RX::Error>(g1) + answered::<RX::Error>(g2) =~= answered::<RX::Error>(g1 + g2));
            assert(q2 =~= old(self).reads() + answered::<RX::Error>(g1 + g2));
        }
        let compile_time = match self.read_line() {
            Ok(text) => text,
            Err(e) => {
                proof {
                    let g3 = self.received@.skip(r2.len() as int);
                    lemma_split(r0, r2, self.received@);
                    lemma_split(r1, r2, self.received@);
                    assert(g1 + g2 + g3 =~= g1 + (g2 + g3));
                    lemma_reads_then(
                        old(self).reads(),
                        q2,
                        self.reads@,
                        g1 + g2,
                        g3,
                        Err::<ModuleRevision, nb::Error<Error<RX::Error, TX::Error>>>(e),
                    );
                    assert(g1 + g2 + g3 =~= self.received@.skip(r0.len() as int));
                    lemma_reply_step(parts, g1, g2 + g3);
                    lemma_reply_step(t1, g2, g3);
                }
                return Err(e);
            },
        };
        let ghost r3 = self.received@;
        let ghost q3 = self.reads@;
        let ghost g3 = r3.skip(r2.len() as int);
        proof {
            lemma_split(r0, r2, r3);
            lemma_split(r1, r2, r3);
            assert(answered::<RX::Error>(g1 + g2) + answered::<RX::Error>(g3) =~= answered::<RX::Error>(
                g1 + g2 + g3,
            ));
            assert(q3 =~= old(self).reads() + answered::<RX::Error>(g1 + g2 + g3));
        }
        let r = self.read_status();
        proof {
            let g4 = self.received@.skip(r3.len() as int);
            lemma_split(r0, r3, self.received@);
            lemma_split(r1, r3, self.received@);
            lemma_split(r2, r3, self.received@);
            lemma_revision_reply(g1, g2, g3, g4);
            lemma_status_reply(g4);
            lemma_reads_then(old(self).reads(), q3, self.reads@, g1 + g2 + g3, g4, r);
            assert(self.received@.skip(r0.len() as int) =~= g1 + g2 + g3 + g4);
            if r is Ok {
                assert(seq![line_content(g1)] + (seq![line_content(g2)] + (seq![line_content(g3)]
                    + Seq::<Seq<u8>>::empty())) =~= seq![
                    text_bytes(at_version),
                    text_bytes(sdk_version),
                    text_bytes(compile_time),
                ]);
            }
        }
        match r {
            Ok(()) => Ok(ModuleRevision { at_version, sdk_version, compile_time }),
            Err(e) => Err(e),
        }
    }
}

} // verus!
