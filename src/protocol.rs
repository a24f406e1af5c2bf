//! The AT protocol as mathematics: the bytes of each command line and the
//! verdict that a reply shape reaches on the bytes read back.
use vstd::prelude::*;
use vstd::utf8::valid_utf8;

verus! {

/// Carriage return.
pub const CR: u8 = 13;

/// Line feed.
pub const LF: u8 = 10;

/// The ASCII code of the digit `0`.
pub const DIGIT_ZERO: u8 = 48;

/// Capacity in bytes of every text line the driver keeps.
pub const LINE_CAPACITY: usize = 64;

/// The longest line, in bytes before its terminator, that is skipped over
/// without being kept; a longer one is reported as an overflow.
pub const SKIP_LIMIT: usize = 0xffff_fffd;

/// The commands this driver issues.
pub enum Command {
    TestStartup,
    Restart,
    ModuleRevision,
    DeepSleep(u32),
    FactoryReset,
}

/// The bytes of an ASCII string.
pub open spec fn ascii(s: Seq<char>) -> Seq<u8> {
    Seq::new(s.len(), |i: int| s[i] as u8)
}

/// The decimal digits of `n`, most significant first, without leading zeros.
pub open spec fn decimal(n: nat) -> Seq<u8>
    decreases n,
{
    if n < 10 {
        seq![(DIGIT_ZERO + n) as u8]
    } else {
        decimal(n / 10).push((DIGIT_ZERO + n % 10) as u8)
    }
}

/// The command line without its terminator.
pub open spec fn command_text(c: Command) -> Seq<u8> {
    match c {
        Command::TestStartup => ascii("AT"@),
        Command::Restart => ascii("AT+RST"@),
        Command::ModuleRevision => ascii("AT+GMR"@),
        Command::DeepSleep(ms) => ascii("AT+GSLP="@) + decimal(ms as nat),
        Command::FactoryReset => ascii("AT+RESTORE"@),
    }
}

/// The exact bytes written for a command: its text followed by CRLF.
pub open spec fn command_line(c: Command) -> Seq<u8> {
    command_text(c) + seq![CR, LF]
}

/// A CRLF terminator starts at index `i` of `s`.
pub open spec fn crlf_at(s: Seq<u8>, i: int) -> bool {
    0 <= i && i + 1 < s.len() && s[i] == CR && s[i + 1] == LF
}

/// No CRLF terminator occurs anywhere in `s`.
pub open spec fn no_crlf(s: Seq<u8>) -> bool {
    forall|i: int| !#[trigger] crlf_at(s, i)
}

/// `s` is one whole line: it ends with CRLF and holds no earlier CRLF.
pub open spec fn is_line(s: Seq<u8>) -> bool {
    s.len() >= 2 && crlf_at(s, s.len() - 2) && no_crlf(s.drop_last())
}

/// The content of a whole line: everything before its terminator.
pub open spec fn line_content(s: Seq<u8>) -> Seq<u8> {
    s.take(s.len() - 2)
}

/// The status line that ends every successful reply.
pub open spec fn ok_line() -> Seq<u8> {
    ascii("OK"@) + seq![CR, LF]
}

/// A piece of a reply, read in order.
pub enum Part {
    /// A text line of at most `LINE_CAPACITY` bytes, which the caller keeps.
    Line,
    /// A line of at most `SKIP_LIMIT` bytes, which is discarded.
    Skip,
    /// The status line `OK`.
    Status,
}

/// Why a reply is rejected.
pub enum Fault {
    Unexpected,
    Overflow,
    BadText,
}

/// How one part fares on the bytes `s` that follow it.
pub enum Scan {
    /// The bytes end before the part is decided.
    Pending,
    /// The part is read whole from the first `n` bytes.
    Done(nat),
    /// The part is rejected once the first `n` bytes are read.
    Failed(Fault, nat),
}

/// The part was decided on exactly `len` bytes.
pub open spec fn settled(sc: Scan, len: nat) -> bool {
    match sc {
        Scan::Pending => false,
        Scan::Done(n) => n == len,
        Scan::Failed(_, n) => n == len,
    }
}

/// How a whole reply fares on the bytes read for it.
pub enum Reply {
    Pending,
    /// Accepted, with the contents of its `Line` parts in order.
    Complete(Seq<Seq<u8>>),
    Failed(Fault),
}

/// A whole line of at most `cap` content bytes starts `s`, `n` bytes long.
pub open spec fn line_within(s: Seq<u8>, n: int, cap: nat) -> bool {
    2 <= n <= cap + 2 && n <= s.len() && is_line(s.take(n))
}

/// How a line of at most `cap` content bytes fares on `s`, its text not yet judged.
pub open spec fn scan_line(s: Seq<u8>, cap: nat) -> Scan {
    if exists|n: int| line_within(s, n, cap) {
        Scan::Done((choose|n: int| line_within(s, n, cap)) as nat)
    } else if s.len() >= cap + 2 {
        Scan::Failed(Fault::Overflow, cap + 2)
    } else {
        Scan::Pending
    }
}

/// Byte `i` of `s` is the first that differs from the status line.
pub open spec fn status_differs_at(s: Seq<u8>, i: int) -> bool {
    0 <= i < 4 && i < s.len() && s.take(i) == ok_line().take(i) && s[i] != ok_line()[i]
}

/// How part `p` fares on the bytes `s` read for it: a line is cut at its
/// first CRLF, and a kept line must also be valid UTF-8.
pub open spec fn scan(p: Part, s: Seq<u8>) -> Scan {
    match p {
        Part::Line => match scan_line(s, LINE_CAPACITY as nat) {
            Scan::Done(n) => if valid_utf8(line_content(s.take(n as int))) {
                Scan::Done(n)
            } else {
                Scan::Failed(Fault::BadText, n)
            },
            other => other,
        },
        Part::Skip => scan_line(s, SKIP_LIMIT as nat),
        Part::Status => {
            if exists|i: int| status_differs_at(s, i) {
                Scan::Failed(Fault::Unexpected, ((choose|i: int| status_differs_at(s, i)) + 1) as nat)
            } else if s.len() >= 4 {
                Scan::Done(4)
            } else {
                Scan::Pending
            }
        },
    }
}

/// The verdict of reading the parts in order from `s`, and how many bytes of
/// `s` that reading consumes.
pub open spec fn reply(parts: Seq<Part>, s: Seq<u8>) -> (Reply, nat)
    decreases parts.len(),
{
    if parts.len() == 0 {
        (Reply::Complete(seq![]), 0)
    } else {
        match scan(parts[0], s) {
            Scan::Pending => (Reply::Pending, s.len()),
            Scan::Failed(f, n) => (Reply::Failed(f), n),
            Scan::Done(n) => prepend(parts[0], s.take(n as int), reply(parts.drop_first(), s.skip(n as int))),
        }
    }
}

/// The verdict of a reply whose first part took the bytes `g` and whose
/// remaining parts reached `tail`.
pub open spec fn prepend(p: Part, g: Seq<u8>, tail: (Reply, nat)) -> (Reply, nat) {
    let verdict = match tail.0 {
        Reply::Complete(lines) => Reply::Complete(
            if p is Line {
                seq![line_content(g)] + lines
            } else {
                lines
            },
        ),
        other => other,
    };
    (verdict, g.len() + tail.1)
}

/// The shape of the reply that each command expects.
pub open spec fn reply_parts(c: Command) -> Seq<Part> {
    match c {
        Command::ModuleRevision => seq![Part::Line, Part::Line, Part::Line, Part::Status],
        Command::DeepSleep(_) => seq![Part::Skip, Part::Status],
        _ => seq![Part::Status],
    }
}

/// No whole line can start bytes that hold no CRLF.
pub proof fn lemma_no_line(s: Seq<u8>, cap: nat)
    requires
        no_crlf(s),
    ensures
        forall|n: int| !#[trigger] line_within(s, n, cap),
{
    assert forall|n: int| !#[trigger] line_within(s, n, cap) by {
        if line_within(s, n, cap) {
            assert(crlf_at(s.take(n), n - 2));
            assert(crlf_at(s, n - 2));
        }
    }
}

/// Two whole lines that start the same bytes are the same length.
pub proof fn lemma_line_unique(s: Seq<u8>, a: int, b: int)
    requires
        2 <= a <= s.len(),
        2 <= b <= s.len(),
        is_line(s.take(a)),
        is_line(s.take(b)),
    ensures
        a == b,
{
    if a < b {
        assert(crlf_at(s.take(a), a - 2));
        assert(crlf_at(s.take(b).drop_last(), a - 2));
    } else if b < a {
        assert(crlf_at(s.take(b), b - 2));
        assert(crlf_at(s.take(a).drop_last(), b - 2));
    }
}

/// A line reader that has read exactly a whole line stops there.
pub proof fn lemma_line_done(s: Seq<u8>, cap: nat)
    requires
        is_line(s),
        s.len() <= cap + 2,
    ensures
        scan_line(s, cap) == Scan::Done(s.len()),
{
    assert(s.take(s.len() as int) =~= s);
    assert(line_within(s, s.len() as int, cap));
    let n = choose|n: int| line_within(s, n, cap);
    lemma_line_unique(s, n, s.len() as int);
}

/// Bytes read after a line reader has decided do not change its verdict.
pub proof fn lemma_scan_line_extend(g: Seq<u8>, rest: Seq<u8>, cap: nat)
    requires
        settled(scan_line(g, cap), g.len()),
    ensures
        scan_line(g + rest, cap) == scan_line(g, cap),
{
    let s = g + rest;
    if exists|n: int| line_within(g, n, cap) {
        let n = choose|n: int| line_within(g, n, cap);
        assert(s.take(n) =~= g.take(n));
        assert(line_within(s, n, cap));
        let m = choose|m: int| line_within(s, m, cap);
        lemma_line_unique(s, n, m);
    } else {
        assert forall|n: int| !#[trigger] line_within(s, n, cap) by {
            if line_within(s, n, cap) {
                assert(s.take(n) =~= g.take(n));
                assert(line_within(g, n, cap));
            }
        }
    }
}

/// Bytes read after a part has decided do not change its verdict.
pub proof fn lemma_scan_extend(p: Part, g: Seq<u8>, rest: Seq<u8>)
    requires
        settled(scan(p, g), g.len()),
    ensures
        scan(p, g + rest) == scan(p, g),
{
    let s = g + rest;
    match p {
        Part::Line => {
            lemma_scan_line_extend(g, rest, LINE_CAPACITY as nat);
            if let Scan::Done(n) = scan_line(g, LINE_CAPACITY as nat) {
                assert(s.take(n as int) =~= g.take(n as int));
            }
        },
        Part::Skip => {
            lemma_scan_line_extend(g, rest, SKIP_LIMIT as nat);
        },
        Part::Status => {
            if exists|i: int| status_differs_at(g, i) {
                let i = choose|i: int| status_differs_at(g, i);
                assert(s.take(i) =~= g.take(i));
                assert(status_differs_at(s, i));
                let j = choose|j: int| status_differs_at(s, j);
                lemma_status_differs_unique(s, i, j);
            } else {
                assert forall|i: int| !#[trigger] status_differs_at(s, i) by {
                    if status_differs_at(s, i) {
                        assert(s.take(i) =~= g.take(i));
                        assert(status_differs_at(g, i));
                    }
                }
            }
        },
    }
}

/// The first byte that differs from the status line is unique.
pub proof fn lemma_status_differs_unique(s: Seq<u8>, i: int, j: int)
    requires
        status_differs_at(s, i),
        status_differs_at(s, j),
    ensures
        i == j,
{
    reveal_strlit("OK");
    assert(ok_line().len() == 4);
    if i < j {
        assert(s.take(j)[i] == ok_line().take(j)[i]);
    } else if j < i {
        assert(s.take(i)[j] == ok_line().take(i)[j]);
    }
}

/// A reply whose first part takes exactly `g` continues with the rest of the
/// parts on what follows.
pub proof fn lemma_reply_step(parts: Seq<Part>, g: Seq<u8>, rest: Seq<u8>)
    requires
        parts.len() > 0,
        scan(parts[0], g) == Scan::Done(g.len()),
    ensures
        reply(parts, g + rest) == prepend(parts[0], g, reply(parts.drop_first(), rest)),
{
    lemma_scan_extend(parts[0], g, rest);
    assert((g + rest).take(g.len() as int) =~= g);
    assert((g + rest).skip(g.len() as int) =~= rest);
}

/// The verdict of a reply that is the status line alone.
pub proof fn lemma_status_reply(g: Seq<u8>)
    ensures
        reply(seq![Part::Status], g) == match scan(Part::Status, g) {
            Scan::Pending => (Reply::Pending, g.len()),
            Scan::Failed(f, n) => (Reply::Failed(f), n),
            Scan::Done(n) => (Reply::Complete(Seq::empty()), n),
        },
{
    let parts = seq![Part::Status];
    assert(parts[0] == Part::Status);
    if let Scan::Done(n) = scan(Part::Status, g) {
        assert(parts.drop_first() =~= Seq::<Part>::empty());
        assert(reply(Seq::<Part>::empty(), g.skip(n as int)) == (Reply::Complete(Seq::empty()), 0nat));
        assert(n <= g.len()) by {
            reveal_strlit("OK");
        }
        assert(g.take(n as int).len() == n);
    }
}

/// `l` can stand as the content of a line of at most `cap` bytes.
pub open spec fn fits_line(l: Seq<u8>, cap: nat) -> bool {
    l.len() <= cap && no_crlf(l.push(CR))
}

/// `l` followed by CRLF.
pub open spec fn terminated(l: Seq<u8>) -> Seq<u8> {
    l + seq![CR, LF]
}

/// How many reply lines, before the status line, a command's reply has.
pub open spec fn line_count(c: Command) -> nat {
    match c {
        Command::ModuleRevision => 3,
        Command::DeepSleep(_) => 1,
        _ => 0,
    }
}

/// The reply that the command set documents for `c`, with the given lines
/// before the status line.
pub open spec fn documented_reply(c: Command, lines: Seq<Seq<u8>>) -> Seq<u8> {
    match c {
        Command::ModuleRevision => terminated(lines[0]) + terminated(lines[1]) + terminated(lines[2])
            + ok_line(),
        Command::DeepSleep(_) => terminated(lines[0]) + ok_line(),
        _ => ok_line(),
    }
}

/// The lines kept from a documented reply: all of them for the revision,
/// none otherwise.
pub open spec fn kept_lines(c: Command, lines: Seq<Seq<u8>>) -> Seq<Seq<u8>> {
    match c {
        Command::ModuleRevision => lines,
        _ => Seq::empty(),
    }
}

/// The lines fit the reply of `c`: as many as it has, each free of CRLF and
/// within its capacity, and valid UTF-8 where the driver keeps them.
pub open spec fn lines_fit(c: Command, lines: Seq<Seq<u8>>) -> bool {
    &&& lines.len() == line_count(c)
    &&& forall|i: int|
        0 <= i < lines.len() ==> match c {
            Command::ModuleRevision => fits_line(#[trigger] lines[i], LINE_CAPACITY as nat)
                && valid_utf8(lines[i]),
            _ => fits_line(lines[i], SKIP_LIMIT as nat),
        }
}

/// A line reader on a whole line of content `l` stops right after it.
pub proof fn lemma_terminated_line(l: Seq<u8>, cap: nat)
    requires
        fits_line(l, cap),
    ensures
        is_line(terminated(l)),
        line_content(terminated(l)) == l,
        scan_line(terminated(l), cap) == Scan::Done(terminated(l).len()),
{
    let s = terminated(l);
    assert(s.drop_last() =~= l.push(CR));
    assert(crlf_at(s, s.len() - 2));
    assert(line_content(s) =~= l);
    lemma_line_done(s, cap);
}

/// The status line is accepted whole.
pub proof fn lemma_ok_line_accepted()
    ensures
        scan(Part::Status, ok_line()) == Scan::Done(4),
{
    reveal_strlit("OK");
    assert forall|i: int| !#[trigger] status_differs_at(ok_line(), i) by {}
}

/// The documented reply to every command is accepted, reading it to its last
/// byte and keeping the revision's lines.
pub proof fn lemma_documented_reply_accepted(c: Command, lines: Seq<Seq<u8>>)
    requires
        lines_fit(c, lines),
    ensures
        reply(reply_parts(c), documented_reply(c, lines)) == (
            Reply::Complete(kept_lines(c, lines)),
            documented_reply(c, lines).len(),
        ),
{
    lemma_ok_line_accepted();
    lemma_status_reply(ok_line());
    reveal_strlit("OK");
    assert(ok_line().len() == 4);
    match c {
        Command::ModuleRevision => lemma_revision_documented(lines),
        Command::DeepSleep(_) => {
            let parts = reply_parts(c);
            assert(parts.drop_first() =~= seq![Part::Status]);
            assert(parts[0] == Part::Skip);
            assert(fits_line(lines[0], SKIP_LIMIT as nat));
            lemma_terminated_line(lines[0], SKIP_LIMIT as nat);
            let a = terminated(lines[0]);
            assert(a.take(a.len() as int) =~= a);
            lemma_reply_step(parts, a, ok_line());
        },
        _ => {},
    }
}

proof fn lemma_revision_documented(lines: Seq<Seq<u8>>)
    requires
        lines_fit(Command::ModuleRevision, lines),
        reply(seq![Part::Status], ok_line()) == (Reply::Complete(Seq::<Seq<u8>>::empty()), 4nat),
    ensures
        reply(reply_parts(Command::ModuleRevision), documented_reply(Command::ModuleRevision, lines))
            == (Reply::Complete(lines), documented_reply(Command::ModuleRevision, lines).len()),
{
    let parts = reply_parts(Command::ModuleRevision);
    let st = seq![Part::Status];
    let t1 = seq![Part::Line, Part::Line, Part::Status];
    let t2 = seq![Part::Line, Part::Status];
    assert(parts.drop_first() =~= t1 && t1.drop_first() =~= t2 && t2.drop_first() =~= st);
    assert(parts[0] == Part::Line && t1[0] == Part::Line && t2[0] == Part::Line);
    let (a, b, d) = (terminated(lines[0]), terminated(lines[1]), terminated(lines[2]));
    assert(fits_line(lines[0], LINE_CAPACITY as nat) && valid_utf8(lines[0]));
    assert(fits_line(lines[1], LINE_CAPACITY as nat) && valid_utf8(lines[1]));
    assert(fits_line(lines[2], LINE_CAPACITY as nat) && valid_utf8(lines[2]));
    lemma_terminated_line(lines[0], LINE_CAPACITY as nat);
    lemma_terminated_line(lines[1], LINE_CAPACITY as nat);
    lemma_terminated_line(lines[2], LINE_CAPACITY as nat);
    assert(a.take(a.len() as int) =~= a);
    assert(b.take(b.len() as int) =~= b);
    assert(d.take(d.len() as int) =~= d);
    assert(a + b + d + ok_line() =~= a + (b + (d + ok_line())));
    reveal_strlit("OK");
    assert(ok_line().len() == 4);
    lemma_reply_step(parts, a, b + (d + ok_line()));
    lemma_reply_step(t1, b, d + ok_line());
    lemma_reply_step(t2, d, ok_line());
    assert(seq![lines[0]] + (seq![lines[1]] + (seq![lines[2]] + Seq::<Seq<u8>>::empty())) =~= lines);
}

/// A line that runs past the capacity with no CRLF in its first
/// `LINE_CAPACITY + 2` bytes is an overflow, reported once those bytes are
/// read and before any CRLF is.
pub proof fn lemma_overflow_before_terminator(s: Seq<u8>)
    requires
        s.len() >= LINE_CAPACITY + 2,
        no_crlf(s.take(LINE_CAPACITY + 2)),
    ensures
        scan(Part::Line, s) == Scan::Failed(Fault::Overflow, (LINE_CAPACITY + 2) as nat),
{
    let w = s.take(LINE_CAPACITY + 2);
    lemma_no_line(w, LINE_CAPACITY as nat);
    assert forall|n: int| !#[trigger] line_within(s, n, LINE_CAPACITY as nat) by {
        if line_within(s, n, LINE_CAPACITY as nat) {
            assert(s.take(n) =~= w.take(n));
            assert(line_within(w, n, LINE_CAPACITY as nat));
        }
    }
}

/// A status line is rejected at the first byte that differs from `OK`, and
/// no byte after it is read.
pub proof fn lemma_status_rejected_at_first_difference(s: Seq<u8>, i: int)
    requires
        status_differs_at(s, i),
    ensures
        scan(Part::Status, s) == Scan::Failed(Fault::Unexpected, (i + 1) as nat),
{
    let j = choose|j: int| status_differs_at(s, j);
    lemma_status_differs_unique(s, i, j);
}

/// A whole line that fits but is not valid UTF-8 is rejected as bad text
/// once its terminator is read.
pub proof fn lemma_invalid_text_rejected(l: Seq<u8>)
    requires
        fits_line(l, LINE_CAPACITY as nat),
        !valid_utf8(l),
    ensures
        scan(Part::Line, terminated(l)) == Scan::Failed(Fault::BadText, terminated(l).len()),
{
    lemma_terminated_line(l, LINE_CAPACITY as nat);
    assert(terminated(l).take(terminated(l).len() as int) =~= terminated(l));
}

/// A part that decides after `n` bytes decides the same on those `n` bytes alone.
pub proof fn lemma_scan_truncate(p: Part, s: Seq<u8>)
    requires
        !(scan(p, s) is Pending),
    ensures
        match scan(p, s) {
            Scan::Done(n) => n <= s.len() && settled(scan(p, s.take(n as int)), n) && scan(p, s.take(n as int)) == scan(p, s),
            Scan::Failed(_, n) => n <= s.len() && settled(scan(p, s.take(n as int)), n) && scan(p, s.take(n as int)) == scan(p, s),
            Scan::Pending => true,
        },
{
    match p {
        Part::Line => {
            lemma_scan_line_truncate(s, LINE_CAPACITY as nat);
            if let Scan::Done(n) = scan_line(s, LINE_CAPACITY as nat) {
                assert(s.take(n as int).take(n as int) =~= s.take(n as int));
            }
        },
        Part::Skip => lemma_scan_line_truncate(s, SKIP_LIMIT as nat),
        Part::Status => {
            reveal_strlit("OK");
            assert(ok_line().len() == 4);
            if exists|i: int| status_differs_at(s, i) {
                let i = choose|i: int| status_differs_at(s, i);
                let t = s.take(i + 1);
                assert(t.take(i) =~= s.take(i));
                assert(status_differs_at(t, i));
                let j = choose|j: int| status_differs_at(t, j);
                lemma_status_differs_unique(t, i, j);
            } else {
                let t = s.take(4);
                assert forall|i: int| !#[trigger] status_differs_at(t, i) by {
                    if status_differs_at(t, i) {
                        assert(t.take(i) =~= s.take(i));
                        assert(status_differs_at(s, i));
                    }
                }
            }
        },
    }
}

/// A line reader that decides after `n` bytes decides the same on those bytes alone.
pub proof fn lemma_scan_line_truncate(s: Seq<u8>, cap: nat)
    requires
        !(scan_line(s, cap) is Pending),
    ensures
        match scan_line(s, cap) {
            Scan::Done(n) => n <= s.len() && scan_line(s.take(n as int), cap) == scan_line(s, cap),
            Scan::Failed(_, n) => n <= s.len() && scan_line(s.take(n as int), cap) == scan_line(s, cap),
            Scan::Pending => true,
        },
{
    if exists|n: int| line_within(s, n, cap) {
        let n = choose|n: int| line_within(s, n, cap);
        let t = s.take(n);
        assert(t.take(n) =~= s.take(n));
        assert(line_within(t, n, cap));
        let m = choose|m: int| line_within(t, m, cap);
        lemma_line_unique(t, n, m);
    } else {
        let t = s.take(cap + 2 as int);
        assert forall|m: int| !#[trigger] line_within(t, m, cap) by {
            if line_within(t, m, cap) {
                assert(t.take(m) =~= s.take(m));
                assert(line_within(s, m, cap));
            }
        }
    }
}

/// Once a reply is decided on exactly the bytes read, bytes that would
/// follow do not change its verdict.
pub proof fn lemma_reply_extend(parts: Seq<Part>, g: Seq<u8>, rest: Seq<u8>)
    requires
        !(reply(parts, g).0 is Pending),
        reply(parts, g).1 == g.len(),
    ensures
        reply(parts, g + rest) == reply(parts, g),
    decreases parts.len(),
{
    if parts.len() == 0 {
        assert(g + rest =~= rest);
    } else {
        let sc = scan(parts[0], g);
        lemma_scan_truncate(parts[0], g);
        match sc {
            Scan::Pending => {},
            Scan::Failed(_, n) => {
                assert(g.take(n as int) =~= g);
                lemma_scan_extend(parts[0], g, rest);
            },
            Scan::Done(n) => {
                let head = g.take(n as int);
                let tail = g.skip(n as int);
                assert(head + tail =~= g);
                assert(g + rest =~= head + (tail + rest));
                lemma_scan_extend(parts[0], head, tail + rest);
                assert((g + rest).take(n as int) =~= head);
                assert((g + rest).skip(n as int) =~= tail + rest);
                lemma_reply_extend(parts.drop_first(), tail, rest);
            },
        }
    }
}

/// The documented reply is read to its last byte and no further: reading
/// stops on its last byte whatever follows, and a reply cut short anywhere
/// before that is still undecided.
pub proof fn lemma_documented_reply_exact(c: Command, lines: Seq<Seq<u8>>, got: Seq<u8>, rest: Seq<u8>)
    requires
        lines_fit(c, lines),
        got + rest == documented_reply(c, lines),
        !(reply(reply_parts(c), got).0 is Pending),
        reply(reply_parts(c), got).1 == got.len(),
    ensures
        rest.len() == 0,
{
    lemma_documented_reply_accepted(c, lines);
    lemma_reply_extend(reply_parts(c), got, rest);
}

} // verus!
