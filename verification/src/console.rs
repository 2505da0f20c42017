//! The board's command loop, as a state machine.
//!
//! Bytes from the host accumulate into a line (at most [`LINE_MAX`] of them;
//! the overflow of a longer line is dropped) until a `\n` or `\r`. A line
//! that starts with `OTA:` starts a firmware update; any other line is
//! applied to the LEDs (see [`crate::leds`]), and the first such line also
//! confirms the running image as working. Every byte proves the host alive;
//! after [`IDLE_TIMEOUT_MS`] milliseconds without one, all LEDs light ("no
//! host daemon") and a half-received line is dropped.
//!
//! The driver polls the serial port, waits a millisecond when nothing is
//! there, hands what it saw to [`Console::step`] and performs the
//! [`Command`] it gets back.

use vstd::prelude::*;
use crate::leds::{leds_for_line, line_leds, Leds};

verus! {

/// Longest command line that is kept; the LED commands are at most 4 bytes
/// and the update trigger about 30.
pub const LINE_MAX: usize = 64;

/// Milliseconds of silence after which the host is taken to be gone.
pub const IDLE_TIMEOUT_MS: u32 = 10_000;

/// What one poll of the serial port gave.
#[derive(Clone, Copy, Debug)]
pub enum Input {
    /// A byte arrived.
    Byte(u8),
    /// Nothing was waiting; one millisecond was spent waiting.
    NoByte,
}

/// What the driver is to do after a poll.
#[derive(Debug)]
pub enum Command {
    /// Nothing.
    Nothing,
    /// Run a firmware update with these trigger arguments (the line after
    /// `OTA:`).
    Update(Vec<u8>),
    /// Set the LEDs; when `confirm` holds, first confirm the running image.
    Show { leds: Leds, confirm: bool },
    /// The host is gone: light all LEDs.
    NoHost,
}

/// The abstract value of a [`Command`].
pub enum CommandView {
    Nothing,
    Update(Seq<u8>),
    Show { leds: Leds, confirm: bool },
    NoHost,
}

impl View for Command {
    type V = CommandView;

    open spec fn view(&self) -> CommandView {
        match self {
            Command::Nothing => CommandView::Nothing,
            Command::Update(args) => CommandView::Update(args@),
            Command::Show { leds, confirm } => CommandView::Show { leds: *leds, confirm: *confirm },
            Command::NoHost => CommandView::NoHost,
        }
    }
}

/// The abstract state of the command loop.
pub struct ConsoleView {
    /// The line received since the last terminator (its first
    /// [`LINE_MAX`] bytes).
    pub line: Seq<u8>,
    /// The running image has been confirmed.
    pub confirmed: bool,
    /// Milliseconds since the last byte.
    pub idle_ms: u32,
}

/// `\n` or `\r`.
pub open spec fn is_terminator(b: u8) -> bool {
    b == 10 || b == 13
}

/// The prefix `OTA:` that marks an update trigger.
pub open spec fn update_prefix() -> Seq<u8> {
    seq![79u8, 84u8, 65u8, 58u8]
}

/// The line is an update trigger.
pub open spec fn is_update_line(line: Seq<u8>) -> bool {
    line.len() >= 4 && line.take(4) == update_prefix()
}

/// The states the loop can be in.
pub open spec fn console_wf(v: ConsoleView) -> bool {
    v.line.len() <= LINE_MAX
}

/// One poll of the loop: the next state and the command after input `i` in
/// state `v`.
pub open spec fn console_next(v: ConsoleView, i: Input) -> (ConsoleView, CommandView) {
    match i {
        Input::Byte(b) => if is_terminator(b) {
            if is_update_line(v.line) {
                (
                    ConsoleView { line: Seq::empty(), confirmed: v.confirmed, idle_ms: 0 },
                    CommandView::Update(v.line.skip(4)),
                )
            } else {
                (
                    ConsoleView { line: Seq::empty(), confirmed: true, idle_ms: 0 },
                    CommandView::Show { leds: line_leds(v.line), confirm: !v.confirmed },
                )
            }
        } else {
            (
                ConsoleView {
                    line: if v.line.len() < LINE_MAX {
                        v.line.push(b)
                    } else {
                        v.line
                    },
                    confirmed: v.confirmed,
                    idle_ms: 0,
                },
                CommandView::Nothing,
            )
        },
        Input::NoByte => {
            let idle = if v.idle_ms < u32::MAX {
                (v.idle_ms + 1) as u32
            } else {
                v.idle_ms
            };
            if idle == IDLE_TIMEOUT_MS {
                (
                    ConsoleView { line: Seq::empty(), confirmed: v.confirmed, idle_ms: idle },
                    CommandView::NoHost,
                )
            } else {
                (
                    ConsoleView { line: v.line, confirmed: v.confirmed, idle_ms: idle },
                    CommandView::Nothing,
                )
            }
        },
    }
}

/// The running image is confirmed at most once: only the first LED command
/// asks for it, and once confirmed it stays confirmed.
pub proof fn lemma_console_confirms_once(v: ConsoleView, i: Input)
    ensures
        v.confirmed ==> console_next(v, i).0.confirmed,
        console_next(v, i).1 matches CommandView::Show { confirm, .. } ==> confirm == !v.confirmed
            && console_next(v, i).0.confirmed,
        console_next(v, i).1 matches CommandView::Update(_) ==> console_next(v, i).0.confirmed
            == v.confirmed,
{
}

/// Every byte proves the host alive; the board declares the host gone
/// exactly when the silence reaches [`IDLE_TIMEOUT_MS`], and then drops the
/// half-received line.
pub proof fn lemma_console_silence(v: ConsoleView, i: Input)
    ensures
        i is Byte ==> console_next(v, i).0.idle_ms == 0,
        i is NoByte && v.idle_ms < u32::MAX ==> console_next(v, i).0.idle_ms == v.idle_ms + 1,
        (console_next(v, i).1 is NoHost) == (i is NoByte && console_next(v, i).0.idle_ms
            == IDLE_TIMEOUT_MS),
        console_next(v, i).1 is NoHost ==> console_next(v, i).0.line.len() == 0,
{
}

/// The line after one more byte: extended while shorter than [`LINE_MAX`].
pub open spec fn line_with(line: Seq<u8>, b: u8) -> Seq<u8> {
    if line.len() < LINE_MAX {
        line.push(b)
    } else {
        line
    }
}

/// What one poll does, input by input. A byte other than a terminator only
/// extends the line (up to [`LINE_MAX`]); a terminator hands the whole line
/// over, as an update or as the LEDs it names; a silent poll only counts
/// the silence, keeping the half-received line, until the timeout. Only an
/// LED line confirms the image.
pub proof fn lemma_console_poll(v: ConsoleView, i: Input, b: u8)
    ensures
        !(console_next(v, i).1 is Show) ==> console_next(v, i).0.confirmed == v.confirmed,
        console_next(v, i).1 is Show ==> console_next(v, i).0.confirmed,
        i is NoByte && console_next(v, i).1 is Nothing ==> console_next(v, i).0.line == v.line,
        i is NoByte ==> (console_next(v, i).1 is Nothing || console_next(v, i).1 is NoHost),
        i == Input::Byte(b) && !is_terminator(b) ==> (console_next(v, i).1 is Nothing),
        i == Input::Byte(b) && !is_terminator(b) ==> console_next(v, i).0.line == line_with(
            v.line,
            b,
        ),
        i == Input::Byte(b) && is_terminator(b) && is_update_line(v.line) ==> console_next(v, i).1
            == CommandView::Update(v.line.skip(4)),
        i == Input::Byte(b) && is_terminator(b) && !is_update_line(v.line) ==> console_next(v, i).1
            == (CommandView::Show { leds: line_leds(v.line), confirm: !v.confirmed }),
        i == Input::Byte(b) && is_terminator(b) ==> console_next(v, i).0.line.len() == 0,
{
}

/// The state after the bytes `bs` arrive one by one.
pub open spec fn console_feed(v: ConsoleView, bs: Seq<u8>) -> ConsoleView
    decreases bs.len(),
{
    if bs.len() == 0 {
        v
    } else {
        console_next(console_feed(v, bs.drop_last()), Input::Byte(bs.last())).0
    }
}

pub open spec fn min_len(a: int, b: int) -> int {
    if a < b {
        a
    } else {
        b
    }
}

/// Bytes other than terminators accumulate into the line, and those beyond
/// the first [`LINE_MAX`] are dropped.
pub proof fn lemma_console_accumulates(v: ConsoleView, bs: Seq<u8>)
    requires
        console_wf(v),
        forall|k: int| 0 <= k < bs.len() ==> !is_terminator(#[trigger] bs[k]),
    ensures
        console_feed(v, bs).line == (v.line + bs).take(min_len((v.line + bs).len() as int, LINE_MAX as int)),
        console_feed(v, bs).confirmed == v.confirmed,
    decreases bs.len(),
{
    if bs.len() > 0 {
        let p = bs.drop_last();
        assert forall|k: int| 0 <= k < p.len() implies !is_terminator(#[trigger] p[k]) by {
            assert(p[k] == bs[k]);
        }
        lemma_console_accumulates(v, p);
        assert(!is_terminator(bs[bs.len() - 1]));
        let all = v.line + bs;
        let allp = v.line + p;
        assert(allp =~= all.drop_last());
        if allp.len() < LINE_MAX {
            assert(allp.take(allp.len() as int) =~= allp);
            assert(all.take(all.len() as int) =~= all);
            assert(allp.push(bs.last()) =~= all);
        } else {
            assert(allp.take(LINE_MAX as int) =~= all.take(LINE_MAX as int));
        }
    } else {
        assert(v.line + bs =~= v.line);
        assert(v.line.take(v.line.len() as int) =~= v.line);
    }
}

/// A line is applied as a whole when its terminator arrives: starting from
/// an empty line, the bytes `bs` (no terminator among them) followed by a
/// terminator light exactly the LEDs named in the first [`LINE_MAX`] bytes of
/// `bs`, or, when those start with `OTA:`, start an update with the rest of
/// them; either way the next line starts empty.
pub proof fn lemma_console_applies_line(v: ConsoleView, bs: Seq<u8>, t: u8)
    requires
        console_wf(v),
        v.line.len() == 0,
        forall|k: int| 0 <= k < bs.len() ==> !is_terminator(#[trigger] bs[k]),
        is_terminator(t),
    ensures
        ({
            let kept = bs.take(min_len(bs.len() as int, LINE_MAX as int));
            let (w, c) = console_next(console_feed(v, bs), Input::Byte(t));
            &&& w.line.len() == 0
            &&& w.idle_ms == 0
            &&& is_update_line(kept) ==> c == CommandView::Update(kept.skip(4))
            &&& !is_update_line(kept) ==> c == CommandView::Show {
                leds: line_leds(kept),
                confirm: !v.confirmed,
            }
        }),
{
    lemma_console_accumulates(v, bs);
    assert(v.line + bs =~= bs);
}

/// The command loop's state.
pub struct Console {
    line: Vec<u8>,
    confirmed: bool,
    idle_ms: u32,
}

impl View for Console {
    type V = ConsoleView;

    closed spec fn view(&self) -> ConsoleView {
        ConsoleView { line: self.line@, confirmed: self.confirmed, idle_ms: self.idle_ms }
    }
}

impl Console {
    /// The loop's state is one it can reach.
    pub closed spec fn wf(&self) -> bool {
        console_wf(self@)
    }

    /// A valid loop's abstract state is one it can reach, so the laws about
    /// [`console_next`] apply to it.
    pub proof fn lemma_view_wf(&self)
        requires
            self.wf(),
        ensures
            console_wf(self@),
    {
    }

    /// The loop after boot: no line, image not yet confirmed, no silence.
    pub fn new() -> (r: Console)
        ensures
            r.wf(),
            console_wf(r@),
            r@ == (ConsoleView { line: Seq::empty(), confirmed: false, idle_ms: 0 }),
    {
        Console { line: Vec::new(), confirmed: false, idle_ms: 0 }
    }

    /// Handles one poll of the serial port, as [`console_next`] says.
    pub fn step(&mut self, input: Input) -> (c: Command)
        requires
            old(self).wf(),
        ensures
            final(self).wf(),
            console_wf(final(self)@),
            (final(self)@, c@) == console_next(old(self)@, input),
    {
        match input {
            Input::Byte(byte) => {
                self.idle_ms = 0;
                if byte == 10 || byte == 13 {
                    let mut line: Vec<u8> = Vec::new();
                    core::mem::swap(&mut line, &mut self.line);
                    let n = line.len();
                    let c = if n >= 4 && line[0] == 79 && line[1] == 84 && line[2] == 65 && line[3]
                        == 58 {
                        assert(line@.take(4) =~= update_prefix());
                        let mut args: Vec<u8> = Vec::new();
                        let mut k: usize = 4;
                        while k < n
                            invariant
                                4 <= k <= n,
                                n == line@.len(),
                                args@ =~= line@.subrange(4, k as int),
                            decreases n - k,
                        {
                            args.push(line[k]);
                            k = k + 1;
                        }
                        Command::Update(args)
                    } else {
                        assert(!is_update_line(line@)) by {
                            if is_update_line(line@) {
                                assert(line@.take(4)[0] == line@[0]);
                                assert(line@.take(4)[1] == line@[1]);
                                assert(line@.take(4)[2] == line@[2]);
                                assert(line@.take(4)[3] == line@[3]);
                            }
                        }
                        let confirm = !self.confirmed;
                        self.confirmed = true;
                        Command::Show { leds: leds_for_line(line.as_slice()), confirm }
                    };
                    c
                } else {
                    if self.line.len() < LINE_MAX {
                        self.line.push(byte);
                    }
                    Command::Nothing
                }
            },
            Input::NoByte => {
                self.idle_ms = self.idle_ms.saturating_add(1);
                if self.idle_ms == IDLE_TIMEOUT_MS {
                    self.line = Vec::new();
                    Command::NoHost
                } else {
                    Command::Nothing
                }
            },
        }
    }
}

} // verus!
