//! The serial-line multiplexer.
//!
//! One dispatcher owns the physical device. Callers submit commands; the
//! dispatcher writes them, accumulates raw device output in a line buffer,
//! and on idle flushes the buffer through the filter before delivering a
//! reply. The state machine here takes the events the device loop observes
//! and says what must be written, delivered or recovered; the surrounding
//! program performs the reads and writes.

use vstd::prelude::*;
use crate::strutil::{
    contains_seq, is_prefix, join_lines, lemma_filter_members, spec_join, spec_lines, spec_trim,
    starts_with, str_contains, str_lines, trim, views,
};
use crate::StationError;

verus! {

/// The marker that betrays a broken interactive prompt on the line.
pub const UART_INVALID_CHAR: &'static str = ">";

/// The invalid-character marker with its view pinned down.
fn uart_invalid_char() -> (r: &'static str)
    ensures
        r@ == seq!['>'],
{
    proof {
        reveal_strlit(">");
        assert(">"@ =~= seq!['>']);
    }
    UART_INVALID_CHAR
}

/// The views of a vector of borrowed strings.
pub open spec fn str_views(v: Seq<&str>) -> Seq<Seq<char>> {
    v.map_values(|f: &str| f@)
}

/// Some filter is a prefix of the line.
pub open spec fn line_hits_filter(l: Seq<char>, fs: Seq<Seq<char>>) -> bool {
    exists|k: int| 0 <= k < fs.len() && is_prefix(#[trigger] fs[k], l)
}

/// A line survives the flush filter: it is nonempty and no filter is a
/// prefix of it.
pub open spec fn line_kept(l: Seq<char>, fs: Seq<Seq<char>>) -> bool {
    l.len() > 0 && !line_hits_filter(l, fs)
}

/// The surviving lines of a buffer, each trimmed.
pub open spec fn kept_lines(buf: Seq<char>, fs: Seq<Seq<char>>) -> Seq<Seq<char>> {
    spec_lines(buf).filter(|l: Seq<char>| line_kept(l, fs)).map_values(
        |l: Seq<char>| spec_trim(l),
    )
}

/// The invalid-character marker is an armed filter and some line of the
/// buffer starts with it.
pub open spec fn invalid_detected(buf: Seq<char>, fs: Seq<Seq<char>>) -> bool {
    fs.contains(seq!['>']) && exists|i: int|
        0 <= i < spec_lines(buf).len() && is_prefix(seq!['>'], #[trigger] spec_lines(buf)[i])
}

/// A command submitted to the dispatcher: write at once, or watch for a
/// marker and only then write.
pub enum UartCmd {
    NoWait(String),
    Wait(String, String),
}

/// What the dispatcher must now do on the device or for its caller.
pub enum UartAction {
    /// Write a submitted command to the device.
    WriteCommand(String),
    /// The awaited marker arrived: write the held payload now.
    WriteAfterMarker(String),
    /// Hand the filtered reply block to the waiting caller.
    Deliver(String),
    /// Write the recovery control byte and drop the buffer.
    Recover,
}

/// The dispatcher that owns one serial device.
pub struct UartServer {
    pub device: String,
    pub speed: u32,
    pub timeout_ms: u64,
    pub filters: Vec<String>,
    pub wait_mode: bool,
    pub wait: String,
    pub write_data: String,
    pub has_tmp: bool,
    pub has_wait: bool,
    pub is_tty: bool,
    pub line_buf: String,
    pub echo_data: String,
}

impl UartServer {
    /// The filters a flush applies: the configured ones, and the echo of
    /// the last written text on a terminal-like device.
    pub open spec fn active_filters(self) -> Seq<Seq<char>> {
        let base = self.filters@.map_values(|f: String| f@);
        if self.is_tty && self.write_data@.len() > 0 && spec_trim(self.write_data@).len() > 0 {
            base.push(spec_trim(self.write_data@))
        } else {
            base
        }
    }

    /// A fresh dispatcher for one device path, line speed, idle timeout and
    /// filter set.
    pub fn new(device: &str, speed: u32, timeout_ms: u64, filters: Vec<String>) -> (r: Self)
        ensures
            r.device@ == device@,
            r.speed == speed,
            r.timeout_ms == timeout_ms,
            r.filters == filters,
            !r.wait_mode && !r.has_tmp && !r.has_wait && !r.is_tty,
            r.wait@.len() == 0 && r.write_data@.len() == 0 && r.line_buf@.len() == 0
                && r.echo_data@.len() == 0,
    {
        UartServer {
            device: device.to_owned(),
            speed,
            timeout_ms,
            filters,
            wait_mode: false,
            wait: String::new(),
            write_data: String::new(),
            has_tmp: false,
            has_wait: false,
            is_tty: false,
            line_buf: String::new(),
            echo_data: String::new(),
        }
    }

    /// Choose whether the device echoes what is written to it.
    pub fn set_tty(self, value: bool) -> (r: Self)
        ensures
            r == (UartServer { is_tty: value, ..self }),
    {
        UartServer { is_tty: value, ..self }
    }

    /// Filter one buffer: report the invalid-character marker as a framing
    /// error; otherwise drop empty lines and lines that a filter prefixes,
    /// trim the rest, and join them, or report that nothing survived.
    pub fn filter_lines(filters: &Vec<&str>, line_buf: &str) -> (r: Result<
        Option<String>,
        StationError,
    >)
        ensures
            ({
                let fs = str_views(filters@);
                let kept = kept_lines(line_buf@, fs);
                &&& (r is Err <==> invalid_detected(line_buf@, fs))
                &&& (r matches Err(e) ==> e == StationError::Framing)
                &&& (r matches Ok(o) ==> {
                    &&& (o is None <==> kept.len() == 0)
                    &&& (o matches Some(s) ==> kept.len() > 0 && s@ == spec_join(
                        kept,
                        seq!['\n'],
                    ))
                })
            }),
    {
        let ghost fs = str_views(filters@);
        let lines = str_lines(line_buf);
        let mut has_invalid = false;
        let inv = uart_invalid_char();
        let mut k: usize = 0;
        while k < filters.len()
            invariant
                0 <= k <= filters@.len(),
                fs == str_views(filters@),
                inv@ == seq!['>'],
                has_invalid <==> exists|m: int| 0 <= m < k && #[trigger] fs[m] == seq!['>'],
            decreases filters@.len() - k,
        {
            let f = filters[k];
            if f.unicode_len() == 1 && f.get_char(0) == '>' {
                proof {
                    assert(fs[k as int] =~= seq!['>']);
                }
                has_invalid = true;
            }
            k = k + 1;
        }
        proof {
            if has_invalid {
                let m = choose|m: int| 0 <= m < filters@.len() && #[trigger] fs[m] == seq!['>'];
                assert(fs.contains(seq!['>']));
            }
            if fs.contains(seq!['>']) {
                let m = choose|m: int| 0 <= m < fs.len() && fs[m] == seq!['>'];
                assert(has_invalid);
            }
        }
        if has_invalid {
            let mut i: usize = 0;
            while i < lines.len()
                invariant
                    0 <= i <= lines@.len(),
                    fs == str_views(filters@),
                    fs.contains(seq!['>']),
                    views(lines@) == spec_lines(line_buf@),
                    forall|m: int|
                        0 <= m < i ==> !is_prefix(seq!['>'], #[trigger] spec_lines(line_buf@)[m]),
                    inv@ == seq!['>'],
                decreases lines@.len() - i,
            {
                if starts_with(lines[i].as_str(), inv) {
                    proof {
                        assert(lines@[i as int]@ == spec_lines(line_buf@)[i as int]);
                        assert(is_prefix(seq!['>'], spec_lines(line_buf@)[i as int]));
                        assert(invalid_detected(line_buf@, fs));
                    }
                    return Err(StationError::Framing);
                }
                proof {
                    assert(lines@[i as int]@ == spec_lines(line_buf@)[i as int]);
                }
                i = i + 1;
            }
        }
        proof {
            assert(!invalid_detected(line_buf@, fs));
        }
        let ghost pred = |l: Seq<char>| line_kept(l, fs);
        let mut kept: Vec<String> = Vec::new();
        let mut i: usize = 0;
        proof {
            reveal(Seq::filter);
            assert(spec_lines(line_buf@).take(0) =~= Seq::<Seq<char>>::empty());
            assert(views(kept@) =~= spec_lines(line_buf@).take(0).filter(pred).map_values(
                |l: Seq<char>| spec_trim(l),
            ));
        }
        while i < lines.len()
            invariant
                0 <= i <= lines@.len(),
                fs == str_views(filters@),
                views(lines@) == spec_lines(line_buf@),
                pred == |l: Seq<char>| line_kept(l, fs),
                views(kept@) == spec_lines(line_buf@).take(i as int).filter(pred).map_values(
                    |l: Seq<char>| spec_trim(l),
                ),
            decreases lines@.len() - i,
        {
            let ghost all = spec_lines(line_buf@);
            let ghost l = all[i as int];
            proof {
                assert(lines@[i as int]@ == l);
                assert(all.take(i + 1).drop_last() =~= all.take(i as int));
                assert(all.take(i + 1).last() == l);
            }
            let line = &lines[i];
            let mut drop_it = line.as_str().unicode_len() == 0;
            let mut k: usize = 0;
            while k < filters.len() && !drop_it
                invariant
                    0 <= k <= filters@.len(),
                    fs == str_views(filters@),
                    l == lines@[i as int]@,
                    0 <= i < lines@.len(),
                    line == &lines@[i as int],
                    drop_it ==> l.len() == 0 || line_hits_filter(l, fs),
                    !drop_it ==> l.len() > 0 && (forall|m: int|
                        0 <= m < k ==> !is_prefix(#[trigger] fs[m], l)),
                decreases filters@.len() - k + (if drop_it { 0int } else { 1int }),
            {
                if starts_with(line.as_str(), filters[k]) {
                    proof {
                        assert(is_prefix(fs[k as int], l));
                    }
                    drop_it = true;
                } else {
                    k = k + 1;
                }
            }
            proof {
                if !drop_it {
                    assert(line_kept(l, fs));
                } else {
                    assert(!line_kept(l, fs));
                }
            }
            if !drop_it {
                let t = trim(line.as_str()).to_owned();
                proof {
                    reveal(Seq::filter);
                    let prev = all.take(i as int);
                    assert(all.take(i + 1).filter(pred) =~= prev.filter(pred).push(l));
                    assert(views(kept@.push(t)) =~= views(kept@).push(t@));
                    assert(all.take(i + 1).filter(pred).map_values(|x: Seq<char>| spec_trim(x))
                        =~= prev.filter(pred).map_values(|x: Seq<char>| spec_trim(x)).push(
                        spec_trim(l),
                    ));
                }
                kept.push(t);
            } else {
                proof {
                    reveal(Seq::filter);
                    let prev = all.take(i as int);
                    assert(all.take(i + 1).filter(pred) =~= prev.filter(pred));
                }
            }
            i = i + 1;
        }
        proof {
            assert(spec_lines(line_buf@).take(lines@.len() as int) =~= spec_lines(line_buf@));
        }
        if kept.len() == 0 {
            proof {
                assert(kept_lines(line_buf@, fs).len() == views(kept@).len());
            }
            Ok(None)
        } else {
            proof {
                reveal_strlit("\n");
                assert("\n"@ =~= seq!['\n']);
            }
            let joined = join_lines(&kept, "\n");
            proof {
                assert(joined@ == spec_join(kept_lines(line_buf@, fs), seq!['\n']));
            }
            Ok(Some(joined))
        }
    }
}

/// What one flush does to the dispatcher, given the buffer `buf` it
/// flushed: the buffer is dropped; a detected invalid character asks for
/// recovery; otherwise, if the awaited marker is in the surviving text the
/// held payload is written and the wait is disarmed; otherwise the text
/// goes to the pending caller, if one exists. No line that a filter
/// prefixes is ever part of what a caller receives.
pub open spec fn flush_post(
    pre: UartServer,
    post: UartServer,
    acts: Seq<UartAction>,
    buf: Seq<char>,
) -> bool {
    let fs = pre.active_filters();
    let kept = kept_lines(buf, fs);
    let joined = spec_join(kept, seq!['\n']);
    let invalid = invalid_detected(buf, fs);
    let fired = !invalid && kept.len() > 0 && pre.wait_mode && contains_seq(joined, pre.wait@);
    let delivered = !invalid && kept.len() > 0 && !fired && pre.has_tmp;
    &&& post.line_buf@ == Seq::<char>::empty()
    &&& post.device == pre.device
    &&& post.speed == pre.speed
    &&& post.timeout_ms == pre.timeout_ms
    &&& post.filters == pre.filters
    &&& post.is_tty == pre.is_tty
    &&& post.wait == pre.wait
    &&& post.write_data == pre.write_data
    &&& post.echo_data@ == (if pre.is_tty && pre.write_data@.len() > 0 {
        spec_trim(pre.write_data@)
    } else {
        pre.echo_data@
    })
    &&& post.wait_mode == (pre.wait_mode && !fired)
    &&& post.has_tmp == (if fired {
        pre.has_wait
    } else if delivered {
        false
    } else {
        pre.has_tmp
    })
    &&& post.has_wait == (if fired {
        false
    } else {
        pre.has_wait
    })
    &&& (invalid ==> acts == seq![UartAction::Recover])
    &&& (fired ==> acts.len() == 1 && acts[0] is WriteAfterMarker
        && acts[0]->WriteAfterMarker_0@ == pre.write_data@)
    &&& (delivered ==> acts.len() == 1 && acts[0] is Deliver && acts[0]->Deliver_0@ == joined)
    &&& (!invalid && !fired && !delivered ==> acts.len() == 0)
}

impl UartServer {
    /// Flush the line buffer through the filter and act on what survives.
    fn flush(&mut self) -> (acts: Vec<UartAction>)
        ensures
            flush_post(*old(self), *final (self), acts@, old(self).line_buf@),
    {
        let ghost pre = *self;
        let mut v: Vec<&str> = Vec::new();
        let mut k: usize = 0;
        while k < self.filters.len()
            invariant
                0 <= k <= self.filters@.len(),
                *self == pre,
                str_views(v@) == pre.filters@.map_values(|f: String| f@).take(k as int),
            decreases self.filters@.len() - k,
        {
            let ghost vpre = v@;
            v.push(self.filters[k].as_str());
            proof {
                let mv = pre.filters@.map_values(|f: String| f@);
                assert(str_views(vpre).len() == vpre.len());
                assert(vpre.len() == k);
                assert(mv[k as int] == pre.filters@[k as int]@);
                assert(v@[k as int]@ == pre.filters@[k as int]@);
                assert(str_views(v@) =~= str_views(vpre).push(v@[k as int]@));
                assert(mv.take(k + 1) =~= mv.take(k as int).push(mv[k as int]));
                assert(str_views(v@) =~= mv.take(k + 1));
            }
            k = k + 1;
        }
        proof {
            assert(pre.filters@.map_values(|f: String| f@).take(pre.filters@.len() as int)
                =~= pre.filters@.map_values(|f: String| f@));
        }
        let echo: String = if self.is_tty && self.write_data.as_str().unicode_len() > 0 {
            trim(self.write_data.as_str()).to_owned()
        } else {
            String::new()
        };
        let use_echo = self.is_tty && self.write_data.as_str().unicode_len() > 0;
        if use_echo {
            self.echo_data = echo.clone();
        }
        let echo_armed = use_echo && echo.as_str().unicode_len() > 0;
        if echo_armed {
            v.push(echo.as_str());
            proof {
                assert(str_views(v@) =~= pre.filters@.map_values(|f: String| f@).push(
                    spec_trim(pre.write_data@),
                ));
            }
        }
        proof {
            assert(str_views(v@) == pre.active_filters());
        }
        let res = Self::filter_lines(&v, self.line_buf.as_str());
        let mut acts: Vec<UartAction> = Vec::new();
        match res {
            Err(_) => {
                self.line_buf = String::new();
                acts.push(UartAction::Recover);
                proof {
                    assert(acts@ =~= seq![UartAction::Recover]);
                }
            },
            Ok(None) => {
                self.line_buf = String::new();
            },
            Ok(Some(s)) => {
                if self.wait_mode && str_contains(s.as_str(), self.wait.as_str()) {
                    acts.push(UartAction::WriteAfterMarker(self.write_data.clone()));
                    self.has_tmp = self.has_wait;
                    self.has_wait = false;
                    self.wait_mode = false;
                } else if self.has_tmp {
                    acts.push(UartAction::Deliver(s));
                    self.has_tmp = false;
                }
                self.line_buf = String::new();
            },
        }
        acts
    }

    /// Take one queued command: an immediate command is written at once and
    /// its reply destination becomes the pending one; a wait command only
    /// arms the marker watch.
    pub fn on_command(&mut self, cmd: UartCmd) -> (acts: Vec<UartAction>)
        ensures
            final (self).device == old(self).device,
            final (self).speed == old(self).speed,
            final (self).timeout_ms == old(self).timeout_ms,
            final (self).filters == old(self).filters,
            final (self).is_tty == old(self).is_tty,
            final (self).line_buf == old(self).line_buf,
            final (self).echo_data == old(self).echo_data,
            cmd matches UartCmd::NoWait(d) ==> {
                &&& final (self).write_data@ == d@
                &&& final (self).has_tmp
                &&& !final (self).wait_mode
                &&& final (self).has_wait == old(self).has_wait
                &&& final (self).wait == old(self).wait
                &&& acts@.len() == 1 && acts@[0] is WriteCommand && acts@[0]->WriteCommand_0@
                    == d@
            },
            cmd matches UartCmd::Wait(w, d) ==> {
                &&& final (self).write_data@ == d@
                &&& final (self).wait@ == w@
                &&& final (self).wait_mode
                &&& final (self).has_wait
                &&& final (self).has_tmp == old(self).has_tmp
                &&& acts@.len() == 0
            },
    {
        let mut acts: Vec<UartAction> = Vec::new();
        match cmd {
            UartCmd::NoWait(data) => {
                self.write_data = data.clone();
                self.has_tmp = true;
                self.wait_mode = false;
                acts.push(UartAction::WriteCommand(data));
            },
            UartCmd::Wait(wait, data) => {
                self.wait_mode = true;
                self.wait = wait;
                self.write_data = data;
                self.has_wait = true;
            },
        }
        acts
    }

    /// Append one chunk of device output; a buffer past the size ceiling is
    /// flushed at once.
    pub fn on_read(&mut self, data: &str) -> (acts: Vec<UartAction>)
        ensures
            old(self).line_buf@.len() + data@.len() <= 1048576 ==> {
                &&& *final (self) == (UartServer {
                    line_buf: final (self).line_buf,
                    ..*old(self)
                })
                &&& final (self).line_buf@ == old(self).line_buf@ + data@
                &&& acts@.len() == 0
            },
            old(self).line_buf@.len() + data@.len() > 1048576 ==> flush_post(
                *old(self),
                *final (self),
                acts@,
                old(self).line_buf@ + data@,
            ),
    {
        self.line_buf.append(data);
        if self.line_buf.as_str().unicode_len() > 1048576 {
            self.flush()
        } else {
            Vec::new()
        }
    }

    /// The idle timer fired: flush the buffer if anything is in it.
    pub fn on_idle(&mut self) -> (acts: Vec<UartAction>)
        ensures
            old(self).line_buf@.len() == 0 ==> *final (self) == *old(self) && acts@.len() == 0,
            old(self).line_buf@.len() > 0 ==> flush_post(
                *old(self),
                *final (self),
                acts@,
                old(self).line_buf@,
            ),
    {
        if self.line_buf.as_str().unicode_len() > 0 {
            self.flush()
        } else {
            Vec::new()
        }
    }
}

/// Law: whatever the flush filter lets through is made only of trimmed
/// input lines that were nonempty and that no filter prefixed; a line that
/// matches a filter prefix never reaches a caller.
pub proof fn lemma_no_filtered_line_delivered(buf: Seq<char>, fs: Seq<Seq<char>>, j: int)
    requires
        0 <= j < kept_lines(buf, fs).len(),
    ensures
        exists|i: int|
            0 <= i < spec_lines(buf).len() && (#[trigger] spec_lines(buf)[i]).len() > 0
                && !line_hits_filter(spec_lines(buf)[i], fs) && kept_lines(buf, fs)[j]
                == spec_trim(spec_lines(buf)[i]),
{
    let lines = spec_lines(buf);
    let pred = |l: Seq<char>| line_kept(l, fs);
    let filtered = lines.filter(pred);
    lines.lemma_filter_pred(pred, j);
    lemma_filter_members(lines, pred, j);
    let i = choose|i: int| 0 <= i < lines.len() && #[trigger] lines[i] == filtered[j];
    assert(kept_lines(buf, fs)[j] == spec_trim(filtered[j]));
    assert(lines[i].len() > 0 && !line_hits_filter(lines[i], fs));
    assert(kept_lines(buf, fs)[j] == spec_trim(lines[i]));
}

/// What one attempt of a serial command produced: a reply, a closed reply
/// channel, or nothing within the timeout.
pub enum CmdOutcome {
    Reply(String),
    ChannelError,
    TimedOut,
}

/// What the caller must do next: stop with this result, or sleep this many
/// seconds and submit the command again.
pub enum CmdStep {
    Done(Result<String, StationError>),
    RetryAfterSleep(u64),
}

/// The retry policy of one serial command call: up to three attempts, each
/// waiting the caller's timeout, with backoff sleeps of one then two
/// seconds between them. `elapsed_secs` counts the full waits and sleeps.
pub struct CmdCall {
    pub timeout_secs: u64,
    pub attempt: u8,
    pub elapsed_secs: u64,
    pub finished: bool,
}

/// The greatest per-attempt timeout the accounting accepts: with it, the
/// three full waits plus the one- and two-second backoff sleeps come to
/// exactly the largest sixty-four-bit second count, so the elapsed counter
/// can never overflow.
pub open spec fn cmd_timeout_max() -> int {
    6148914691236517203
}

/// The call state an attempt may be made in: the accounted time never
/// outgrows the attempts made.
pub open spec fn cmd_wf(c: CmdCall) -> bool {
    &&& c.timeout_secs <= cmd_timeout_max()
    &&& c.attempt <= 2
    &&& (!c.finished ==> c.elapsed_secs <= c.attempt * (c.timeout_secs + 3))
    &&& (c.finished ==> c.elapsed_secs <= 3 * (c.timeout_secs + 3))
}

/// The call state after one more attempt timed out.
pub open spec fn spec_cmd_timeout(c: CmdCall) -> CmdCall {
    if c.attempt < 2 {
        CmdCall {
            timeout_secs: c.timeout_secs,
            attempt: (c.attempt + 1) as u8,
            elapsed_secs: (c.elapsed_secs + c.timeout_secs + c.attempt + 1) as u64,
            finished: false,
        }
    } else {
        CmdCall {
            timeout_secs: c.timeout_secs,
            attempt: c.attempt,
            elapsed_secs: (c.elapsed_secs + c.timeout_secs) as u64,
            finished: true,
        }
    }
}

/// A fresh call state.
pub open spec fn spec_cmd_new(timeout_secs: u64) -> CmdCall {
    CmdCall { timeout_secs, attempt: 0, elapsed_secs: 0, finished: false }
}

impl CmdCall {
    /// Begin a command call with the caller's per-attempt timeout. The
    /// timeout is bounded only so that three waits and both backoff sleeps
    /// fit the sixty-four-bit elapsed counter; every realistic timeout is
    /// far below the bound.
    pub fn new(timeout_secs: u64) -> (r: Self)
        requires
            timeout_secs <= cmd_timeout_max(),
        ensures
            r == spec_cmd_new(timeout_secs),
            cmd_wf(r),
    {
        CmdCall { timeout_secs, attempt: 0, elapsed_secs: 0, finished: false }
    }

    /// Account one attempt: a reply ends the call with it; a closed channel
    /// ends it with an unrecoverable device error; a timeout retries after
    /// a backoff of one more second each time, and the third one ends the
    /// call with a command timeout.
    pub fn on_outcome(&mut self, outcome: CmdOutcome) -> (r: CmdStep)
        requires
            cmd_wf(*old(self)),
            !old(self).finished,
        ensures
            cmd_wf(*final (self)),
            outcome matches CmdOutcome::Reply(s) ==> {
                &&& final (self).finished
                &&& final (self).elapsed_secs == old(self).elapsed_secs
                &&& r matches CmdStep::Done(d) && d matches Ok(v) && v@ == s@
            },
            outcome is ChannelError ==> {
                &&& final (self).finished
                &&& r == CmdStep::Done(Err::<String, StationError>(StationError::FatalIo))
            },
            outcome is TimedOut ==> {
                &&& *final (self) == spec_cmd_timeout(*old(self))
                &&& (old(self).attempt < 2 ==> r == CmdStep::RetryAfterSleep(
                    (old(self).attempt + 1) as u64,
                ) && !final (self).finished)
                &&& (old(self).attempt == 2 ==> r == CmdStep::Done(
                    Err::<String, StationError>(StationError::CommandTimeout),
                ) && final (self).finished)
            },
    {
        proof {
            let a = self.attempt as int;
            let t = self.timeout_secs as int;
            let e = self.elapsed_secs as int;
            assert(e <= 2 * (t + 3)) by (nonlinear_arith)
                requires
                    e <= a * (t + 3),
                    0 <= a <= 2,
                    t >= 0,
            ;
            assert(a <= 1 ==> e <= t + 3) by (nonlinear_arith)
                requires
                    e <= a * (t + 3),
                    0 <= a,
                    t >= 0,
            ;
        }
        match outcome {
            CmdOutcome::Reply(s) => {
                self.finished = true;
                CmdStep::Done(Ok(s))
            },
            CmdOutcome::ChannelError => {
                self.finished = true;
                CmdStep::Done(Err(StationError::FatalIo))
            },
            CmdOutcome::TimedOut => {
                proof {
                    let a = self.attempt as int;
                    let t = self.timeout_secs as int;
                    assert((a + 1) * (t + 3) == a * (t + 3) + (t + 3)) by (nonlinear_arith);
                }
                self.elapsed_secs = self.elapsed_secs + self.timeout_secs;
                if self.attempt < 2 {
                    let sleep = self.attempt as u64 + 1;
                    self.elapsed_secs = self.elapsed_secs + sleep;
                    self.attempt = self.attempt + 1;
                    CmdStep::RetryAfterSleep(sleep)
                } else {
                    self.finished = true;
                    CmdStep::Done(Err(StationError::CommandTimeout))
                }
            },
        }
    }
}

/// Law: against a device that never answers, a command call makes exactly
/// three attempts and fails with a command timeout, and the time it
/// accounts is the three full waits plus the one- and two-second backoff
/// sleeps: at least the timeout plus three seconds.
pub proof fn lemma_cmd_never_responds(d: u64)
    requires
        d <= cmd_timeout_max(),
    ensures
        ({
            let c3 = spec_cmd_timeout(spec_cmd_timeout(spec_cmd_timeout(spec_cmd_new(d))));
            &&& c3.finished
            &&& c3.elapsed_secs == 3 * d + 3
            &&& c3.elapsed_secs >= d + 1 + 2
        }),
{
}

} // verus!
