use vstd::prelude::*;
use vstd::utf8::{valid_utf8, decode_utf8};

verus! {

/// Carriage return: ends a line, and cancels a line that has not begun.
pub const CARRIAGE_RETURN: u8 = 0x0D;

/// Line feed: ends a line.
pub const LINE_FEED: u8 = 0x0A;

/// Backspace: erases the last byte of the line.
pub const BACKSPACE: u8 = 0x08;

/// Delete: erases the last byte of the line.
pub const DELETE: u8 = 0x7F;

pub open spec fn is_line_end(ch: u8) -> bool {
    ch == CARRIAGE_RETURN || ch == LINE_FEED
}

pub open spec fn is_erase(ch: u8) -> bool {
    ch == BACKSPACE || ch == DELETE
}

/// The line that results from typing `typed` after `start`: an erasing
/// byte takes the last byte off (if any), any other byte is appended.
pub open spec fn edited(start: Seq<u8>, typed: Seq<u8>) -> Seq<u8>
    decreases typed.len(),
{
    if typed.len() == 0 {
        start
    } else {
        let e = edited(start, typed.drop_last());
        if is_erase(typed.last()) {
            if e.len() > 0 {
                e.drop_last()
            } else {
                e
            }
        } else {
            e.push(typed.last())
        }
    }
}

/// `s` up to its first zero byte (all of `s` when it has none).
pub open spec fn until_nul(s: Seq<u8>) -> Seq<u8>
    decreases s.len(),
{
    if s.len() == 0 {
        s
    } else if s[0] == 0 {
        Seq::empty()
    } else {
        seq![s[0]] + until_nul(s.drop_first())
    }
}

/// What the reader asks for after a step.
#[derive(Clone, Copy, PartialEq, Eq, Structural, Debug)]
pub enum ReceiveStatus {
    /// Another byte is needed.
    NeedByte,
    /// No line will come: the reader gives up.
    Cancelled,
    /// The line has ended.
    Completed,
}

/// The bytes to echo back after a step, and what the reader asks for next.
pub struct ReceiveStep {
    pub echo: Vec<u8>,
    pub status: ReceiveStatus,
}

/// Reads a line from a serial port byte by byte into a fixed buffer,
/// echoing what it receives.
pub struct LineEditor {
    buffer: Vec<u8>,
    index: usize,
    completed: bool,
    first: Ghost<u8>,
    typed: Ghost<Seq<u8>>,
}

/// A line editor as a mathematical value.
pub struct LineEditorView {
    /// The buffer the line is written into.
    pub buffer: Seq<u8>,
    /// The number of bytes of the line in the buffer.
    pub index: nat,
    /// The line has ended.
    pub completed: bool,
    /// The first byte received.
    pub first: u8,
    /// The bytes received after the first one, not counting the one that
    /// ended the line.
    pub typed: Seq<u8>,
}

impl View for LineEditor {
    type V = LineEditorView;

    closed spec fn view(&self) -> LineEditorView {
        LineEditorView {
            buffer: self.buffer@,
            index: self.index as nat,
            completed: self.completed,
            first: self.first@,
            typed: self.typed@,
        }
    }
}

impl LineEditorView {
    /// The buffer starts with the line typed so far; a completed line is
    /// followed by a zero byte.
    pub open spec fn wf(self) -> bool {
        &&& self.index <= self.buffer.len()
        &&& self.buffer.take(self.index as int) == edited(seq![self.first], self.typed)
        &&& self.completed ==> self.index < self.buffer.len() && self.buffer[self.index as int] == 0
    }

    /// What the reader asks for in this state.
    pub open spec fn status(self) -> ReceiveStatus {
        if self.completed {
            ReceiveStatus::Completed
        } else if self.index >= self.buffer.len() {
            ReceiveStatus::Cancelled
        } else {
            ReceiveStatus::NeedByte
        }
    }

    /// The state after receiving `ch`, and the bytes echoed: a line end
    /// writes a zero byte after the line and echoes a carriage return and a
    /// line feed; an erasing byte takes the last byte off the line, writes a
    /// zero in its place and echoes itself (nothing happens on an empty
    /// line); any other byte is appended and echoed.
    pub open spec fn receive(self, ch: u8) -> (LineEditorView, Seq<u8>) {
        let i = self.index as int;
        if is_line_end(ch) {
            (LineEditorView { buffer: self.buffer.update(i, 0), completed: true, ..self }, seq![CARRIAGE_RETURN, LINE_FEED])
        } else if is_erase(ch) {
            if i > 0 {
                (
                    LineEditorView {
                        buffer: self.buffer.update(i - 1, 0),
                        index: (i - 1) as nat,
                        typed: self.typed.push(ch),
                        ..self
                    },
                    seq![ch],
                )
            } else {
                (LineEditorView { typed: self.typed.push(ch), ..self }, Seq::empty())
            }
        } else {
            (
                LineEditorView {
                    buffer: self.buffer.update(i, ch),
                    index: (i + 1) as nat,
                    typed: self.typed.push(ch),
                    ..self
                },
                seq![ch],
            )
        }
    }

    /// The text of a completed line: the buffer up to its first zero byte,
    /// decoded as UTF-8, when it is valid UTF-8.
    pub open spec fn line(self) -> Option<Seq<char>> {
        if valid_utf8(until_nul(self.buffer)) {
            Some(decode_utf8(until_nul(self.buffer)))
        } else {
            None
        }
    }
}

/// Calls `String::from_utf8`, which takes the bytes as a string when they
/// are valid UTF-8 and fails otherwise.
#[verifier::external_body]
fn utf8_string(bytes: Vec<u8>) -> (r: Option<String>)
    ensures
        match r {
            Some(s) => valid_utf8(bytes@) && s@ == decode_utf8(bytes@),
            None => !valid_utf8(bytes@),
        },
{
    String::from_utf8(bytes).ok()
}

impl LineEditor {
    /// Starts a line with the first byte received, into `buffer`. A
    /// carriage return cancels the line at once, with nothing echoed and
    /// the buffer untouched.
    /// Otherwise the byte is stored as it is at the start of the buffer and
    /// echoed after a prompt ("> ").
    pub fn start(buffer: Vec<u8>, first: u8) -> (r: (LineEditor, ReceiveStep))
        requires
            buffer@.len() > 0 || first == CARRIAGE_RETURN,
        ensures
            first == CARRIAGE_RETURN ==> {
                &&& r.1.status == ReceiveStatus::Cancelled
                &&& r.1.echo@ == Seq::<u8>::empty()
                &&& r.0@.buffer == buffer@
                &&& r.0@.index == 0
                &&& !r.0@.completed
            },
            first != CARRIAGE_RETURN ==> {
                &&& r.0@.wf()
                &&& r.0@ == (LineEditorView {
                    buffer: buffer@.update(0, first),
                    index: 1,
                    completed: false,
                    first,
                    typed: Seq::empty(),
                })
                &&& r.1.echo@ == seq![0x3Eu8, 0x20u8, first]
                &&& r.1.status == r.0@.status()
            },
    {
        let mut buffer = buffer;
        if first == CARRIAGE_RETURN {
            let editor = LineEditor { buffer, index: 0, completed: false, first: Ghost(first), typed: Ghost(Seq::empty()) };
            return (editor, ReceiveStep { echo: Vec::new(), status: ReceiveStatus::Cancelled });
        }
        buffer.set(0, first);
        let editor = LineEditor { buffer, index: 1, completed: false, first: Ghost(first), typed: Ghost(Seq::empty()) };
        let mut echo: Vec<u8> = Vec::new();
        echo.push(0x3E);
        echo.push(0x20);
        echo.push(first);
        let status = if editor.index >= editor.buffer.len() {
            ReceiveStatus::Cancelled
        } else {
            ReceiveStatus::NeedByte
        };
        proof {
            assert(editor@.buffer.take(1) =~= edited(seq![first], Seq::empty()));
            assert(echo@ =~= seq![0x3Eu8, 0x20u8, first]);
        }
        (editor, ReceiveStep { echo, status })
    }

    /// Takes in the next byte received; the line must be waiting for one.
    pub fn receive(&mut self, ch: u8) -> (r: ReceiveStep)
        requires
            old(self)@.wf(),
            old(self)@.status() == ReceiveStatus::NeedByte,
        ensures
            final(self)@.wf(),
            (final(self)@, r.echo@) == old(self)@.receive(ch),
            r.status == final(self)@.status(),
    {
        let ghost v0 = self@;
        assert(self.buffer.len() == self.buffer@.len());
        let mut echo: Vec<u8> = Vec::new();
        if ch == CARRIAGE_RETURN || ch == LINE_FEED {
            echo.push(CARRIAGE_RETURN);
            echo.push(LINE_FEED);
            self.buffer.set(self.index, 0);
            self.completed = true;
            proof {
                assert(self@.buffer.take(self.index as int) =~= v0.buffer.take(v0.index as int));
                assert(echo@ =~= seq![CARRIAGE_RETURN, LINE_FEED]);
            }
        } else if ch == BACKSPACE || ch == DELETE {
            if self.index > 0 {
                echo.push(ch);
                self.index = self.index - 1;
                self.buffer.set(self.index, 0);
            }
            self.typed = Ghost(self.typed@.push(ch));
            proof {
                let e = edited(seq![v0.first], v0.typed);
                assert(self@.typed.drop_last() =~= v0.typed);
                if v0.index > 0 {
                    assert(self@.buffer.take(self.index as int) =~= e.drop_last());
                    assert(echo@ =~= seq![ch]);
                } else {
                    assert(self@.buffer.take(self.index as int) =~= e);
                    assert(echo@ =~= Seq::<u8>::empty());
                }
            }
        } else {
            echo.push(ch);
            self.buffer.set(self.index, ch);
            self.index = self.index + 1;
            self.typed = Ghost(self.typed@.push(ch));
            proof {
                let e = edited(seq![v0.first], v0.typed);
                assert(self@.typed.drop_last() =~= v0.typed);
                assert(self@.buffer.take(self.index as int) =~= e.push(ch));
                assert(echo@ =~= seq![ch]);
            }
        }
        let status = if self.completed {
            ReceiveStatus::Completed
        } else if self.index >= self.buffer.len() {
            ReceiveStatus::Cancelled
        } else {
            ReceiveStatus::NeedByte
        };
        proof {
            assert(self@ =~= v0.receive(ch).0);
        }
        ReceiveStep { echo, status }
    }

    /// The text of the completed line: the buffer up to its first zero
    /// byte, when that is valid UTF-8.
    pub fn line(&self) -> (r: Option<String>)
        requires
            self@.wf(),
            self@.completed,
        ensures
            match r {
                Some(s) => self@.line() == Some(s@),
                None => self@.line() is None,
            },
    {
        let ghost b = self.buffer@;
        let mut bytes: Vec<u8> = Vec::new();
        let mut i: usize = 0;
        while i < self.buffer.len() && self.buffer[i] != 0
            invariant
                b == self.buffer@,
                i <= b.len(),
                forall|k: int| 0 <= k < i ==> b[k] != 0,
                bytes@ == b.take(i as int),
            decreases b.len() - i,
        {
            bytes.push(self.buffer[i]);
            i = i + 1;
            assert(bytes@ =~= b.take(i as int));
        }
        proof {
            lemma_until_nul(b, i as int);
        }
        utf8_string(bytes)
    }

    /// The buffer, for the caller to keep.
    pub fn into_buffer(self) -> (r: Vec<u8>)
        ensures
            r@ == self@.buffer,
    {
        self.buffer
    }
}

/// The part of `s` up to its first zero byte, found at `i`, is its first
/// `i` bytes (or all of `s` when no zero byte comes).
pub proof fn lemma_until_nul(s: Seq<u8>, i: int)
    requires
        0 <= i <= s.len(),
        forall|k: int| 0 <= k < i ==> s[k] != 0,
        i < s.len() ==> s[i] == 0,
    ensures
        until_nul(s) == s.take(i),
    decreases s.len(),
{
    if s.len() > 0 {
        if i == 0 {
            assert(s.take(0) =~= Seq::<u8>::empty());
        } else {
            let d = s.drop_first();
            assert forall|k: int| 0 <= k < i - 1 implies d[k] != 0 by {
                assert(s[k + 1] != 0);
            }
            lemma_until_nul(d, i - 1);
            assert(seq![s[0]] + d.take(i - 1) =~= s.take(i));
        }
    } else {
        assert(s.take(i) =~= s);
    }
}

} // verus!
