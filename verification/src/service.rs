//! Reading a service file, one `section.Key=value` entry at a time.
//!
//! A service file looks like
//!
//! ```text
//! [service]
//! Requires=network,dbus
//! Program='/usr/bin/daemon --flag'
//! ```
//!
//! Entries come out with the section name in front of the key
//! (`service.Requires`), commas outside quotes turned into `'` so that the
//! value splits into a list, quotes dropped, and blanks, tabs, carriage
//! returns and brackets outside quotes left out.
//!
//! Each byte read stands for the character of the same code (U+0000 to
//! U+00FF), and the text gathered holds the UTF-8 encoding of those
//! characters: a byte of 0x80 or more becomes two bytes. Keys and values
//! come out in that encoding.
//!
//! The reader is a state machine fed one read at a time: the caller reads a
//! byte from the file and hands over what the read gave (a byte, the end of
//! the file, or a failure), and [`service::entry`] says whether an entry is
//! complete.
use vstd::prelude::*;

use crate::text::{contains_byte, split_once, split_once_at};

verus! {

/// The byte that ends a file read early.
pub const NUL: u8 = 0;
/// Line feed: ends an entry, or a section header.
pub const NL: u8 = 10;
/// Tab, skipped outside quotes.
pub const TAB: u8 = 9;
/// Carriage return, skipped outside quotes.
pub const CR: u8 = 13;
/// Blank, skipped outside quotes.
pub const SPACE: u8 = 32;
/// `'`: opens and closes a quoted stretch; also the list separator.
pub const QUOTE: u8 = 39;
/// `,`: separates list items outside quotes.
pub const COMMA: u8 = 44;
/// `.`: joins a section name and a key.
pub const DOT: u8 = 46;
/// `=`: separates a key from its value.
pub const EQ: u8 = 61;
/// `[`: opens a section header.
pub const LBRACKET: u8 = 91;
/// `]`: closes a section header.
pub const RBRACKET: u8 = 93;

/// The bytes that are skipped where they stand outside quotes.
pub open spec fn is_wild(b: u8) -> bool {
    b == CR || b == TAB || b == SPACE || b == LBRACKET || b == RBRACKET
}

/// What a read of one byte from the file gave.
#[derive(Clone, Copy, Debug, PartialEq, Eq, Structural)]
pub enum Read {
    /// The byte that was read.
    Byte(u8),
    /// The end of the file: the read returned no byte.
    End,
    /// The read failed; the byte read last is used again.
    Failed,
}

/// The state of one search for an entry: the byte read last and whether the
/// reader is inside quotes. A new search starts from [`Scan::new`].
#[derive(Clone, Copy, Debug, PartialEq, Eq, Structural)]
pub struct Scan {
    pub last: u8,
    pub isquote: bool,
}

impl Scan {
    /// The state at the start of a search: no byte read (a NUL), not inside
    /// quotes.
    pub fn new() -> (s: Scan)
        ensures
            s == (Scan { last: NUL, isquote: false }),
    {
        Scan { last: NUL, isquote: false }
    }
}

/// The reader's state as a model: the text gathered so far, whether the
/// text after the section prefix is to be dropped before the next read, and
/// the length of the section prefix.
pub struct ReaderState {
    pub buffer: Seq<u8>,
    pub drain: bool,
    pub label: nat,
}

/// What one step of the search gives: read on, or the search is over with
/// an entry (key and value) or without one.
pub enum Step {
    More,
    Done(Option<(Vec<u8>, Vec<u8>)>),
}

/// The model of [`Step`].
pub enum StepView {
    More,
    Done(Option<(Seq<u8>, Seq<u8>)>),
}

impl View for Step {
    type V = StepView;

    open spec fn view(&self) -> StepView {
        match self {
            Step::More => StepView::More,
            Step::Done(None) => StepView::Done(None),
            Step::Done(Some((k, v))) => StepView::Done(Some((k@, v@))),
        }
    }
}

/// The value of an entry: one word, or a list of words (the value split at
/// `'`).
pub enum value {
    single(Vec<u8>),
    array(Vec<Vec<u8>>),
}

/// A service file being read.
pub struct service {
    fd: i32,
    buffer: Vec<u8>,
    drain: bool,
    label: usize,
}

impl View for service {
    type V = ReaderState;

    closed spec fn view(&self) -> ReaderState {
        ReaderState { buffer: self.buffer@, drain: self.drain, label: self.label as nat }
    }
}

/// The state of a file that has just been opened.
pub open spec fn fresh() -> ReaderState {
    ReaderState { buffer: Seq::<u8>::empty(), drain: false, label: 0 }
}

/// The UTF-8 encoding of the character whose code is `b` (U+0000 to
/// U+00FF): one byte below 0x80, two bytes from there on.
pub open spec fn utf8(b: u8) -> Seq<u8> {
    if b < 0x80 {
        seq![b]
    } else {
        seq![(0xC0 + b / 64) as u8, (0x80 + b % 64) as u8]
    }
}

/// The UTF-8 encoding of the characters whose codes are the bytes of `s`.
pub open spec fn encode(s: Seq<u8>) -> Seq<u8>
    decreases s.len(),
{
    if s.len() == 0 {
        Seq::empty()
    } else {
        utf8(s[0]) + encode(s.drop_first())
    }
}

/// A byte that continues a character in UTF-8 rather than starting one.
pub open spec fn is_continuation(b: u8) -> bool {
    0x80 <= b < 0xC0
}

/// Whether `i` is where a character of the UTF-8 text `buf` starts, or its
/// end.
pub open spec fn char_boundary(buf: Seq<u8>, i: int) -> bool {
    i == 0 || i == buf.len() || (0 <= i < buf.len() && !is_continuation(buf[i]))
}

/// Whether the pending drop of text after the prefix can be made: the
/// prefix must still fit in the text and end where a character ends.
pub open spec fn can_read(r: ReaderState) -> bool {
    r.drain ==> r.label <= r.buffer.len() && char_boundary(r.buffer, r.label as int)
}

/// The state once the text after the section prefix has been dropped, where
/// a drop is pending.
pub open spec fn drained(r: ReaderState) -> ReaderState {
    if r.drain {
        ReaderState { buffer: r.buffer.take(r.label as int), drain: false, label: r.label }
    } else {
        r
    }
}

/// A line feed that ends a line without `=`, or a `[`, outside quotes: the
/// text so far becomes the section prefix, ending in `.`; a `[` then starts
/// the name of a new section.
pub open spec fn close_section(r: ReaderState, b: u8) -> ReaderState {
    let r1 = if r.buffer.len() > 0 {
        let buf = if r.buffer.last() == DOT {
            r.buffer
        } else {
            r.buffer.push(DOT)
        };
        ReaderState { buffer: buf, drain: r.drain, label: buf.len() }
    } else {
        r
    };
    if b == LBRACKET {
        ReaderState { buffer: Seq::<u8>::empty(), drain: r1.drain, label: r1.label }
    } else {
        r1
    }
}

/// The text with one more character, encoded.
pub open spec fn pushed_char(r: ReaderState, b: u8) -> ReaderState {
    ReaderState { buffer: r.buffer + utf8(b), drain: r.drain, label: r.label }
}

/// The text with one more byte.
pub open spec fn pushed(r: ReaderState, b: u8) -> ReaderState {
    ReaderState { buffer: r.buffer.push(b), drain: r.drain, label: r.label }
}

/// One step of the search for an entry: the state of the reader and of the
/// search after a read, and whether the search is over.
pub open spec fn step(r: ReaderState, sc: Scan, read: Read) -> (ReaderState, Scan, StepView) {
    let r0 = drained(r);
    match read {
        Read::End => (
            ReaderState { buffer: r0.buffer, drain: true, label: 0 },
            sc,
            StepView::Done(split_once(r0.buffer, EQ)),
        ),
        _ => {
            let b = match read {
                Read::Byte(x) => x,
                _ => sc.last,
            };
            let sc1 = Scan { last: b, isquote: sc.isquote };
            let plain = !sc.isquote;
            if b == NUL {
                (r0, sc1, StepView::Done(None))
            } else if b == NL && plain && r0.buffer.contains(EQ) {
                (
                    ReaderState { buffer: r0.buffer, drain: true, label: r0.label },
                    sc1,
                    StepView::Done(split_once(r0.buffer, EQ)),
                )
            } else if (b == LBRACKET || b == NL) && plain && !r0.buffer.contains(EQ) {
                (close_section(r0, b), sc1, StepView::More)
            } else if b == QUOTE {
                (r0, Scan { last: b, isquote: !sc.isquote }, StepView::More)
            } else if b == COMMA && plain {
                (pushed(r0, QUOTE), sc1, StepView::More)
            } else if is_wild(b) && plain {
                (r0, sc1, StepView::More)
            } else {
                (pushed_char(r0, b), sc1, StepView::More)
            }
        },
    }
}

/// Whether `b` is skipped outside quotes.
pub fn is_wild_byte(b: u8) -> (r: bool)
    ensures
        r == is_wild(b),
{
    b == CR || b == TAB || b == SPACE || b == LBRACKET || b == RBRACKET
}

impl service {
    /// The file the bytes come from.
    pub closed spec fn descriptor(&self) -> i32 {
        self.fd
    }

    /// The file the bytes come from.
    pub fn fd(&self) -> (fd: i32)
        ensures
            fd == self.descriptor(),
    {
        self.fd
    }

    /// The reader for a file that `open(2)` opened, or the error that it
    /// reported.
    pub fn open(opened: Result<i32, &'static str>) -> (r: Result<service, &'static str>)
        ensures
            match opened {
                Ok(fd) => r is Ok && r->Ok_0.descriptor() == fd && r->Ok_0@ == fresh(),
                Err(e) => r == Err::<service, &'static str>(e),
            },
    {
        match opened {
            Ok(fd) => Ok(service { fd, buffer: Vec::new(), drain: false, label: 0 }),
            Err(e) => Err(e),
        }
    }

    /// Whether [`service::entry`] can take the next read: a pending drop of
    /// the text after the section prefix needs the prefix to fit in the
    /// text and to end where a character ends (either may fail after a `[`
    /// that was not closed by a line feed before an entry ended).
    pub fn can_read(&self) -> (r: bool)
        ensures
            r == can_read(self@),
    {
        !self.drain || (self.label <= self.buffer.len() && (self.label == 0 || self.label
            == self.buffer.len() || !(0x80 <= self.buffer[self.label] && self.buffer[self.label]
            < 0xC0)))
    }

    /// Takes what one read of the file gave and says whether the search for
    /// the next entry is over.
    pub fn entry(&mut self, scan: &mut Scan, read: Read) -> (st: Step)
        requires
            can_read(old(self)@),
        ensures
            (final(self)@, *final(scan), st@) == step(old(self)@, *old(scan), read),
            final(self).descriptor() == old(self).descriptor(),
    {
        if self.drain {
            self.buffer.truncate(self.label);
            self.drain = false;
        }
        let b = match read {
            Read::End => {
                let ret = split_once_at(self.buffer.as_slice(), EQ);
                self.label = 0;
                self.drain = true;
                return Step::Done(ret);
            },
            Read::Byte(x) => x,
            Read::Failed => scan.last,
        };
        let quoted = scan.isquote;
        scan.last = b;
        if b == NUL {
            return Step::Done(None);
        }
        let has_eq = contains_byte(self.buffer.as_slice(), EQ);
        if b == NL && !quoted && has_eq {
            let ret = split_once_at(self.buffer.as_slice(), EQ);
            self.drain = true;
            return Step::Done(ret);
        }
        if (b == LBRACKET || b == NL) && !quoted && !has_eq {
            if self.buffer.len() > 0 {
                if self.buffer[self.buffer.len() - 1] != DOT {
                    self.buffer.push(DOT);
                }
                self.label = self.buffer.len();
            }
            if b == LBRACKET {
                self.buffer.clear();
            }
            return Step::More;
        }
        if b == QUOTE {
            scan.isquote = !quoted;
            return Step::More;
        }
        if b == COMMA && !quoted {
            self.buffer.push(QUOTE);
            return Step::More;
        }
        if is_wild_byte(b) && !quoted {
            return Step::More;
        }
        let ghost before = self.buffer@;
        if b < 0x80 {
            self.buffer.push(b);
        } else {
            self.buffer.push(0xC0 + b / 64);
            self.buffer.push(0x80 + b % 64);
        }
        assert(self.buffer@ =~= before + utf8(b));
        Step::More
    }
}

} // verus!
