//! what can go wrong on the way out
//!
//! All of these hand the [`Message`] back rather than dropping it, so a caller can retry or salvage
//! its contents instead of rebuilding it.

use crate::message::Message;
use crate::wire::MAX_MESSAGE_SIZE;
use vstd::prelude::*;
use vstd::std_specs::convert::FromSpec;

verus! {

/// a send that waits for room could not deliver the message
pub enum SendError {
    /// the payload exceeds [`MAX_MESSAGE_SIZE`]
    ///
    /// Refused before anything leaves the process. Large payloads belong behind a descriptor.
    TooLarge(Message),
    /// the peer is gone
    Closed(Message),
}

/// a send that does not wait could not take the message right now
pub enum TrySendError {
    /// the socket buffer and the outbound queue are both full
    ///
    /// The peer is alive and simply behind.
    Full(Message),
    /// the payload exceeds [`MAX_MESSAGE_SIZE`]; see [`SendError::TooLarge`]
    TooLarge(Message),
    /// the peer is gone
    Closed(Message),
}

/// the kind of I/O error that a failed send amounts to
#[derive(Clone, Copy, Debug, PartialEq, Eq, Structural)]
pub enum IoErrorKind {
    InvalidInput,
    BrokenPipe,
}

/// the decimal digits of `n`, the most significant first
pub open spec fn decimal_digits(n: nat) -> Seq<char>
    decreases n,
{
    if n < 10 {
        seq![digit_char(n)]
    } else {
        decimal_digits(n / 10).push(digit_char(n % 10))
    }
}

/// the character of one decimal digit
pub open spec fn digit_char(d: nat) -> char {
    ('0' as int + d) as char
}

/// the sentence that a payload of `len` bytes is refused with
pub open spec fn too_large_text(len: nat) -> Seq<char> {
    "payload is "@ + decimal_digits(len) + " B, over the "@ + decimal_digits(MAX_MESSAGE_SIZE as nat)
        + " B limit"@
}

fn digit_str(d: usize) -> (text: &'static str)
    requires
        d < 10,
    ensures
        text@ == seq![digit_char(d as nat)],
{
    proof {
        reveal_strlit("0");
        reveal_strlit("1");
        reveal_strlit("2");
        reveal_strlit("3");
        reveal_strlit("4");
        reveal_strlit("5");
        reveal_strlit("6");
        reveal_strlit("7");
        reveal_strlit("8");
        reveal_strlit("9");
    }
    match d {
        0 => "0",
        1 => "1",
        2 => "2",
        3 => "3",
        4 => "4",
        5 => "5",
        6 => "6",
        7 => "7",
        8 => "8",
        _ => "9",
    }
}

fn decimal(n: usize) -> (text: String)
    ensures
        text@ == decimal_digits(n as nat),
    decreases n,
{
    let mut text = if n < 10 {
        String::new()
    } else {
        decimal(n / 10)
    };
    text.append(digit_str(n % 10));
    text
}

fn too_large(len: usize) -> (text: String)
    ensures
        text@ == too_large_text(len as nat),
{
    let mut text = String::from_str("payload is ");
    text.append(decimal(len).as_str());
    text.append(" B, over the ");
    text.append(decimal(MAX_MESSAGE_SIZE).as_str());
    text.append(" B limit");
    text
}

/// why a message was not delivered, without the message
#[derive(Clone, Copy, Debug, PartialEq, Eq, Structural)]
pub enum Reason {
    /// the socket buffer and the outbound queue are both full
    Full,
    /// the payload, of this many bytes, exceeds [`MAX_MESSAGE_SIZE`]
    TooLarge(usize),
    /// the peer is gone
    Closed,
}

impl Reason {
    /// its name
    pub open spec fn name_text(self) -> Seq<char> {
        match self {
            Reason::Full => "Full"@,
            Reason::TooLarge(_) => "TooLarge"@,
            Reason::Closed => "Closed"@,
        }
    }

    /// a sentence for a person to read
    pub open spec fn text(self) -> Seq<char> {
        match self {
            Reason::Full => "the outbound queue is full"@,
            Reason::TooLarge(len) => too_large_text(len as nat),
            Reason::Closed => "the peer is gone"@,
        }
    }

    /// its name, which says nothing about the message
    pub fn name(&self) -> (name: &'static str)
        ensures
            name@ == self.name_text(),
    {
        match self {
            Reason::Full => "Full",
            Reason::TooLarge(_) => "TooLarge",
            Reason::Closed => "Closed",
        }
    }

    /// a sentence for a person to read
    pub fn describe(&self) -> (text: String)
        ensures
            text@ == self.text(),
    {
        match self {
            Reason::Full => String::from_str("the outbound queue is full"),
            Reason::TooLarge(len) => too_large(*len),
            Reason::Closed => String::from_str("the peer is gone"),
        }
    }

    /// was this merely backpressure, rather than a dead peer or a rejected message?
    pub fn is_full(&self) -> (full: bool)
        ensures
            full == (*self is Full),
    {
        matches!(self, Reason::Full)
    }
}

impl SendError {
    /// the message that was not delivered
    pub open spec fn message(self) -> Message {
        match self {
            SendError::TooLarge(m) => m,
            SendError::Closed(m) => m,
        }
    }

    /// take back the message that was not delivered
    pub fn into_message(self) -> (message: Message)
        ensures
            message == self.message(),
    {
        match self {
            SendError::TooLarge(m) => m,
            SendError::Closed(m) => m,
        }
    }

    /// why it was not delivered
    pub fn reason(&self) -> (reason: Reason)
        ensures
            match *self {
                SendError::TooLarge(m) => reason matches Reason::TooLarge(len) && len
                    == m@.data.len(),
                SendError::Closed(_) => reason == Reason::Closed,
            },
    {
        match self {
            SendError::TooLarge(m) => Reason::TooLarge(m.data().len()),
            SendError::Closed(_) => Reason::Closed,
        }
    }

    /// the variant's name, which says nothing about the message
    pub fn name(&self) -> (name: &'static str)
        ensures
            name@ == (match *self {
                SendError::TooLarge(_) => "TooLarge"@,
                SendError::Closed(_) => "Closed"@,
            }),
    {
        self.reason().name()
    }

    /// a sentence for a person to read
    pub fn describe(&self) -> (text: String)
        ensures
            text@ == (match *self {
                SendError::TooLarge(m) => too_large_text(m@.data.len()),
                SendError::Closed(_) => "the peer is gone"@,
            }),
    {
        self.reason().describe()
    }

    /// the kind of I/O error this amounts to
    pub fn io_kind(&self) -> (kind: IoErrorKind)
        ensures
            kind == (match *self {
                SendError::TooLarge(_) => IoErrorKind::InvalidInput,
                SendError::Closed(_) => IoErrorKind::BrokenPipe,
            }),
    {
        match self {
            SendError::TooLarge(_) => IoErrorKind::InvalidInput,
            SendError::Closed(_) => IoErrorKind::BrokenPipe,
        }
    }
}

impl TrySendError {
    /// the message that was not delivered
    pub open spec fn message(self) -> Message {
        match self {
            TrySendError::Full(m) => m,
            TrySendError::TooLarge(m) => m,
            TrySendError::Closed(m) => m,
        }
    }

    /// take back the message that was not delivered
    pub fn into_message(self) -> (message: Message)
        ensures
            message == self.message(),
    {
        match self {
            TrySendError::Full(m) => m,
            TrySendError::TooLarge(m) => m,
            TrySendError::Closed(m) => m,
        }
    }

    /// was this merely backpressure, rather than a dead peer or a rejected message?
    pub fn is_full(&self) -> (full: bool)
        ensures
            full == (*self is Full),
    {
        self.reason().is_full()
    }

    /// why it was not delivered
    pub fn reason(&self) -> (reason: Reason)
        ensures
            match *self {
                TrySendError::Full(_) => reason == Reason::Full,
                TrySendError::TooLarge(m) => reason matches Reason::TooLarge(len) && len
                    == m@.data.len(),
                TrySendError::Closed(_) => reason == Reason::Closed,
            },
    {
        match self {
            TrySendError::Full(_) => Reason::Full,
            TrySendError::TooLarge(m) => Reason::TooLarge(m.data().len()),
            TrySendError::Closed(_) => Reason::Closed,
        }
    }

    /// the variant's name, which says nothing about the message
    pub fn name(&self) -> (name: &'static str)
        ensures
            name@ == (match *self {
                TrySendError::Full(_) => "Full"@,
                TrySendError::TooLarge(_) => "TooLarge"@,
                TrySendError::Closed(_) => "Closed"@,
            }),
    {
        self.reason().name()
    }

    /// a sentence for a person to read
    pub fn describe(&self) -> (text: String)
        ensures
            text@ == (match *self {
                TrySendError::Full(_) => "the outbound queue is full"@,
                TrySendError::TooLarge(m) => too_large_text(m@.data.len()),
                TrySendError::Closed(_) => "the peer is gone"@,
            }),
    {
        self.reason().describe()
    }
}

impl From<SendError> for TrySendError {
    fn from(e: SendError) -> (t: TrySendError) {
        match e {
            SendError::TooLarge(m) => TrySendError::TooLarge(m),
            SendError::Closed(m) => TrySendError::Closed(m),
        }
    }
}

impl vstd::std_specs::convert::FromSpecImpl<SendError> for TrySendError {
    open spec fn obeys_from_spec() -> bool {
        true
    }

    open spec fn from_spec(e: SendError) -> TrySendError {
        match e {
            SendError::TooLarge(m) => TrySendError::TooLarge(m),
            SendError::Closed(m) => TrySendError::Closed(m),
        }
    }
}

/// Widening a [`SendError`] keeps its message and never turns it into backpressure.
pub proof fn law_widening_keeps_the_message(e: SendError)
    ensures
        <TrySendError as FromSpec<SendError>>::from_spec(e).message() == e.message(),
        !(<TrySendError as FromSpec<SendError>>::from_spec(e) is Full),
{
}

/// the number that `digits` stand for
pub open spec fn number_of(digits: Seq<char>) -> int
    decreases digits.len(),
{
    if digits.len() == 0 {
        0
    } else {
        number_of(digits.drop_last()) * 10 + (digits.last() as int - '0' as int)
    }
}

/// The digits of a number are digits, read back as that number, and have no zero in front.
pub proof fn law_digits_read_back(n: nat)
    ensures
        number_of(decimal_digits(n)) == n,
        decimal_digits(n).len() > 0,
        forall|i: int|
            0 <= i < decimal_digits(n).len() ==> '0' as int <= #[trigger] decimal_digits(n)[i] as int
                <= '9' as int,
        n != 0 ==> decimal_digits(n)[0] != '0',
        n == 0 ==> decimal_digits(n).len() == 1,
    decreases n,
{
    let digits = decimal_digits(n);
    if n < 10 {
        assert(digits.drop_last() == Seq::<char>::empty());
        assert(number_of(digits.drop_last()) == 0);
    } else {
        law_digits_read_back(n / 10);
        assert(digits.drop_last() == decimal_digits(n / 10));
    }
}

/// An oversized payload is refused with its size and the limit.
pub proof fn law_text_names_the_size(len: nat)
    ensures
        too_large_text(len) == "payload is "@ + decimal_digits(len) + " B, over the "@
            + decimal_digits(8192) + " B limit"@,
{
}

/// Widening keeps the reason: too large stays too large, and gone stays gone.
pub proof fn law_widening_keeps_the_reason(m: Message)
    ensures
        <TrySendError as FromSpec<SendError>>::from_spec(SendError::TooLarge(m))
            == TrySendError::TooLarge(m),
        <TrySendError as FromSpec<SendError>>::from_spec(SendError::Closed(m))
            == TrySendError::Closed(m),
        SendError::TooLarge(m).message() == m,
        SendError::Closed(m).message() == m,
        TrySendError::Full(m).message() == m,
        TrySendError::TooLarge(m).message() == m,
        TrySendError::Closed(m).message() == m,
{
}

/// Each reason has its name and its sentence.
pub proof fn law_reasons_are_told_apart(len: usize)
    ensures
        Reason::Full.name_text() == "Full"@,
        Reason::TooLarge(len).name_text() == "TooLarge"@,
        Reason::Closed.name_text() == "Closed"@,
        Reason::Full.text() == "the outbound queue is full"@,
        Reason::TooLarge(len).text() == too_large_text(len as nat),
        Reason::Closed.text() == "the peer is gone"@,
{
}

} // verus!
