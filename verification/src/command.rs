//! The unit of work handed to a drone: one line of text for one datagram.
use crate::text::{chars_of, contains_char, is_payload_char};
use vstd::prelude::*;
use vstd::string::StringSliceAdditionalSpecFns;
use vstd::utf8::{encode_utf8, is_ascii_chars, is_ascii_chars_encode_utf8};

verus! {

/// The largest payload, in bytes, that one datagram carries.
pub const MAX_PAYLOAD: usize = 1472;

/// A command for a drone.
#[derive(Debug)]
pub struct SdkCommand {
    /// The text to transmit, free of framing characters.
    pub cmd: String,
    /// Whether a barrier has to wait for this command's acknowledgement.
    pub blocking: bool,
}

/// What a command is, as plain values.
pub struct CommandView {
    pub text: Seq<char>,
    pub blocking: bool,
}

impl View for SdkCommand {
    type V = CommandView;

    open spec fn view(&self) -> CommandView {
        CommandView { text: self.cmd@, blocking: self.blocking }
    }
}

/// A byte that may appear in a transmitted payload.
pub open spec fn is_payload_byte(b: u8) -> bool {
    (0x30 <= b && b <= 0x39) || (0x41 <= b && b <= 0x5a) || (0x61 <= b && b <= 0x7a) || b == 0x20
}

impl CommandView {
    /// The bytes that go on the wire for this command.
    pub open spec fn wire_bytes(self) -> Seq<u8> {
        encode_utf8(self.text)
    }

    /// The text holds letters, digits and spaces only.
    pub open spec fn is_normalised(self) -> bool {
        forall|i: int| 0 <= i < self.text.len() ==> is_payload_char(#[trigger] self.text[i])
    }

    /// The text is a single line that fits one datagram.
    pub open spec fn well_formed(self) -> bool {
        !self.text.contains('\n') && self.wire_bytes().len() <= MAX_PAYLOAD
    }
}

impl SdkCommand {
    /// A command with the given text.
    pub fn new(text: &str, blocking: bool) -> (c: SdkCommand)
        ensures
            c@ == (CommandView { text: text@, blocking }),
    {
        SdkCommand { cmd: text.to_owned(), blocking }
    }

    /// The bytes of the datagram that carries this command.
    pub fn payload(&self) -> (bytes: &[u8])
        ensures
            bytes@ == self@.wire_bytes(),
    {
        self.cmd.as_str().as_bytes()
    }

    /// Whether the command is a single line that fits one datagram.
    pub fn is_well_formed(&self) -> (r: bool)
        ensures
            r == self@.well_formed(),
    {
        let text = self.cmd.as_str();
        let chars = chars_of(text);
        !contains_char(chars.as_slice(), '\n') && text.as_bytes().len() <= MAX_PAYLOAD
    }
}

impl Clone for SdkCommand {
    fn clone(&self) -> (c: SdkCommand)
        ensures
            c@ == self@,
    {
        SdkCommand { cmd: self.cmd.clone(), blocking: self.blocking }
    }
}

/// A normalised command goes on the wire byte for character: one byte for
/// each character of its text, each a letter, a digit or a space, so it has
/// no line break and is as long as its text.
pub proof fn lemma_normalised_on_wire(c: CommandView)
    requires
        c.is_normalised(),
    ensures
        c.wire_bytes().len() == c.text.len(),
        forall|i: int| 0 <= i < c.text.len() ==> #[trigger] c.wire_bytes()[i] == c.text[i] as u8,
        forall|i: int|
            0 <= i < c.wire_bytes().len() ==> is_payload_byte(#[trigger] c.wire_bytes()[i]),
        !c.text.contains('\n'),
        !c.text.contains('>'),
        !c.text.contains('@'),
        !c.text.contains('#'),
{
    assert(is_ascii_chars(c.text)) by {
        assert forall|i: int| 0 <= i < c.text.len() implies '\0' <= #[trigger] c.text[i]
            <= '\u{7f}' by {
            assert(is_payload_char(c.text[i]));
        }
    }
    is_ascii_chars_encode_utf8(c.text);
    assert forall|i: int| 0 <= i < c.wire_bytes().len() implies is_payload_byte(
        #[trigger] c.wire_bytes()[i],
    ) by {
        assert(is_payload_char(c.text[i]));
        assert(c.wire_bytes()[i] == c.text[i] as u8);
    }
    assert forall|x: char| !is_payload_char(x) implies !c.text.contains(x) by {
        if c.text.contains(x) {
            let j = choose|j: int| 0 <= j < c.text.len() && c.text[j] == x;
            assert(is_payload_char(c.text[j]));
        }
    }
    assert(!is_payload_char('\n') && !is_payload_char('>') && !is_payload_char('@')
        && !is_payload_char('#'));
}

} // verus!
