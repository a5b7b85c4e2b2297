//! Fixed-capacity text buffers from `heapless`, whose capacity counts UTF-8
//! bytes: one display line, and one message on its way to the display.
use vstd::prelude::*;
use vstd::utf8::encode_utf8;

verus! {

/// Capacity, in UTF-8 bytes, of one display line.
pub const LINE_CAPACITY: usize = 12;

/// Capacity, in UTF-8 bytes, of one message sent to the display.
pub const MESSAGE_CAPACITY: usize = 64;

#[verifier::external_type_specification]
#[verifier::external_body]
pub struct ExHeaplessString<const N: usize>(heapless::String<N>);

/// The characters that a display line holds.
pub uninterp spec fn line_chars(line: heapless::String<12>) -> Seq<char>;

/// The characters that a message for the display holds.
pub uninterp spec fn message_chars(message: heapless::String<64>) -> Seq<char>;

/// `heapless::String::<12>::new`: an empty line.
#[verifier::external_body]
pub(crate) fn new_line() -> (line: heapless::String<12>)
    ensures
        line_chars(line) == Seq::<char>::empty(),
{
    heapless::String::new()
}

/// `heapless::String::<12>::push`: appends `c` where the line's UTF-8 bytes
/// with it still fit in the capacity, and reports whether it did; else the
/// line stays as it was.
#[verifier::external_body]
pub(crate) fn line_push(line: &mut heapless::String<12>, c: char) -> (pushed: bool)
    ensures
        pushed == (encode_utf8(line_chars(*old(line)).push(c)).len() <= LINE_CAPACITY),
        pushed ==> line_chars(*final(line)) == line_chars(*old(line)).push(c),
        !pushed ==> line_chars(*final(line)) == line_chars(*old(line)),
{
    line.push(c).is_ok()
}

/// `str::is_empty` on a line, through `heapless::String`'s `Deref` to `str`.
#[verifier::external_body]
pub(crate) fn line_is_empty(line: &heapless::String<12>) -> (empty: bool)
    ensures
        empty == (line_chars(*line).len() == 0),
{
    line.is_empty()
}

/// `heapless::String::<64>::new`: an empty message.
#[verifier::external_body]
pub(crate) fn new_message() -> (message: heapless::String<64>)
    ensures
        message_chars(message) == Seq::<char>::empty(),
{
    heapless::String::new()
}

/// `heapless::String::<64>::push_str`: appends `s` where the message's UTF-8
/// bytes with it still fit in the capacity, and reports whether it did; else
/// the message stays as it was.
#[verifier::external_body]
pub(crate) fn message_push_str(message: &mut heapless::String<64>, s: &str) -> (pushed: bool)
    ensures
        pushed == (encode_utf8(message_chars(*old(message)) + s@).len() <= MESSAGE_CAPACITY),
        pushed ==> message_chars(*final(message)) == message_chars(*old(message)) + s@,
        !pushed ==> message_chars(*final(message)) == message_chars(*old(message)),
{
    message.push_str(s).is_ok()
}

} // verus!
