//! Commands, and how a request frame names one.

use vstd::prelude::*;
use crate::protocol::Frame;

verus! {

/// What `String::from_utf8_lossy` makes of a byte string.
pub uninterp spec fn lossy_utf8(bytes: Seq<u8>) -> Seq<char>;

/// What `str::to_uppercase` makes of a string.
pub uninterp spec fn uppercase(text: Seq<char>) -> Seq<char>;

/// Calls `String::from_utf8_lossy` and takes the result as an owned string.
/// Its contract claims that the result is `lossy_utf8` of the bytes and, as
/// the std documentation says, that valid UTF-8 comes back decoded unchanged;
/// what replaces invalid sequences is left unsaid.
#[verifier::external_body]
pub(crate) fn utf8_lossy(bytes: &[u8]) -> (res: String)
    ensures
        res@ == lossy_utf8(bytes@),
        vstd::utf8::valid_utf8(bytes@) ==> res@ == vstd::utf8::decode_utf8(bytes@),
{
    String::from_utf8_lossy(bytes).into_owned()
}

/// A text made of ASCII characters only.
pub open spec fn is_ascii_text(s: Seq<char>) -> bool {
    forall|i: int| 0 <= i < s.len() ==> (#[trigger] s[i] as u32) < 128
}

/// The ASCII upper case of a text: `a` to `z` become `A` to `Z`, and every
/// other character stays as it is.
pub open spec fn ascii_upper(s: Seq<char>) -> Seq<char> {
    s.map_values(|c: char| if 97 <= (c as u32) <= 122 { ((c as u32) - 32) as char } else { c })
}

/// Calls `str::to_uppercase`. Its contract claims that the result is
/// `uppercase` of the text and that, on ASCII text, it is the ASCII upper
/// case: the Unicode uppercase mapping that the std documentation names maps
/// `a` to `z` to `A` to `Z` and leaves every other ASCII character alone.
/// The mapping of other characters is left unsaid.
#[verifier::external_body]
pub(crate) fn to_upper(text: &str) -> (res: String)
    ensures
        res@ == uppercase(text@),
        is_ascii_text(text@) ==> res@ == ascii_upper(text@),
{
    text.to_uppercase()
}

/// A request to the store.
#[derive(Debug)]
pub enum Command {
    SetValue { key: String, value: Vec<u8> },
    Get { key: String },
}

/// The mathematical content of a command.
pub enum CommandView {
    SetValue { key: Seq<char>, value: Seq<u8> },
    Get { key: Seq<char> },
}

impl View for Command {
    type V = CommandView;

    open spec fn view(&self) -> CommandView {
        match self {
            Command::SetValue { key, value } => CommandView::SetValue { key: key@, value: value@ },
            Command::Get { key } => CommandView::Get { key: key@ },
        }
    }
}

/// The name a bulk string gives a command: its bytes decoded leniently and
/// upper-cased.
pub open spec fn command_name(bytes: Seq<u8>) -> Seq<char> {
    uppercase(lossy_utf8(bytes))
}

/// The key a bulk string gives.
pub open spec fn key_text(f: Frame) -> Seq<char> {
    match f {
        Frame::Bulk(b) => lossy_utf8(b@),
        _ => Seq::empty(),
    }
}

/// The command named `name` with the arguments `args`, or the message of
/// the error that refuses it; a missing argument is refused as an invalid
/// one. Arguments after those a command takes are ignored.
pub open spec fn dispatch_spec(name: Seq<char>, args: Seq<Frame>) -> Result<CommandView, Seq<char>> {
    if name == "SET"@ {
        if !(args.len() >= 1 && args[0] is Bulk) {
            Err("Invalid key"@)
        } else if !(args.len() >= 2 && args[1] is Bulk) {
            Err("Invalid value"@)
        } else {
            Ok(CommandView::SetValue { key: key_text(args[0]), value: args[1]->Bulk_0@ })
        }
    } else if name == "GET"@ {
        if !(args.len() >= 1 && args[0] is Bulk) {
            Err("Invalid key"@)
        } else {
            Ok(CommandView::Get { key: key_text(args[0]) })
        }
    } else {
        Err("Unknown command"@)
    }
}

/// The command a request frame gives, or the message that refuses it.
pub open spec fn from_frame_spec(frame: Frame) -> Result<CommandView, Seq<char>> {
    match frame {
        Frame::Array(items) => if items@.len() == 0 {
            Err("Empty command"@)
        } else {
            match items@[0] {
                Frame::Bulk(b) => dispatch_spec(command_name(b@), items@.drop_first()),
                _ => Err("Invalid command"@),
            }
        },
        _ => Err("Invalid frame"@),
    }
}

/// Law: a request's arguments are taken in order, and those after the ones
/// its command takes are ignored, whatever they are. A `SET` takes its key
/// from the argument right after the name and its value, byte for byte, from
/// the argument right after the key; a `GET` takes its key from the argument
/// right after the name.
pub proof fn law_arguments_in_order(
    items: Vec<Frame>,
    name: Vec<u8>,
    key: Vec<u8>,
    value: Vec<u8>,
    extra: Seq<Frame>,
)
    ensures
        dispatch_spec("SET"@, seq![Frame::Bulk(key), Frame::Bulk(value)] + extra) == Ok::<
            CommandView,
            Seq<char>,
        >(CommandView::SetValue { key: lossy_utf8(key@), value: value@ }),
        dispatch_spec("GET"@, seq![Frame::Bulk(key)] + extra) == Ok::<CommandView, Seq<char>>(
            CommandView::Get { key: lossy_utf8(key@) },
        ),
        items@ == seq![Frame::Bulk(name), Frame::Bulk(key), Frame::Bulk(value)] + extra
            && command_name(name@) == "SET"@ ==> from_frame_spec(Frame::Array(items)) == Ok::<
            CommandView,
            Seq<char>,
        >(CommandView::SetValue { key: lossy_utf8(key@), value: value@ }),
        items@ == seq![Frame::Bulk(name), Frame::Bulk(key)] + extra && command_name(name@)
            == "GET"@ ==> from_frame_spec(Frame::Array(items)) == Ok::<CommandView, Seq<char>>(
            CommandView::Get { key: lossy_utf8(key@) },
        ),
{
    reveal_strlit("SET");
    reveal_strlit("GET");
    assert("GET"@[0] != "SET"@[0]);
    assert("GET"@ != "SET"@);
    let set_args = seq![Frame::Bulk(key), Frame::Bulk(value)] + extra;
    assert(set_args[0] == Frame::Bulk(key) && set_args[1] == Frame::Bulk(value));
    let get_args = seq![Frame::Bulk(key)] + extra;
    assert(get_args[0] == Frame::Bulk(key));
    if items@ == seq![Frame::Bulk(name), Frame::Bulk(key), Frame::Bulk(value)] + extra {
        assert(items@.drop_first() =~= set_args);
    }
    if items@ == seq![Frame::Bulk(name), Frame::Bulk(key)] + extra {
        assert(items@.drop_first() =~= get_args);
    }
}

/// The message of an error as a result's view.
pub open spec fn result_view(res: Result<Command, String>) -> Result<CommandView, Seq<char>> {
    match res {
        Ok(c) => Ok(c@),
        Err(e) => Err(e@),
    }
}

fn message(text: &str) -> (res: String)
    ensures
        res@ == text@,
{
    String::from_str(text)
}

impl Command {
    /// Builds the command named `name` from its arguments.
    pub fn dispatch(name: String, args: Vec<Frame>) -> (res: Result<Command, String>)
        ensures
            result_view(res) == dispatch_spec(name@, args@),
    {
        let mut args = args;
        let set_name = message("SET");
        let get_name = message("GET");
        if name == set_name {
            if args.len() == 0 {
                return Err(message("Invalid key"));
            }
            let key = match args.remove(0) {
                Frame::Bulk(b) => utf8_lossy(b.as_slice()),
                _ => {
                    return Err(message("Invalid key"));
                },
            };
            if args.len() == 0 {
                return Err(message("Invalid value"));
            }
            let value = match args.remove(0) {
                Frame::Bulk(b) => b,
                _ => {
                    return Err(message("Invalid value"));
                },
            };
            Ok(Command::SetValue { key, value })
        } else if name == get_name {
            if args.len() == 0 {
                return Err(message("Invalid key"));
            }
            let key = match args.remove(0) {
                Frame::Bulk(b) => utf8_lossy(b.as_slice()),
                _ => {
                    return Err(message("Invalid key"));
                },
            };
            Ok(Command::Get { key })
        } else {
            Err(message("Unknown command"))
        }
    }

    /// Reads the command that a request frame gives: an array whose first
    /// element, a bulk string, names the command and whose next elements are
    /// its arguments.
    pub fn from_frame(frame: Frame) -> (res: Result<Command, String>)
        ensures
            result_view(res) == from_frame_spec(frame),
            frame matches Frame::Array(items) ==> (items@.len() > 0 && items@[0] is Bulk ==> {
                let b = items@[0]->Bulk_0@;
                &&& vstd::utf8::valid_utf8(b) ==> lossy_utf8(b) == vstd::utf8::decode_utf8(b)
                &&& is_ascii_text(lossy_utf8(b)) ==> command_name(b) == ascii_upper(lossy_utf8(b))
            }),
    {
        match frame {
            Frame::Array(items) => {
                let mut items = items;
                if items.len() == 0 {
                    return Err(message("Empty command"));
                }
                let name = match items.remove(0) {
                    Frame::Bulk(b) => to_upper(utf8_lossy(b.as_slice()).as_str()),
                    _ => {
                        return Err(message("Invalid command"));
                    },
                };
                Command::dispatch(name, items)
            },
            _ => Err(message("Invalid frame")),
        }
    }
}

} // verus!
