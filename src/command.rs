//! Commands carried by frames, and how the server answers them.
//!
//! A command is an array whose items are bulk (or simple) strings: the
//! command's name, matched without regard to ASCII case, then its
//! arguments. `GET key` and `SET key value` are known; anything else is
//! answered with an error frame and the connection goes on.

use vstd::prelude::*;
use vstd::slice::slice_to_vec;
use vstd::utf8::encode_utf8;
use crate::frame::{Frame, FrameModel};
use crate::store::Store;

verus! {

pub enum Command {
    Get { key: Vec<u8> },
    /// The `SET` command.
    Put { key: Vec<u8>, value: Vec<u8> },
    /// Not a known command; holds the name given, empty when there was none.
    Unknown(Vec<u8>),
}

pub ghost enum CommandModel {
    Get(Seq<u8>),
    Put(Seq<u8>, Seq<u8>),
    Unknown(Seq<u8>),
}

impl View for Command {
    type V = CommandModel;

    open spec fn view(&self) -> CommandModel {
        match self {
            Command::Get { key } => CommandModel::Get(key@),
            Command::Put { key, value } => CommandModel::Put(key@, value@),
            Command::Unknown(name) => CommandModel::Unknown(name@),
        }
    }
}

/// The bytes of a frame that can stand as a command word.
pub open spec fn arg_bytes(f: FrameModel) -> Option<Seq<u8>> {
    match f {
        FrameModel::Bulk(b) => Some(b),
        FrameModel::Simple(s) => Some(encode_utf8(s)),
        _ => None,
    }
}

pub open spec fn ascii_lower(b: u8) -> u8 {
    if 65 <= b <= 90 {
        (b + 32) as u8
    } else {
        b
    }
}

/// `word` is `name` (given in lower case) up to ASCII case.
pub open spec fn is_named(word: Seq<u8>, name: Seq<u8>) -> bool {
    word.len() == name.len() && forall|i: int| 0 <= i < word.len() ==> ascii_lower(#[trigger] word[i]) == name[i]
}

pub open spec fn get_name() -> Seq<u8> {
    seq![103u8, 101u8, 116u8]
}

pub open spec fn set_name() -> Seq<u8> {
    seq![115u8, 101u8, 116u8]
}

/// The command that the items of an array frame spell.
pub open spec fn interpret(args: Seq<FrameModel>) -> CommandModel {
    if args.len() == 0 || arg_bytes(args[0]) is None {
        CommandModel::Unknown(Seq::empty())
    } else {
        let name = arg_bytes(args[0])->Some_0;
        if is_named(name, get_name()) && args.len() == 2 && arg_bytes(args[1]) is Some {
            CommandModel::Get(arg_bytes(args[1])->Some_0)
        } else if is_named(name, set_name()) && args.len() == 3 && arg_bytes(args[1]) is Some
            && arg_bytes(args[2]) is Some {
            CommandModel::Put(arg_bytes(args[1])->Some_0, arg_bytes(args[2])->Some_0)
        } else {
            CommandModel::Unknown(name)
        }
    }
}

pub open spec fn is_space(b: u8) -> bool {
    b == 32u8
}

/// The words read so far from `b`, and the word still being read.
pub open spec fn scan_words(b: Seq<u8>) -> (Seq<Seq<u8>>, Seq<u8>)
    decreases b.len(),
{
    if b.len() == 0 {
        (Seq::empty(), Seq::empty())
    } else {
        let (ws, cur) = scan_words(b.drop_last());
        if is_space(b.last()) {
            if cur.len() > 0 {
                (ws.push(cur), Seq::empty())
            } else {
                (ws, cur)
            }
        } else {
            (ws, cur.push(b.last()))
        }
    }
}

/// The words of `b`: its maximal runs of bytes other than a space.
pub open spec fn words(b: Seq<u8>) -> Seq<Seq<u8>> {
    let (ws, cur) = scan_words(b);
    if cur.len() > 0 {
        ws.push(cur)
    } else {
        ws
    }
}

pub open spec fn as_bulks(ws: Seq<Seq<u8>>) -> Seq<FrameModel> {
    ws.map_values(|w: Seq<u8>| FrameModel::Bulk(w))
}

/// The command that a frame carries: an array of words, or a simple or
/// bulk string whose words (split at spaces) are the command.
pub open spec fn command_of(f: &Frame) -> CommandModel {
    match f {
        Frame::Array(items) => interpret(items@.map_values(|x: Frame| x@)),
        Frame::Simple(s) => interpret(as_bulks(words(encode_utf8(s@)))),
        Frame::Bulk(b) => interpret(as_bulks(words(b@))),
        _ => CommandModel::Unknown(Seq::empty()),
    }
}

/// The reply to a command, given the store's contents before it.
pub open spec fn reply_of(c: CommandModel, contents: Map<Seq<u8>, Seq<u8>>) -> FrameModel {
    match c {
        CommandModel::Put(_, _) => FrameModel::Simple("OK"@),
        CommandModel::Get(k) => if contents.contains_key(k) {
            FrameModel::Bulk(contents[k])
        } else {
            FrameModel::Null
        },
        CommandModel::Unknown(_) => FrameModel::Error("ERR unknown command"@),
    }
}

/// The store's contents after a command.
pub open spec fn after(c: CommandModel, contents: Map<Seq<u8>, Seq<u8>>) -> Map<Seq<u8>, Seq<u8>> {
    match c {
        CommandModel::Put(k, v) => contents.insert(k, v),
        _ => contents,
    }
}

/// The bytes of a frame that can stand as a command word.
fn arg(f: &Frame) -> (r: Option<Vec<u8>>)
    ensures
        match r {
            Some(v) => arg_bytes(f@) == Some(v@),
            None => arg_bytes(f@) is None,
        },
{
    match f {
        Frame::Bulk(b) => Some(slice_to_vec(b.as_slice())),
        Frame::Simple(s) => Some(slice_to_vec(s.as_str().as_bytes())),
        _ => None,
    }
}

fn lower(b: u8) -> (r: u8)
    ensures
        r == ascii_lower(b),
{
    if 65 <= b && b <= 90 {
        b + 32
    } else {
        b
    }
}

/// Whether a word is a three-letter name `a b c` (lower case) up to ASCII case.
fn named3(word: &[u8], a: u8, b: u8, c: u8) -> (r: bool)
    ensures
        r == is_named(word@, seq![a, b, c]),
{
    let r = word.len() == 3 && lower(word[0]) == a && lower(word[1]) == b && lower(word[2]) == c;
    proof {
        if word@.len() == 3 && !r {
            let n = seq![a, b, c];
            assert(ascii_lower(word@[0]) != n[0] || ascii_lower(word@[1]) != n[1] || ascii_lower(word@[2]) != n[2]);
        }
    }
    r
}

/// The words of `b`, each as a bulk frame.
fn split_words(b: &[u8]) -> (r: Vec<Frame>)
    ensures
        r@.map_values(|x: Frame| x@) == as_bulks(words(b@)),
{
    let mut out: Vec<Frame> = Vec::new();
    let mut cur: Vec<u8> = Vec::new();
    let mut i: usize = 0;
    while i < b.len()
        invariant
            i <= b@.len(),
            out@.map_values(|x: Frame| x@) == as_bulks(scan_words(b@.subrange(0, i as int)).0),
            cur@ == scan_words(b@.subrange(0, i as int)).1,
        decreases b.len() - i,
    {
        let c = b[i];
        let ghost pre = b@.subrange(0, i as int);
        let ghost old_out = out@;
        proof {
            assert(b@.subrange(0, i as int + 1).drop_last() =~= pre);
        }
        if c == 32u8 {
            if cur.len() > 0 {
                let ghost wv = cur@;
                let w = cur;
                cur = Vec::new();
                out.push(Frame::Bulk(w));
                assert(out@.map_values(|x: Frame| x@) =~= old_out.map_values(|x: Frame| x@).push(
                    FrameModel::Bulk(wv),
                ));
                assert(as_bulks(scan_words(pre).0.push(wv)) =~= as_bulks(scan_words(pre).0).push(
                    FrameModel::Bulk(wv),
                ));
            }
        } else {
            cur.push(c);
        }
        i = i + 1;
    }
    assert(b@.subrange(0, i as int) =~= b@);
    if cur.len() > 0 {
        let ghost ws = scan_words(b@).0;
        let ghost wv = cur@;
        let ghost old_out = out@;
        let w = cur;
        out.push(Frame::Bulk(w));
        assert(out@.map_values(|x: Frame| x@) =~= old_out.map_values(|x: Frame| x@).push(
            FrameModel::Bulk(wv),
        ));
        assert(as_bulks(ws.push(wv)) =~= as_bulks(ws).push(FrameModel::Bulk(wv)));
    }
    out
}

impl Command {
    /// Reads the command that a frame carries.
    pub fn from_frame(frame: &Frame) -> (r: Command)
        ensures
            r@ == command_of(frame),
    {
        match frame {
            Frame::Array(items) => Command::from_items(items),
            Frame::Simple(s) => {
                let items = split_words(s.as_str().as_bytes());
                Command::from_items(&items)
            },
            Frame::Bulk(b) => {
                let items = split_words(b.as_slice());
                Command::from_items(&items)
            },
            _ => Command::Unknown(Vec::new()),
        }
    }

    /// Reads the command that a list of words spells.
    fn from_items(items: &Vec<Frame>) -> (r: Command)
        ensures
            r@ == interpret(items@.map_values(|x: Frame| x@)),
    {
        let ghost args = items@.map_values(|x: Frame| x@);
        if items.len() == 0 {
            return Command::Unknown(Vec::new());
        }
        let name = match arg(&items[0]) {
            Some(n) => n,
            None => return Command::Unknown(Vec::new()),
        };
        assert(args[0] == items@[0]@);
        if named3(name.as_slice(), 103u8, 101u8, 116u8) && items.len() == 2 {
            assert(args[1] == items@[1]@);
            if let Some(key) = arg(&items[1]) {
                return Command::Get { key };
            }
        } else if named3(name.as_slice(), 115u8, 101u8, 116u8) && items.len() == 3 {
            assert(args[1] == items@[1]@);
            assert(args[2] == items@[2]@);
            if let Some(key) = arg(&items[1]) {
                if let Some(value) = arg(&items[2]) {
                    return Command::Put { key, value };
                }
            }
        }
        proof {
            assert(get_name() == seq![103u8, 101u8, 116u8]);
            assert(set_name() == seq![115u8, 101u8, 116u8]);
        }
        Command::Unknown(name)
    }
}

/// Carries out a command on the store and returns the reply to send.
pub fn apply(store: &mut Store, cmd: Command) -> (r: Frame)
    ensures
        r@ == reply_of(cmd@, old(store).contents()),
        final(store).contents() == after(cmd@, old(store).contents()),
{
    match cmd {
        Command::Get { key } => match store.get(key.as_slice()) {
            Some(v) => Frame::Bulk(v),
            None => Frame::Null,
        },
        Command::Put { key, value } => {
            store.set(key, value);
            Frame::Simple("OK".to_owned())
        },
        Command::Unknown(_) => Frame::Error("ERR unknown command".to_owned()),
    }
}

/// Answers the command that a frame carries.
pub fn respond(store: &mut Store, frame: &Frame) -> (r: Frame)
    ensures
        r@ == reply_of(command_of(frame), old(store).contents()),
        final(store).contents() == after(command_of(frame), old(store).contents()),
{
    let cmd = Command::from_frame(frame);
    apply(store, cmd)
}

} // verus!
