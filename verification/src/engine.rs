//! Carrying out commands against the store, and the replies they give.

use vstd::prelude::*;
use crate::command::{Command, CommandView};
use crate::protocol::Frame;
use crate::store::{Store, expired_at, max_duration_nanos};

verus! {

/// What a command answers: a write is done, a read found the stored bytes,
/// or a read found nothing.
#[derive(Debug)]
pub enum Reply {
    Written,
    Found(Vec<u8>),
    Nil,
}

/// The mathematical content of a reply.
pub enum ReplyView {
    Written,
    Found(Seq<u8>),
    Nil,
}

impl View for Reply {
    type V = ReplyView;

    open spec fn view(&self) -> ReplyView {
        match self {
            Reply::Written => ReplyView::Written,
            Reply::Found(v) => ReplyView::Found(v@),
            Reply::Nil => ReplyView::Nil,
        }
    }
}

/// The reply to a read of `key` from `m` where the value found is still
/// live: the stored bytes, or nothing when the key is absent.
pub open spec fn read_reply(m: Map<Seq<char>, (Seq<u8>, Option<u128>)>, key: Seq<char>) -> ReplyView {
    if m.contains_key(key) {
        ReplyView::Found(m[key].0)
    } else {
        ReplyView::Nil
    }
}

/// The store after a write of `value` to `key`: the value, with no expiry.
pub open spec fn write_effect(
    m: Map<Seq<char>, (Seq<u8>, Option<u128>)>,
    key: Seq<char>,
    value: Seq<u8>,
) -> Map<Seq<char>, (Seq<u8>, Option<u128>)> {
    m.insert(key, (value, None))
}

/// Carries out `cmd` against the store. A write stores the value with no
/// expiry and answers `Written`; a read answers the stored bytes, or `Nil`
/// for an absent key. A value that carries an expiry is read against the
/// store's clock: if the reading is past the expiry the value is removed and
/// the read answers `Nil`.
pub fn execute(store: &mut Store, cmd: Command) -> (res: Reply)
    ensures
        match cmd@ {
            CommandView::SetValue { key, value } => final(store)@ == write_effect(
                old(store)@,
                key,
                value,
            ) && final(store)@ == old(store)@.insert(key, (value, None)) && res@
                == ReplyView::Written && final(store).latest_reading() == old(
                store,
            ).latest_reading(),
            CommandView::Get { key } => if !old(store)@.contains_key(key) || old(store)@[key].1 is None {
                final(store)@ == old(store)@ && res@ == read_reply(old(store)@, key)
                    && final(store).latest_reading() == old(store).latest_reading()
            } else {
                exists|now: int|
                    old(store).latest_reading() <= now <= max_duration_nanos()
                        && final(store).latest_reading() == now && {
                        ||| #[trigger] expired_at(old(store)@[key], now) && final(store)@ == old(
                            store,
                        )@.remove(key) && res@ == ReplyView::Nil
                        ||| !expired_at(old(store)@[key], now) && final(store)@ == old(store)@
                            && res@ == read_reply(old(store)@, key)
                    }
            },
        },
{
    match cmd {
        Command::SetValue { key, value } => {
            store.set(key, value, None);
            Reply::Written
        },
        Command::Get { key } => match store.get(key.as_str()) {
            Some(val) => Reply::Found(val),
            None => Reply::Nil,
        },
    }
}

/// The frame that answers a reply: a write answers the bulk string `OK`, a
/// read the bulk string of the stored bytes, and a read that found nothing
/// the null frame.
pub fn response_for(reply: Reply) -> (res: Frame)
    ensures
        reply@ is Nil ==> res is Null,
        reply@ is Written ==> (res matches Frame::Bulk(b) && b@ == seq![79u8, 75u8]),
        reply@ matches ReplyView::Found(v) ==> (res matches Frame::Bulk(b) && b@ == v),
{
    match reply {
        Reply::Written => {
            let mut ok: Vec<u8> = Vec::new();
            ok.push(79u8);
            ok.push(75u8);
            assert(ok@ =~= seq![79u8, 75u8]);
            Frame::Bulk(ok)
        },
        Reply::Found(v) => Frame::Bulk(v),
        Reply::Nil => Frame::Null,
    }
}

/// Law: a write changes only its own key. Away from the key written, the
/// store after the write holds exactly what it held before; at that key it
/// holds the value written, with no expiry. The same holds of the store's
/// contents as a map: writing a key never adds or removes another.
pub proof fn law_write_changes_only_its_key(
    m: Map<Seq<char>, (Seq<u8>, Option<u128>)>,
    key: Seq<char>,
    value: Seq<u8>,
    other: Seq<char>,
)
    requires
        other != key,
    ensures
        write_effect(m, key, value).contains_key(other) == m.contains_key(other),
        m.contains_key(other) ==> write_effect(m, key, value)[other] == m[other],
        write_effect(m, key, value).dom() == m.dom().insert(key),
        write_effect(m, key, value)[key] == (value, None::<u128>),
{
    assert(write_effect(m, key, value).dom() =~= m.dom().insert(key));
}

/// Law: a read answers the last value written to its key, whatever other
/// keys were written after it.
pub proof fn law_read_after_other_writes(
    m: Map<Seq<char>, (Seq<u8>, Option<u128>)>,
    key: Seq<char>,
    value: Seq<u8>,
    other: Seq<char>,
    other_value: Seq<u8>,
)
    requires
        other != key,
    ensures
        read_reply(write_effect(write_effect(m, key, value), other, other_value), key)
            == ReplyView::Found(value),
{
}

/// Law: a read through `execute` after a write through `execute` of the
/// same key answers the bytes written, whatever they are.
pub proof fn law_execute_read_after_write(
    m: Map<Seq<char>, (Seq<u8>, Option<u128>)>,
    key: Seq<char>,
    value: Seq<u8>,
)
    ensures
        write_effect(m, key, value).contains_key(key),
        write_effect(m, key, value)[key].1 is None,
        read_reply(write_effect(m, key, value), key) == ReplyView::Found(value),
{
}

} // verus!
