//! The append-only log: how a write is recorded, how a log is replayed into
//! the store, and the state that the log's writers share.

use vstd::prelude::*;
use crate::command::{Command, CommandView, lossy_utf8, utf8_lossy};
use crate::protocol::{
    all_digits, append_bulk, append_bytes, bulk_bytes, crlf, decimal, digits_value, lemma_decimal,
    lemma_digits_value_grows, lemma_piece_of_piece, frame_from, law_bulk_read_back,
    lemma_number_from_digits, bulks_from, is_digit,
};
use crate::store::{Store, Value, copy_bytes, expired_at};

verus! {

/// The bytes `"SET"`.
pub open spec fn set_word() -> Seq<u8> {
    seq![83u8, 69u8, 84u8]
}

/// The bytes `"SET"`.
fn set_word_bytes() -> (res: Vec<u8>)
    ensures
        res@ == set_word(),
{
    let mut word: Vec<u8> = Vec::new();
    word.push(83u8);
    word.push(69u8);
    word.push(84u8);
    assert(word@ =~= set_word());
    word
}

/// The record that logs setting `key` (as UTF-8 bytes) to `value`: a RESP
/// array of the three bulk strings `SET`, the key and the value.
pub open spec fn set_record(key: Seq<u8>, value: Seq<u8>) -> Seq<u8> {
    seq![42u8, 51u8] + crlf() + bulk_bytes(set_word()) + bulk_bytes(key) + bulk_bytes(value)
}

/// The record that logs a command, `None` for a command that changes nothing.
pub open spec fn command_record(cmd: CommandView) -> Option<Seq<u8>> {
    match cmd {
        CommandView::SetValue { key, value } => Some(
            set_record(vstd::utf8::encode_utf8(key), value),
        ),
        CommandView::Get { .. } => None,
    }
}

/// The record that logs `cmd`; reads are not logged.
pub fn serialize_command(cmd: &Command) -> (res: Option<Vec<u8>>)
    ensures
        match res {
            Some(bytes) => command_record(cmd@) == Some(bytes@),
            None => command_record(cmd@) is None,
        },
{
    match cmd {
        Command::SetValue { key, value } => {
            let mut buf: Vec<u8> = Vec::new();
            buf.push(42u8);
            buf.push(51u8);
            buf.push(13u8);
            buf.push(10u8);
            let word = set_word_bytes();
            append_bulk(&mut buf, word.as_slice());
            append_bulk(&mut buf, key.as_str().as_bytes());
            append_bulk(&mut buf, value.as_slice());
            proof {
                assert(buf@ =~= set_record(vstd::utf8::encode_utf8(key@), value@));
            }
            Some(buf)
        },
        Command::Get { .. } => None,
    }
}


/// The lower-case form of an ASCII letter; other bytes are kept.
pub open spec fn ascii_lower(b: u8) -> u8 {
    if 65u8 <= b <= 90u8 {
        (b + 32) as u8
    } else {
        b
    }
}

/// Two byte strings are equal when ASCII letters are compared without case.
pub open spec fn eq_ignore_ascii_case(a: Seq<u8>, b: Seq<u8>) -> bool {
    &&& a.len() == b.len()
    &&& forall|i: int| 0 <= i < a.len() ==> ascii_lower(#[trigger] a[i]) == ascii_lower(b[i])
}

/// Whether two byte strings are equal when ASCII letters are compared
/// without case.
pub fn bytes_eq_ignore_ascii_case(a: &[u8], b: &[u8]) -> (res: bool)
    ensures
        res == eq_ignore_ascii_case(a@, b@),
{
    if a.len() != b.len() {
        return false;
    }
    let mut k: usize = 0;
    while k < a.len()
        invariant
            a@.len() == b@.len(),
            k <= a@.len(),
            forall|i: int| 0 <= i < k ==> ascii_lower(#[trigger] a@[i]) == ascii_lower(b@[i]),
        decreases a@.len() - k,
    {
        let x = a[k];
        let y = b[k];
        let lx: u8 = if 65u8 <= x && x <= 90u8 { x + 32 } else { x };
        let ly: u8 = if 65u8 <= y && y <= 90u8 { y + 32 } else { y };
        if lx != ly {
            assert(ascii_lower(a@[k as int]) != ascii_lower(b@[k as int]));
            return false;
        }
        k = k + 1;
    }
    true
}

/// The digits of a length in the log, read from `pos` onto `acc` until a
/// carriage return or the end of the bytes: the length, where the digits
/// stop, and whether there was any digit. `None` when a byte that is not a
/// digit comes first or the length leaves `usize`.
pub open spec fn length_digits(s: Seq<u8>, pos: int, acc: int, saw: bool) -> Option<(int, int, bool)>
    decreases s.len() - pos,
{
    if pos < 0 || pos >= s.len() || s[pos] == 13u8 {
        Some((acc, pos, saw))
    } else if !is_digit(s[pos]) {
        None
    } else if acc * 10 + (s[pos] - 48) > usize::MAX {
        None
    } else {
        length_digits(s, pos + 1, acc * 10 + (s[pos] - 48), true)
    }
}

/// What the log reader makes of the bulk string at `pos`: where the payload
/// starts, its length and where the next field starts, or `None` where it
/// gives up on the bytes (among them a length whose payload would end past
/// `usize::MAX`).
pub open spec fn log_bulk(s: Seq<u8>, pos: int) -> Option<(int, int, int)> {
    if pos < 0 || pos >= s.len() || s[pos] != 36u8 {
        None
    } else {
        match length_digits(s, pos + 1, 0, false) {
            None => None,
            Some((len, p, saw)) => if !saw || p + 2 > s.len() || s[p] != 13u8 || s[p + 1] != 10u8 {
                None
            } else if p + 2 + len > usize::MAX {
                None
            } else if p + 2 + len + 2 > s.len() || s[p + 2 + len] != 13u8 || s[p + 3 + len]
                != 10u8 {
                None
            } else {
                Some((p + 2, len, p + 4 + len))
            },
        }
    }
}

/// The four bytes that open a record: `"*3\r\n"`.
pub open spec fn record_head() -> Seq<u8> {
    seq![42u8, 51u8, 13u8, 10u8]
}

/// What the log reader makes of the record at `pos`: the command bytes, the
/// key bytes, the value and where the next record starts, or `None` where it
/// gives up (the bytes are not a `SET` record of three bulk strings).
pub open spec fn log_record(s: Seq<u8>, pos: int) -> Option<(Seq<u8>, Seq<u8>, Seq<u8>, int)> {
    if pos < 0 || pos + 4 > s.len() || s.subrange(pos, pos + 4) != record_head() {
        None
    } else {
        match log_bulk(s, pos + 4) {
            None => None,
            Some((a1, l1, n1)) => match log_bulk(s, n1) {
                None => None,
                Some((a2, l2, n2)) => match log_bulk(s, n2) {
                    None => None,
                    Some((a3, l3, n3)) => if eq_ignore_ascii_case(
                        s.subrange(a1, a1 + l1),
                        set_word(),
                    ) {
                        Some(
                            (
                                s.subrange(a1, a1 + l1),
                                s.subrange(a2, a2 + l2),
                                s.subrange(a3, a3 + l3),
                                n3,
                            ),
                        )
                    } else {
                        None
                    },
                },
            },
        }
    }
}

/// The digits of a length stop no earlier than they start.
pub proof fn lemma_length_digits_forward(s: Seq<u8>, pos: int, acc: int, saw: bool)
    ensures
        length_digits(s, pos, acc, saw) matches Some((len, p, _)) ==> p >= pos && (acc >= 0 ==> len
            >= acc),
    decreases s.len() - pos,
{
    if !(pos < 0 || pos >= s.len() || s[pos] == 13u8) && is_digit(s[pos]) && !(acc * 10 + (s[pos]
        - 48) > usize::MAX) {
        lemma_length_digits_forward(s, pos + 1, acc * 10 + (s[pos] - 48), true);
    }
}

/// A bulk string the reader accepts ends after where it starts.
pub proof fn lemma_log_bulk_advances(s: Seq<u8>, pos: int)
    ensures
        log_bulk(s, pos) matches Some((a, l, next)) ==> pos < a && 0 <= l && a + l < next,
{
    lemma_length_digits_forward(s, pos + 1, 0, false);
}

/// A record the reader accepts ends after where it starts.
pub proof fn lemma_log_record_advances(s: Seq<u8>, pos: int)
    ensures
        log_record(s, pos) matches Some((_, _, _, next)) ==> next > pos,
{
    lemma_log_bulk_advances(s, pos + 4);
    if let Some((a1, l1, n1)) = log_bulk(s, pos + 4) {
        lemma_log_bulk_advances(s, n1);
        if let Some((a2, l2, n2)) = log_bulk(s, n1) {
            lemma_log_bulk_advances(s, n2);
        }
    }
}

/// The `SET` records the reader replays from `pos` on, as key bytes and
/// values, up to the first record it gives up on.
pub open spec fn log_records(s: Seq<u8>, pos: int) -> Seq<(Seq<u8>, Seq<u8>)>
    decreases s.len() - pos,
{
    if pos < 0 || pos >= s.len() {
        Seq::empty()
    } else {
        match log_record(s, pos) {
            None => Seq::empty(),
            Some((_, k, v, next)) => {
                proof {
                    lemma_log_record_advances(s, pos);
                }
                seq![(k, v)] + log_records(s, next)
            },
        }
    }
}

/// The store after replaying `recs` onto `m`: each record sets its key,
/// decoded leniently from its bytes, to its value, with no expiry.
pub open spec fn replay(
    m: Map<Seq<char>, (Seq<u8>, Option<u128>)>,
    recs: Seq<(Seq<u8>, Seq<u8>)>,
) -> Map<Seq<char>, (Seq<u8>, Option<u128>)>
    decreases recs.len(),
{
    if recs.len() == 0 {
        m
    } else {
        replay(m.insert(lossy_utf8(recs[0].0), (recs[0].1, None)), recs.drop_first())
    }
}

/// Every key in `recs` is valid UTF-8.
pub open spec fn keys_valid_utf8(recs: Seq<(Seq<u8>, Seq<u8>)>) -> bool {
    forall|i: int| 0 <= i < recs.len() ==> vstd::utf8::valid_utf8(#[trigger] recs[i].0)
}

/// As `replay`, with each key decoded as UTF-8: what the replay gives when
/// every key is valid UTF-8.
pub open spec fn replay_decoded(
    m: Map<Seq<char>, (Seq<u8>, Option<u128>)>,
    recs: Seq<(Seq<u8>, Seq<u8>)>,
) -> Map<Seq<char>, (Seq<u8>, Option<u128>)>
    decreases recs.len(),
{
    if recs.len() == 0 {
        m
    } else {
        replay_decoded(
            m.insert(vstd::utf8::decode_utf8(recs[0].0), (recs[0].1, None)),
            recs.drop_first(),
        )
    }
}

/// Reads the digits of a log length from `pos` (see `length_digits`).
fn scan_length_digits(data: &[u8], pos: usize) -> (res: Option<(usize, usize, bool)>)
    requires
        pos <= data@.len(),
    ensures
        match res {
            Some((len, p, saw)) => length_digits(data@, pos as int, 0, false) == Some(
                (len as int, p as int, saw),
            ) && pos <= p <= data@.len(),
            None => length_digits(data@, pos as int, 0, false) is None,
        },
{
    let mut len: usize = 0;
    let mut saw = false;
    let mut p: usize = pos;
    loop
        invariant
            pos <= p <= data@.len(),
            length_digits(data@, p as int, len as int, saw) == length_digits(
                data@,
                pos as int,
                0,
                false,
            ),
        decreases data@.len() - p,
    {
        if p >= data.len() || data[p] == 13u8 {
            return Some((len, p, saw));
        }
        let b = data[p];
        if b < 48u8 || b > 57u8 {
            return None;
        }
        let d: usize = (b - 48u8) as usize;
        if len > (usize::MAX - d) / 10 {
            return None;
        }
        len = len * 10 + d;
        saw = true;
        p = p + 1;
    }
}

/// What the log reader makes of the bulk string at `pos` (see `log_bulk`).
fn scan_log_bulk(data: &[u8], pos: usize) -> (res: Option<(usize, usize, usize)>)
    ensures
        match res {
            None => log_bulk(data@, pos as int) is None,
            Some((a, l, n)) => log_bulk(data@, pos as int) == Some((a as int, l as int, n as int))
                && n <= data@.len(),
        },
{
    if pos >= data.len() || data[pos] != 36u8 {
        return None;
    }
    let (len, p, saw) = match scan_length_digits(data, pos + 1) {
        None => {
            return None;
        },
        Some(r) => r,
    };
    if !saw || data.len() - p < 2 || data[p] != 13u8 || data[p + 1] != 10u8 {
        return None;
    }
    let start = p + 2;
    if len > usize::MAX - start {
        return None;
    }
    let end = start + len;
    if end > data.len() || data.len() - end < 2 || data[end] != 13u8 || data[end + 1] != 10u8 {
        return None;
    }
    Some((start, len, end + 2))
}

/// Reads the bulk string of a log record at `*i`, moving `*i` past what it
/// read; `None` where the bytes are not such a bulk string.
pub fn parse_bulk<'a>(data: &'a [u8], i: &mut usize) -> (res: Option<&'a [u8]>)
    ensures
        match res {
            None => log_bulk(data@, *old(i) as int) is None,
            Some(part) => log_bulk(data@, *old(i) as int) matches Some((a, l, n)) && part@
                == data@.subrange(a, a + l) && *final(i) == n,
        },
{
    match scan_log_bulk(data, *i) {
        None => None,
        Some((a, l, n)) => {
            *i = n;
            Some(&data[a..a + l])
        },
    }
}

/// Reads the `SET` record at `*i`, moving `*i` past it: its command, key and
/// value bulk strings, or `None` where the bytes there are not such a record.
pub fn parse_set_record<'a>(data: &'a [u8], i: &mut usize) -> (res: Option<Vec<&'a [u8]>>)
    ensures
        match res {
            None => log_record(data@, *old(i) as int) is None,
            Some(parts) => log_record(data@, *old(i) as int) matches Some((c, k, v, n))
                && parts@.len() == 3 && parts@[0]@ == c && parts@[1]@ == k && parts@[2]@ == v
                && *final(i) == n && n <= data@.len(),
        },
{
    let pos = *i;
    if pos > data.len() || data.len() - pos < 4 || data[pos] != 42u8 || data[pos + 1] != 51u8
        || data[pos + 2] != 13u8 || data[pos + 3] != 10u8 {
        proof {
            if pos + 4 <= data@.len() {
                let head = data@.subrange(pos as int, pos + 4);
                assert(head != record_head()) by {
                    assert(head[0] == data@[pos as int]);
                    assert(head[1] == data@[pos + 1]);
                    assert(head[2] == data@[pos + 2]);
                    assert(head[3] == data@[pos + 3]);
                }
            }
        }
        return None;
    }
    assert(data@.subrange(pos as int, pos + 4) =~= record_head());
    let mut parts: Vec<&'a [u8]> = Vec::new();
    let mut j: usize = pos + 4;
    let mut round: usize = 0;
    let ghost mut bounds: Seq<(int, int, int)> = Seq::empty();
    while round < 3
        invariant
            round <= 3,
            pos == *old(i),
            pos + 4 <= j <= data@.len(),
            data@.subrange(pos as int, pos + 4) == record_head(),
            parts@.len() == round,
            bounds.len() == round,
            round == 0 ==> j == pos + 4,
            forall|r: int|
                0 <= r < round ==> log_bulk(data@, if r == 0 { pos + 4 } else { bounds[r - 1].2 })
                    == Some(#[trigger] bounds[r]) && 0 <= bounds[r].0 && 0 <= bounds[r].1
                    && bounds[r].0 + bounds[r].1 <= data@.len() && parts@[r]@ == data@.subrange(
                    bounds[r].0,
                    bounds[r].0 + bounds[r].1,
                ),
            round > 0 ==> j == bounds[round - 1].2,
        decreases 3 - round,
    {
        proof {
            if round >= 1 {
                assert(log_bulk(data@, pos + 4) == Some(bounds[0]));
            }
            if round >= 2 {
                assert(log_bulk(data@, bounds[0].2) == Some(bounds[1]));
            }
        }
        match scan_log_bulk(data, j) {
            None => {
                return None;
            },
            Some((a, l, n)) => {
                proof {
                    lemma_log_bulk_advances(data@, j as int);
                    bounds = bounds.push((a as int, l as int, n as int));
                }
                parts.push(&data[a..a + l]);
                j = n;
                round = round + 1;
            },
        }
    }
    proof {
        assert(log_bulk(data@, pos + 4) == Some(bounds[0]));
        assert(log_bulk(data@, bounds[0].2) == Some(bounds[1]));
        assert(log_bulk(data@, bounds[1].2) == Some(bounds[2]));
    }
    let word = set_word_bytes();
    if bytes_eq_ignore_ascii_case(parts[0], word.as_slice()) {
        *i = j;
        Some(parts)
    } else {
        None
    }
}

/// Replays the `SET` records at the start of `data` into the store, each
/// with no expiry, stopping at the first bytes that are not such a record.
pub fn restore(data: &[u8], store: &mut Store)
    ensures
        final(store)@ == replay(old(store)@, log_records(data@, 0)),
        keys_valid_utf8(log_records(data@, 0)) ==> final(store)@ == replay_decoded(
            old(store)@,
            log_records(data@, 0),
        ),
{
    let mut i: usize = 0;
    while i < data.len()
        invariant_except_break
            i <= data@.len(),
            replay(store@, log_records(data@, i as int)) == replay(old(store)@, log_records(data@, 0)),
            keys_valid_utf8(log_records(data@, 0)) ==> keys_valid_utf8(log_records(data@, i as int))
                && replay_decoded(store@, log_records(data@, i as int)) == replay_decoded(
                old(store)@,
                log_records(data@, 0),
            ),
        ensures
            store@ == replay(old(store)@, log_records(data@, 0)),
            keys_valid_utf8(log_records(data@, 0)) ==> store@ == replay_decoded(
                old(store)@,
                log_records(data@, 0),
            ),
        decreases data@.len() - i,
    {
        let ghost start = i as int;
        let ghost before = store@;
        let parts = match parse_set_record(data, &mut i) {
            None => {
                break;
            },
            Some(p) => p,
        };
        let key = utf8_lossy(parts[1]);
        let value = copy_bytes(parts[2]);
        store.set(key, value, None);
        proof {
            lemma_log_record_advances(data@, start);
            let recs = log_records(data@, start);
            let rest = log_records(data@, i as int);
            assert(recs == seq![(parts@[1]@, parts@[2]@)] + rest);
            assert(recs.drop_first() =~= rest);
            assert(recs[0] == (parts@[1]@, parts@[2]@));
            assert(replay(before, recs) == replay(store@, rest));
            if keys_valid_utf8(log_records(data@, 0)) {
                assert(vstd::utf8::valid_utf8(recs[0].0));
                assert(keys_valid_utf8(rest)) by {
                    assert forall|j: int| 0 <= j < rest.len() implies vstd::utf8::valid_utf8(
                        #[trigger] rest[j].0,
                    ) by {
                        assert(rest[j] == recs[j + 1]);
                    }
                }
                assert(replay_decoded(before, recs) == replay_decoded(store@, rest));
            }
        }
    }
}

/// The bytes that logging `cmd` adds to the log: its record, or nothing for
/// a command that changes nothing.
pub open spec fn logged_bytes(cmd: CommandView) -> Seq<u8> {
    match command_record(cmd) {
        Some(r) => r,
        None => Seq::empty(),
    }
}

/// The records of a rewrite after `cmd` is logged: while a rewrite runs, the
/// command's record is added to them.
pub open spec fn rewrite_after_log(rb: Option<Seq<u8>>, cmd: CommandView) -> Option<Seq<u8>> {
    match rb {
        Some(b) => Some(b + logged_bytes(cmd)),
        None => None,
    }
}

/// The bytes of a buffer that may be absent.
pub open spec fn buffer_view(b: Option<Vec<u8>>) -> Option<Seq<u8>> {
    match b {
        Some(v) => Some(v@),
        None => None,
    }
}

/// The log state that the writers of the log share: the records not yet
/// written to the file, the file when no one else holds it, and, while the
/// log is being rewritten, the records logged since the rewrite began.
pub struct AofState<F> {
    pub buffer: Vec<u8>,
    pub file: Option<F>,
    pub rewrite_buffer: Option<Vec<u8>>,
}

impl<F> AofState<F> {
    /// Logs `cmd`: its record goes to the pending records, and also to the
    /// rewrite's records while a rewrite runs. Reads are not logged.
    pub fn append(&mut self, cmd: &Command)
        ensures
            final(self).file == old(self).file,
            final(self).buffer@ == old(self).buffer@ + logged_bytes(cmd@),
            buffer_view(final(self).rewrite_buffer) == rewrite_after_log(
                buffer_view(old(self).rewrite_buffer),
                cmd@,
            ),
    {
        if let Some(data) = serialize_command(cmd) {
            append_bytes(&mut self.buffer, data.as_slice());
            match self.rewrite_buffer.take() {
                Some(mut pending) => {
                    append_bytes(&mut pending, data.as_slice());
                    self.rewrite_buffer = Some(pending);
                },
                None => {},
            }
        }
    }

    /// Takes the pending records and the file for a flush, or gives `None`,
    /// leaving everything as it was, when the file is held elsewhere.
    pub fn take_for_flush(&mut self) -> (res: Option<(Vec<u8>, F)>)
        ensures
            match res {
                None => old(self).file is None && final(self).buffer@ == old(self).buffer@
                    && final(self).file is None && buffer_view(final(self).rewrite_buffer)
                    == buffer_view(old(self).rewrite_buffer),
                Some((pending, file)) => old(self).file == Some(file) && pending@ == old(
                    self,
                ).buffer@ && final(self).buffer@ == Seq::<u8>::empty() && final(self).file is None
                    && buffer_view(final(self).rewrite_buffer) == buffer_view(
                    old(self).rewrite_buffer,
                ),
            },
    {
        if self.file.is_none() {
            return None;
        }
        let mut pending: Vec<u8> = Vec::new();
        std::mem::swap(&mut pending, &mut self.buffer);
        match self.file.take() {
            Some(file) => Some((pending, file)),
            None => {
                proof {
                    assert(false);
                }
                None
            },
        }
    }

    /// Takes the pending records and the file for the periodic flush; `None`,
    /// leaving everything as it was, when nothing is pending or the file is
    /// held elsewhere (the records then wait for a later flush).
    pub fn take_pending(&mut self) -> (res: Option<(Vec<u8>, F)>)
        ensures
            match res {
                None => (old(self).buffer@.len() == 0 || old(self).file is None)
                    && final(self).buffer@ == old(self).buffer@
                    && final(self).file == old(self).file,
                Some((pending, file)) => old(self).buffer@.len() > 0
                    && pending@ == old(self).buffer@
                    && old(self).file == Some(file)
                    && final(self).buffer@ == Seq::<u8>::empty()
                    && final(self).file is None,
            },
            buffer_view(final(self).rewrite_buffer) == buffer_view(old(self).rewrite_buffer),
    {
        if self.buffer.len() == 0 || self.file.is_none() {
            return None;
        }
        let mut pending: Vec<u8> = Vec::new();
        std::mem::swap(&mut pending, &mut self.buffer);
        match self.file.take() {
            Some(file) => Some((pending, file)),
            None => {
                proof {
                    assert(false);
                }
                None
            },
        }
    }

    /// Whether a rewrite of the log is running.
    pub fn rewrite_running(&self) -> (res: bool)
        ensures
            res == self.rewrite_buffer is Some,
    {
        self.rewrite_buffer.is_some()
    }

    /// Starts a rewrite unless one is running: `true` when it started one,
    /// with no records logged since it began; `false`, leaving everything as
    /// it was, when a rewrite was already running.
    pub fn try_start_rewrite(&mut self) -> (res: bool)
        ensures
            res == (old(self).rewrite_buffer is None),
            final(self).buffer@ == old(self).buffer@,
            final(self).file == old(self).file,
            res ==> buffer_view(final(self).rewrite_buffer) == Some(Seq::<u8>::empty()),
            !res ==> buffer_view(final(self).rewrite_buffer) == buffer_view(old(self).rewrite_buffer),
    {
        if self.rewrite_buffer.is_some() {
            return false;
        }
        self.rewrite_buffer = Some(Vec::new());
        true
    }

    /// Marks the rewrite as no longer running, dropping its records.
    pub fn cancel_rewrite(&mut self)
        ensures
            final(self).buffer@ == old(self).buffer@,
            final(self).file == old(self).file,
            final(self).rewrite_buffer is None,
    {
        self.rewrite_buffer = None;
    }

    /// Takes the records logged since the rewrite began, or since the last
    /// such take; the rewrite goes on running.
    pub fn take_rewrite_chunk(&mut self) -> (res: Vec<u8>)
        requires
            old(self).rewrite_buffer is Some,
        ensures
            Some(res@) == buffer_view(old(self).rewrite_buffer),
            buffer_view(final(self).rewrite_buffer) == Some(Seq::<u8>::empty()),
            final(self).buffer@ == old(self).buffer@,
            final(self).file == old(self).file,
    {
        let chunk = match self.rewrite_buffer.take() {
            Some(chunk) => chunk,
            None => {
                proof {
                    assert(false);
                }
                Vec::new()
            },
        };
        self.rewrite_buffer = Some(Vec::new());
        chunk
    }

    /// Ends a rewrite when the file is free: takes the file and the last
    /// records logged since the rewrite began, leaving the rewrite stopped;
    /// `None`, leaving everything as it was, while the file is held elsewhere.
    pub fn take_for_swap(&mut self) -> (res: Option<(F, Vec<u8>)>)
        requires
            old(self).file is Some ==> old(self).rewrite_buffer is Some,
        ensures
            final(self).buffer@ == old(self).buffer@,
            match res {
                None => old(self).file is None && final(self).file is None && buffer_view(
                    final(self).rewrite_buffer,
                ) == buffer_view(old(self).rewrite_buffer),
                Some((file, last)) => old(self).file == Some(file) && buffer_view(
                    old(self).rewrite_buffer,
                ) == Some(last@) && final(self).file is None && final(self).rewrite_buffer is None,
            },
    {
        if self.file.is_none() {
            return None;
        }
        let file = match self.file.take() {
            Some(f) => f,
            None => {
                proof {
                    assert(false);
                }
                return None;
            },
        };
        let last = match self.rewrite_buffer.take() {
            Some(b) => b,
            None => {
                proof {
                    assert(false);
                }
                Vec::new()
            },
        };
        Some((file, last))
    }
}

/// The record that a rewrite writes for a store entry at clock reading
/// `now`: `None` for a value that has expired by then.
pub open spec fn snapshot_record_spec(key: Seq<char>, value: (Seq<u8>, Option<u128>), now: int) -> Option<Seq<u8>> {
    if expired_at(value, now) {
        None
    } else {
        Some(set_record(vstd::utf8::encode_utf8(key), value.0))
    }
}

/// The record that a rewrite writes for a store entry read at clock reading
/// `now`, or `None` when the value has expired by then.
pub fn snapshot_record(entry: &(String, Value), now: u128) -> (res: Option<Vec<u8>>)
    ensures
        match res {
            Some(bytes) => snapshot_record_spec(entry.0@, entry.1@, now as int) == Some(bytes@),
            None => snapshot_record_spec(entry.0@, entry.1@, now as int) is None,
        },
{
    if let Some(exp) = entry.1.expires_at {
        if now > exp {
            return None;
        }
    }
    let cmd = Command::SetValue { key: entry.0.clone(), value: copy_bytes(entry.1.data.as_slice()) };
    serialize_command(&cmd)
}


/// The log reader reads digits followed by a carriage return as their value.
pub proof fn lemma_length_digits_of(s: Seq<u8>, pos: int, d: Seq<u8>, acc: int, saw: bool)
    requires
        0 <= pos,
        pos + d.len() < s.len(),
        s.subrange(pos, pos + d.len()) == d,
        s[pos + d.len()] == 13u8,
        all_digits(d),
        0 <= acc,
        digits_value(d, acc) <= usize::MAX,
    ensures
        length_digits(s, pos, acc, saw) == Some(
            (digits_value(d, acc), pos + d.len(), saw || d.len() > 0),
        ),
    decreases d.len(),
{
    if d.len() > 0 {
        assert(s[pos] == d[0]);
        let acc2 = acc * 10 + (d[0] - 48);
        assert(all_digits(d.drop_first()));
        lemma_digits_value_grows(d.drop_first(), acc2);
        assert(s.subrange(pos + 1, pos + 1 + d.drop_first().len()) =~= d.drop_first());
        lemma_length_digits_of(s, pos + 1, d.drop_first(), acc2, true);
    }
}

/// Law: the log reader reads a bulk string, as it is written, back whole.
pub proof fn law_log_bulk_read_back(s: Seq<u8>, pos: int, data: Seq<u8>)
    requires
        0 <= pos,
        pos + bulk_bytes(data).len() <= s.len(),
        s.len() <= usize::MAX,
        s.subrange(pos, pos + bulk_bytes(data).len()) == bulk_bytes(data),
    ensures
        log_bulk(s, pos) == Some(
            (
                pos + 1 + decimal(data.len()).len() + 2,
                data.len() as int,
                pos + bulk_bytes(data).len(),
            ),
        ),
        s.subrange(
            pos + 1 + decimal(data.len()).len() + 2,
            pos + 1 + decimal(data.len()).len() + 2 + data.len(),
        ) == data,
{
    let d = decimal(data.len());
    let b = bulk_bytes(data);
    let nd: int = d.len() as int;
    let n: int = data.len() as int;
    lemma_decimal(data.len());
    assert(b[0] == s[pos]);
    assert(b.subrange(1, 1 + nd) =~= d);
    lemma_piece_of_piece(s, pos, b, 1, d);
    assert(b[1 + nd] == 13u8);
    assert(s[pos + 1 + nd] == b[1 + nd]);
    lemma_length_digits_of(s, pos + 1, d, 0, false);
    let p = pos + 1 + nd;
    assert(s[p + 1] == b[2 + nd]);
    assert(b.subrange(1 + nd + 2, 1 + nd + 2 + n) =~= data);
    lemma_piece_of_piece(s, pos, b, 1 + nd + 2, data);
    let q = p + 2 + n;
    assert(s[q] == b[1 + nd + 2 + n]);
    assert(s[q + 1] == b[1 + nd + 3 + n]);
}

/// Law: the log reader reads a `SET` record, as it is written, back as its
/// key and value.
pub proof fn law_set_record_read_back(s: Seq<u8>, pos: int, key: Seq<u8>, value: Seq<u8>)
    requires
        0 <= pos,
        pos + set_record(key, value).len() <= s.len(),
        s.len() <= usize::MAX,
        s.subrange(pos, pos + set_record(key, value).len()) == set_record(key, value),
    ensures
        log_record(s, pos) == Some((set_word(), key, value, pos + set_record(key, value).len())),
{
    let r = set_record(key, value);
    let b1 = bulk_bytes(set_word());
    let b2 = bulk_bytes(key);
    let b3 = bulk_bytes(value);
    let n1: int = b1.len() as int;
    let n2: int = b2.len() as int;
    let n3: int = b3.len() as int;
    assert(r =~= record_head() + b1 + b2 + b3);
    assert(r.subrange(0, 4) =~= record_head());
    lemma_piece_of_piece(s, pos, r, 0, record_head());
    assert(r.subrange(4, 4 + n1) =~= b1);
    lemma_piece_of_piece(s, pos, r, 4, b1);
    law_log_bulk_read_back(s, pos + 4, set_word());
    assert(r.subrange(4 + n1, 4 + n1 + n2) =~= b2);
    lemma_piece_of_piece(s, pos, r, 4 + n1, b2);
    law_log_bulk_read_back(s, pos + 4 + n1, key);
    assert(r.subrange(4 + n1 + n2, 4 + n1 + n2 + n3) =~= b3);
    lemma_piece_of_piece(s, pos, r, 4 + n1 + n2, b3);
    law_log_bulk_read_back(s, pos + 4 + n1 + n2, value);
}


/// The log that a sequence of writes (key, value) leaves: their records, one
/// after another.
pub open spec fn write_log(ws: Seq<(Seq<char>, Seq<u8>)>) -> Seq<u8>
    decreases ws.len(),
{
    if ws.len() == 0 {
        Seq::empty()
    } else {
        set_record(vstd::utf8::encode_utf8(ws[0].0), ws[0].1) + write_log(ws.drop_first())
    }
}

/// The key bytes and values that the records of `ws` hold.
pub open spec fn logged(ws: Seq<(Seq<char>, Seq<u8>)>) -> Seq<(Seq<u8>, Seq<u8>)> {
    ws.map_values(|w: (Seq<char>, Seq<u8>)| (vstd::utf8::encode_utf8(w.0), w.1))
}

/// The store after the writes `ws`, in order, each with no expiry.
pub open spec fn apply_writes(
    m: Map<Seq<char>, (Seq<u8>, Option<u128>)>,
    ws: Seq<(Seq<char>, Seq<u8>)>,
) -> Map<Seq<char>, (Seq<u8>, Option<u128>)>
    decreases ws.len(),
{
    if ws.len() == 0 {
        m
    } else {
        apply_writes(m.insert(ws[0].0, (ws[0].1, None)), ws.drop_first())
    }
}

proof fn lemma_write_log_records(s: Seq<u8>, pos: int, ws: Seq<(Seq<char>, Seq<u8>)>)
    requires
        0 <= pos <= s.len(),
        s.len() <= usize::MAX,
        s.subrange(pos, s.len() as int) == write_log(ws),
    ensures
        log_records(s, pos) == logged(ws),
    decreases ws.len(),
{
    if ws.len() == 0 {
        assert(logged(ws) =~= Seq::<(Seq<u8>, Seq<u8>)>::empty());
    } else {
        let key = vstd::utf8::encode_utf8(ws[0].0);
        let r = set_record(key, ws[0].1);
        let rest = write_log(ws.drop_first());
        let whole = s.subrange(pos, s.len() as int);
        assert(whole =~= r + rest);
        assert(whole.subrange(0, r.len() as int) =~= r);
        lemma_piece_of_piece(s, pos, whole, 0, r);
        law_set_record_read_back(s, pos, key, ws[0].1);
        let next = pos + r.len();
        assert(s.subrange(next, s.len() as int) =~= rest) by {
            assert(whole.subrange(r.len() as int, whole.len() as int) =~= rest);
            lemma_piece_of_piece(s, pos, whole, r.len() as int, rest);
        }
        lemma_write_log_records(s, next, ws.drop_first());
        if pos >= s.len() {
            assert(whole.len() == 0);
        }
        assert(logged(ws) =~= seq![(key, ws[0].1)] + logged(ws.drop_first()));
    }
}

proof fn lemma_replay_logged(m: Map<Seq<char>, (Seq<u8>, Option<u128>)>, ws: Seq<(Seq<char>, Seq<u8>)>)
    ensures
        keys_valid_utf8(logged(ws)),
        replay_decoded(m, logged(ws)) == apply_writes(m, ws),
    decreases ws.len(),
{
    broadcast use vstd::utf8::encode_utf8_valid_utf8, vstd::utf8::encode_utf8_decode_utf8;

    if ws.len() > 0 {
        let l = logged(ws);
        assert(l.drop_first() =~= logged(ws.drop_first()));
        assert(l[0] == (vstd::utf8::encode_utf8(ws[0].0), ws[0].1));
        lemma_replay_logged(m.insert(ws[0].0, (ws[0].1, None)), ws.drop_first());
    }
}

/// Law: replaying the log that a sequence of writes leaves reads back every
/// record, and gives the store those writes give, in their order. Together
/// with the contract of `restore`, restoring a log of writes into a store
/// carries them out again.
pub proof fn law_restore_recovers_writes(
    m: Map<Seq<char>, (Seq<u8>, Option<u128>)>,
    ws: Seq<(Seq<char>, Seq<u8>)>,
)
    requires
        write_log(ws).len() <= usize::MAX,
    ensures
        log_records(write_log(ws), 0) == logged(ws),
        keys_valid_utf8(logged(ws)),
        replay_decoded(m, logged(ws)) == apply_writes(m, ws),
{
    let s = write_log(ws);
    assert(s.subrange(0, s.len() as int) =~= s);
    lemma_write_log_records(s, 0, ws);
    lemma_replay_logged(m, ws);
}


/// Law: logging one more write adds its record at the end of the log; the
/// log of a sequence of writes is what `append` leaves in a buffer that
/// started empty.
pub proof fn law_log_grows_by_record(ws: Seq<(Seq<char>, Seq<u8>)>, key: Seq<char>, value: Seq<u8>)
    ensures
        command_record(CommandView::SetValue { key, value }) == Some(
            set_record(vstd::utf8::encode_utf8(key), value),
        ),
        write_log(ws.push((key, value))) == write_log(ws) + set_record(
            vstd::utf8::encode_utf8(key),
            value,
        ),
    decreases ws.len(),
{
    let r = set_record(vstd::utf8::encode_utf8(key), value);
    if ws.len() == 0 {
        assert(ws.push((key, value)).drop_first() =~= Seq::<(Seq<char>, Seq<u8>)>::empty());
        assert(ws.push((key, value))[0] == (key, value));
        assert(write_log(Seq::<(Seq<char>, Seq<u8>)>::empty()) == Seq::<u8>::empty());
        assert(write_log(ws.push((key, value))) =~= r);
    } else {
        assert(ws.push((key, value)).drop_first() =~= ws.drop_first().push((key, value)));
        law_log_grows_by_record(ws.drop_first(), key, value);
        assert(write_log(ws.push((key, value))) =~= write_log(ws) + r);
    }
}

/// The writes a rewrite logs for a snapshot read at `now`: each entry whose
/// value has not expired, as its key and value.
pub open spec fn snapshot_writes(es: Seq<(String, Value)>, now: int) -> Seq<(Seq<char>, Seq<u8>)>
    decreases es.len(),
{
    if es.len() == 0 {
        Seq::empty()
    } else if expired_at(es[0].1@, now) {
        snapshot_writes(es.drop_first(), now)
    } else {
        seq![(es[0].0@, es[0].1.data@)] + snapshot_writes(es.drop_first(), now)
    }
}

/// The log a rewrite writes for a snapshot read at `now`: the records that
/// `snapshot_record` gives for its entries, one after another.
pub open spec fn snapshot_log(es: Seq<(String, Value)>, now: int) -> Seq<u8>
    decreases es.len(),
{
    if es.len() == 0 {
        Seq::empty()
    } else {
        match snapshot_record_spec(es[0].0@, es[0].1@, now) {
            Some(r) => r + snapshot_log(es.drop_first(), now),
            None => snapshot_log(es.drop_first(), now),
        }
    }
}

/// The entries of `m` that have not expired at `now`, with their expiries
/// dropped: what a store holds once the log of a rewrite is replayed.
pub open spec fn live_entries(m: Map<Seq<char>, (Seq<u8>, Option<u128>)>, now: int) -> Map<
    Seq<char>,
    (Seq<u8>, Option<u128>),
> {
    Map::new(
        |k: Seq<char>| m.contains_key(k) && !expired_at(m[k], now),
        |k: Seq<char>| (m[k].0, None::<u128>),
    )
}

proof fn lemma_snapshot_log_writes(es: Seq<(String, Value)>, now: int)
    ensures
        snapshot_log(es, now) == write_log(snapshot_writes(es, now)),
    decreases es.len(),
{
    if es.len() > 0 {
        lemma_snapshot_log_writes(es.drop_first(), now);
        let rest = snapshot_writes(es.drop_first(), now);
        if !expired_at(es[0].1@, now) {
            let w = seq![(es[0].0@, es[0].1.data@)] + rest;
            assert(w.drop_first() =~= rest);
        }
    }
}

proof fn lemma_distinct_tail(es: Seq<(String, Value)>)
    requires
        es.len() > 0,
        crate::store::keys_distinct(es),
    ensures
        crate::store::keys_distinct(es.drop_first()),
{
    let tail = es.drop_first();
    assert forall|a: int, b: int|
        0 <= a < tail.len() && 0 <= b < tail.len() && a != b implies #[trigger] tail[a].0@
        != #[trigger] tail[b].0@ by {
        assert(tail[a] == es[a + 1] && tail[b] == es[b + 1]);
    }
}

/// Each write a rewrite logs comes from a live entry of the snapshot.
proof fn lemma_snapshot_writes_sound(es: Seq<(String, Value)>, now: int)
    ensures
        forall|i: int|
            0 <= i < snapshot_writes(es, now).len() ==> exists|j: int|
                0 <= j < es.len() && es[j].0@ == (#[trigger] snapshot_writes(es, now)[i]).0
                    && !expired_at(es[j].1@, now) && es[j].1.data@ == snapshot_writes(es, now)[i].1,
    decreases es.len(),
{
    if es.len() > 0 {
        let tail = es.drop_first();
        lemma_snapshot_writes_sound(tail, now);
        let rest = snapshot_writes(tail, now);
        let sw = snapshot_writes(es, now);
        if !expired_at(es[0].1@, now) {
            assert(sw == seq![(es[0].0@, es[0].1.data@)] + rest);
        }
        assert forall|i: int| 0 <= i < sw.len() implies exists|j: int|
            0 <= j < es.len() && es[j].0@ == (#[trigger] sw[i]).0 && !expired_at(es[j].1@, now)
                && es[j].1.data@ == sw[i].1 by {
            if !expired_at(es[0].1@, now) && i == 0 {
                assert(es[0].0@ == sw[0].0);
            } else {
                let k = if expired_at(es[0].1@, now) { i } else { i - 1 };
                assert(sw[i] == rest[k]);
                let j = choose|j: int|
                    0 <= j < tail.len() && tail[j].0@ == (#[trigger] rest[k]).0 && !expired_at(
                        tail[j].1@,
                        now,
                    ) && tail[j].1.data@ == rest[k].1;
                assert(es[j + 1] == tail[j]);
            }
        }
    }
}

/// Each live entry of the snapshot is among the writes a rewrite logs.
proof fn lemma_snapshot_writes_complete(es: Seq<(String, Value)>, now: int)
    ensures
        forall|j: int|
            0 <= j < es.len() && !expired_at(#[trigger] es[j].1@, now) ==> exists|i: int|
                0 <= i < snapshot_writes(es, now).len() && snapshot_writes(es, now)[i] == (
                    es[j].0@,
                    es[j].1.data@,
                ),
    decreases es.len(),
{
    if es.len() > 0 {
        let tail = es.drop_first();
        lemma_snapshot_writes_complete(tail, now);
        let rest = snapshot_writes(tail, now);
        let sw = snapshot_writes(es, now);
        if !expired_at(es[0].1@, now) {
            assert(sw == seq![(es[0].0@, es[0].1.data@)] + rest);
        }
        assert forall|j: int| 0 <= j < es.len() && !expired_at(#[trigger] es[j].1@, now) implies exists|i: int|
            0 <= i < sw.len() && sw[i] == (es[j].0@, es[j].1.data@) by {
            if j == 0 {
                assert(sw[0] == (es[0].0@, es[0].1.data@));
            } else {
                assert(tail[j - 1] == es[j]);
                let i = choose|i: int|
                    0 <= i < rest.len() && rest[i] == (tail[j - 1].0@, tail[j - 1].1.data@);
                if expired_at(es[0].1@, now) {
                    assert(sw[i] == rest[i]);
                } else {
                    assert(sw[i + 1] == rest[i]);
                }
            }
        }
    }
}

/// A snapshot whose keys are distinct gives writes whose keys are distinct.
proof fn lemma_snapshot_writes_distinct(es: Seq<(String, Value)>, now: int)
    requires
        crate::store::keys_distinct(es),
    ensures
        forall|a: int, b: int|
            0 <= a < snapshot_writes(es, now).len() && 0 <= b < snapshot_writes(es, now).len() && a
                != b ==> (#[trigger] snapshot_writes(es, now)[a]).0 != (#[trigger] snapshot_writes(
                es,
                now,
            )[b]).0,
    decreases es.len(),
{
    if es.len() > 0 {
        let tail = es.drop_first();
        lemma_distinct_tail(es);
        lemma_snapshot_writes_distinct(tail, now);
        lemma_snapshot_writes_sound(tail, now);
        let rest = snapshot_writes(tail, now);
        let sw = snapshot_writes(es, now);
        if !expired_at(es[0].1@, now) {
            assert(sw == seq![(es[0].0@, es[0].1.data@)] + rest);
            assert forall|a: int, b: int|
                0 <= a < sw.len() && 0 <= b < sw.len() && a != b implies (#[trigger] sw[a]).0 != (
                #[trigger] sw[b]).0 by {
                if a == 0 || b == 0 {
                    let o = if a == 0 { b } else { a };
                    assert(sw[o] == rest[o - 1]);
                    let j = choose|j: int|
                        0 <= j < tail.len() && tail[j].0@ == (#[trigger] rest[o - 1]).0 && !expired_at(
                            tail[j].1@,
                            now,
                        ) && tail[j].1.data@ == rest[o - 1].1;
                    assert(es[j + 1] == tail[j]);
                    assert(es[0].0@ != es[j + 1].0@);
                } else {
                    assert(sw[a] == rest[a - 1] && sw[b] == rest[b - 1]);
                }
            }
        }
    }
}


/// No two writes of `ws` are to the same key.
pub open spec fn writes_distinct(ws: Seq<(Seq<char>, Seq<u8>)>) -> bool {
    forall|a: int, b: int|
        0 <= a < ws.len() && 0 <= b < ws.len() && a != b ==> (#[trigger] ws[a]).0 != (
        #[trigger] ws[b]).0
}

proof fn lemma_apply_distinct_writes(m: Map<Seq<char>, (Seq<u8>, Option<u128>)>, ws: Seq<(Seq<char>, Seq<u8>)>)
    requires
        writes_distinct(ws),
    ensures
        forall|k: Seq<char>|
            #[trigger] apply_writes(m, ws).contains_key(k) <==> (m.contains_key(k) || exists|i: int|
                0 <= i < ws.len() && (#[trigger] ws[i]).0 == k),
        forall|i: int|
            0 <= i < ws.len() ==> apply_writes(m, ws)[(#[trigger] ws[i]).0] == (ws[i].1, None::<u128>),
    decreases ws.len(),
{
    if ws.len() > 0 {
        let tail = ws.drop_first();
        let m2 = m.insert(ws[0].0, (ws[0].1, None));
        assert(writes_distinct(tail)) by {
            assert forall|a: int, b: int|
                0 <= a < tail.len() && 0 <= b < tail.len() && a != b implies (#[trigger] tail[a]).0
                != (#[trigger] tail[b]).0 by {
                assert(tail[a] == ws[a + 1] && tail[b] == ws[b + 1]);
            }
        }
        lemma_apply_distinct_writes(m2, tail);
        assert forall|k: Seq<char>| #[trigger] apply_writes(m, ws).contains_key(k) <==> (m.contains_key(k)
            || exists|i: int| 0 <= i < ws.len() && (#[trigger] ws[i]).0 == k) by {
            assert(apply_writes(m, ws) == apply_writes(m2, tail));
            if k == ws[0].0 {
                assert((ws[0]).0 == k);
            }
            if exists|i: int| 0 <= i < tail.len() && (#[trigger] tail[i]).0 == k {
                let i = choose|i: int| 0 <= i < tail.len() && (#[trigger] tail[i]).0 == k;
                assert(ws[i + 1] == tail[i]);
            }
            if exists|i: int| 0 <= i < ws.len() && (#[trigger] ws[i]).0 == k {
                let i = choose|i: int| 0 <= i < ws.len() && (#[trigger] ws[i]).0 == k;
                if i > 0 {
                    assert(tail[i - 1] == ws[i]);
                }
            }
        }
        assert forall|i: int| 0 <= i < ws.len() implies apply_writes(m, ws)[(#[trigger] ws[i]).0] == (
            ws[i].1,
            None::<u128>,
        ) by {
            if i == 0 {
                assert forall|j: int| 0 <= j < tail.len() implies (#[trigger] tail[j]).0 != ws[0].0 by {
                    assert(tail[j] == ws[j + 1]);
                }
                lemma_apply_untouched(m2, tail, ws[0].0);
            } else {
                assert(tail[i - 1] == ws[i]);
            }
        }
    }
}

proof fn lemma_apply_untouched(
    m: Map<Seq<char>, (Seq<u8>, Option<u128>)>,
    ws: Seq<(Seq<char>, Seq<u8>)>,
    k: Seq<char>,
)
    requires
        forall|j: int| 0 <= j < ws.len() ==> (#[trigger] ws[j]).0 != k,
    ensures
        apply_writes(m, ws).contains_key(k) == m.contains_key(k),
        apply_writes(m, ws)[k] == m[k],
    decreases ws.len(),
{
    if ws.len() > 0 {
        let tail = ws.drop_first();
        assert forall|j: int| 0 <= j < tail.len() implies (#[trigger] tail[j]).0 != k by {
            assert(tail[j] == ws[j + 1]);
        }
        assert(ws[0].0 != k);
        lemma_apply_untouched(m.insert(ws[0].0, (ws[0].1, None)), tail, k);
    }
}

/// Law: a rewrite keeps the store's contents. The records it writes for a
/// snapshot read at `now` are the log of the snapshot's live entries, and
/// replaying that log into an empty store gives exactly the entries that had
/// not expired at `now`, without their expiries.
pub proof fn law_rewrite_keeps_live_entries(es: Seq<(String, Value)>, now: int)
    requires
        crate::store::keys_distinct(es),
    ensures
        snapshot_log(es, now) == write_log(snapshot_writes(es, now)),
        apply_writes(Map::empty(), snapshot_writes(es, now)) == live_entries(
            crate::store::entries_map(es),
            now,
        ),
{
    lemma_snapshot_log_writes(es, now);
    lemma_snapshot_writes_sound(es, now);
    lemma_snapshot_writes_complete(es, now);
    lemma_snapshot_writes_distinct(es, now);
    let sw = snapshot_writes(es, now);
    let em = crate::store::entries_map(es);
    let empty = Map::<Seq<char>, (Seq<u8>, Option<u128>)>::empty();
    lemma_apply_distinct_writes(empty, sw);
    let a = apply_writes(empty, sw);
    let l = live_entries(em, now);
    assert forall|k: Seq<char>| #[trigger] a.contains_key(k) <==> l.contains_key(k) by {
        if a.contains_key(k) {
            let i = choose|i: int| 0 <= i < sw.len() && (#[trigger] sw[i]).0 == k;
            let j = choose|j: int|
                0 <= j < es.len() && es[j].0@ == (#[trigger] sw[i]).0 && !expired_at(es[j].1@, now)
                    && es[j].1.data@ == sw[i].1;
            crate::store::lemma_entries_map_at(es, j);
        }
        if l.contains_key(k) {
            let j = choose|j: int| 0 <= j < es.len() && #[trigger] es[j].0@ == k;
            crate::store::lemma_entries_map_at(es, j);
            let i = choose|i: int| 0 <= i < sw.len() && sw[i] == (es[j].0@, es[j].1.data@);
            assert(sw[i].0 == k);
        }
    }
    assert forall|k: Seq<char>| #[trigger] a.contains_key(k) implies a[k] == l[k] by {
        let i = choose|i: int| 0 <= i < sw.len() && (#[trigger] sw[i]).0 == k;
        let j = choose|j: int|
            0 <= j < es.len() && es[j].0@ == (#[trigger] sw[i]).0 && !expired_at(es[j].1@, now)
                && es[j].1.data@ == sw[i].1;
        crate::store::lemma_entries_map_at(es, j);
    }
    assert(a =~= l);
}


/// One step taken while a rewrite runs: a command is logged, or the records
/// logged so far are taken to be written to the new log.
pub enum RewriteStep {
    Log(CommandView),
    TakeChunk,
}

/// Runs `steps` on a running rewrite whose records are `rb`, as `append` and
/// `take_rewrite_chunk` change them: the bytes that the chunk takes hand
/// out, in order, and the records left at the end, which `take_for_swap`
/// takes.
pub open spec fn run_rewrite(rb: Seq<u8>, steps: Seq<RewriteStep>) -> (Seq<u8>, Seq<u8>)
    decreases steps.len(),
{
    if steps.len() == 0 {
        (Seq::empty(), rb)
    } else {
        let (handed, left) = run_rewrite(rb, steps.drop_last());
        match steps.last() {
            RewriteStep::Log(cmd) => (handed, left + logged_bytes(cmd)),
            RewriteStep::TakeChunk => (handed + left, Seq::empty()),
        }
    }
}

/// The bytes that the commands logged among `steps` add to the log, in order.
pub open spec fn logged_during(steps: Seq<RewriteStep>) -> Seq<u8>
    decreases steps.len(),
{
    if steps.len() == 0 {
        Seq::empty()
    } else {
        match steps.last() {
            RewriteStep::Log(cmd) => logged_during(steps.drop_last()) + logged_bytes(cmd),
            RewriteStep::TakeChunk => logged_during(steps.drop_last()),
        }
    }
}

/// Law: a rewrite loses no write logged while it runs. From the start of a
/// rewrite, the bytes that its chunk takes hand out, followed by the records
/// that the swap takes at its end, are exactly the records logged since it
/// began, in order.
pub proof fn law_rewrite_loses_no_write(steps: Seq<RewriteStep>)
    ensures
        run_rewrite(Seq::empty(), steps).0 + run_rewrite(Seq::empty(), steps).1 == logged_during(steps),
    decreases steps.len(),
{
    if steps.len() > 0 {
        let prev = steps.drop_last();
        law_rewrite_loses_no_write(prev);
        let handed = run_rewrite(Seq::<u8>::empty(), prev).0;
        let left = run_rewrite(Seq::<u8>::empty(), prev).1;
        match steps.last() {
            RewriteStep::Log(cmd) => {
                assert(handed + (left + logged_bytes(cmd)) =~= (handed + left) + logged_bytes(cmd));
            },
            RewriteStep::TakeChunk => {
                assert((handed + left) + Seq::<u8>::empty() =~= handed + left);
            },
        }
    }
}

/// Law: logging during a rewrite adds at the end. While a rewrite runs,
/// logging `cmd` keeps the records already there, in place, and puts the
/// command's record after them, as the rewrite steps of `run_rewrite` take
/// it; the pending records grow the same way. With no rewrite running,
/// nothing is collected for one.
pub proof fn law_log_appends_at_the_end(b: Seq<u8>, cmd: CommandView, rb: Seq<u8>, steps: Seq<RewriteStep>)
    ensures
        rewrite_after_log(Some(b), cmd) matches Some(n) && n.len() == b.len() + logged_bytes(cmd).len()
            && n.subrange(0, b.len() as int) == b && n.subrange(b.len() as int, n.len() as int)
            == logged_bytes(cmd),
        rewrite_after_log(None, cmd) is None,
        rewrite_after_log(Some(run_rewrite(rb, steps).1), cmd) == Some(
            run_rewrite(rb, steps.push(RewriteStep::Log(cmd))).1,
        ),
        run_rewrite(rb, steps.push(RewriteStep::Log(cmd))).0 == run_rewrite(rb, steps).0,
        logged_during(steps.push(RewriteStep::Log(cmd))) == logged_during(steps) + logged_bytes(cmd),
        cmd matches CommandView::SetValue { key, value } ==> logged_bytes(cmd) == set_record(
            vstd::utf8::encode_utf8(key),
            value,
        ),
        cmd is Get ==> logged_bytes(cmd).len() == 0,
{
    let n = b + logged_bytes(cmd);
    assert(n.subrange(0, b.len() as int) =~= b);
    assert(n.subrange(b.len() as int, n.len() as int) =~= logged_bytes(cmd));
    assert(steps.push(RewriteStep::Log(cmd)).drop_last() =~= steps);
}

/// The writes that the commands logged among `steps` carry out, in order.
pub open spec fn writes_during(steps: Seq<RewriteStep>) -> Seq<(Seq<char>, Seq<u8>)>
    decreases steps.len(),
{
    if steps.len() == 0 {
        Seq::empty()
    } else {
        match steps.last() {
            RewriteStep::Log(CommandView::SetValue { key, value }) => writes_during(
                steps.drop_last(),
            ).push((key, value)),
            _ => writes_during(steps.drop_last()),
        }
    }
}

/// The value that the last write of `ws` to `k` stores, if any write does.
pub open spec fn last_write(ws: Seq<(Seq<char>, Seq<u8>)>, k: Seq<char>) -> Option<Seq<u8>>
    decreases ws.len(),
{
    if ws.len() == 0 {
        None
    } else {
        match last_write(ws.drop_first(), k) {
            Some(v) => Some(v),
            None => if ws[0].0 == k {
                Some(ws[0].1)
            } else {
                None
            },
        }
    }
}

proof fn lemma_logged_during_writes(steps: Seq<RewriteStep>)
    ensures
        logged_during(steps) == write_log(writes_during(steps)),
    decreases steps.len(),
{
    if steps.len() == 0 {
        assert(write_log(Seq::<(Seq<char>, Seq<u8>)>::empty()) == Seq::<u8>::empty());
    } else {
        let prev = steps.drop_last();
        lemma_logged_during_writes(prev);
        match steps.last() {
            RewriteStep::Log(CommandView::SetValue { key, value }) => {
                law_log_grows_by_record(writes_during(prev), key, value);
            },
            RewriteStep::Log(CommandView::Get { .. }) => {
                assert(logged_during(prev) + Seq::<u8>::empty() =~= logged_during(prev));
            },
            RewriteStep::TakeChunk => {},
        }
    }
}

proof fn lemma_write_log_concat(a: Seq<(Seq<char>, Seq<u8>)>, b: Seq<(Seq<char>, Seq<u8>)>)
    ensures
        write_log(a + b) == write_log(a) + write_log(b),
    decreases a.len(),
{
    if a.len() == 0 {
        assert(a + b =~= b);
        assert(write_log(a) == Seq::<u8>::empty());
        assert(write_log(a) + write_log(b) =~= write_log(b));
    } else {
        assert((a + b).drop_first() =~= a.drop_first() + b);
        assert((a + b)[0] == a[0]);
        lemma_write_log_concat(a.drop_first(), b);
        let r = set_record(vstd::utf8::encode_utf8(a[0].0), a[0].1);
        assert(r + (write_log(a.drop_first()) + write_log(b)) =~= (r + write_log(a.drop_first()))
            + write_log(b));
    }
}

proof fn lemma_last_write_concat(a: Seq<(Seq<char>, Seq<u8>)>, b: Seq<(Seq<char>, Seq<u8>)>, k: Seq<char>)
    ensures
        last_write(a + b, k) == match last_write(b, k) {
            Some(v) => Some(v),
            None => last_write(a, k),
        },
    decreases a.len(),
{
    if a.len() == 0 {
        assert(a + b =~= b);
    } else {
        assert((a + b).drop_first() =~= a.drop_first() + b);
        assert((a + b)[0] == a[0]);
        lemma_last_write_concat(a.drop_first(), b, k);
    }
}

proof fn lemma_apply_at(m: Map<Seq<char>, (Seq<u8>, Option<u128>)>, ws: Seq<(Seq<char>, Seq<u8>)>, k: Seq<char>)
    ensures
        apply_writes(m, ws).contains_key(k) == (last_write(ws, k) is Some || m.contains_key(k)),
        apply_writes(m, ws).contains_key(k) ==> apply_writes(m, ws)[k] == match last_write(ws, k) {
            Some(v) => (v, None::<u128>),
            None => m[k],
        },
    decreases ws.len(),
{
    if ws.len() > 0 {
        lemma_apply_at(m.insert(ws[0].0, (ws[0].1, None)), ws.drop_first(), k);
    }
}

proof fn lemma_apply_concat(
    m: Map<Seq<char>, (Seq<u8>, Option<u128>)>,
    a: Seq<(Seq<char>, Seq<u8>)>,
    b: Seq<(Seq<char>, Seq<u8>)>,
)
    ensures
        apply_writes(m, a + b) == apply_writes(apply_writes(m, a), b),
{
    let l = apply_writes(m, a + b);
    let r = apply_writes(apply_writes(m, a), b);
    assert forall|k: Seq<char>| #[trigger] l.contains_key(k) == r.contains_key(k) && (l.contains_key(k)
        ==> l[k] == r[k]) by {
        lemma_last_write_concat(a, b, k);
        lemma_apply_at(m, a + b, k);
        lemma_apply_at(apply_writes(m, a), b, k);
        lemma_apply_at(m, a, k);
    }
    assert(l =~= r);
}

/// Writes that are already the last of a sequence change nothing when they
/// are carried out again.
proof fn lemma_apply_suffix_again(
    m: Map<Seq<char>, (Seq<u8>, Option<u128>)>,
    ws: Seq<(Seq<char>, Seq<u8>)>,
    i: int,
)
    requires
        0 <= i <= ws.len(),
    ensures
        apply_writes(apply_writes(m, ws), ws.subrange(i, ws.len() as int)) == apply_writes(m, ws),
{
    let p = ws.subrange(0, i);
    let q = ws.subrange(i, ws.len() as int);
    assert(ws =~= p + q);
    let once = apply_writes(m, ws);
    let twice = apply_writes(once, q);
    assert forall|k: Seq<char>| #[trigger] twice.contains_key(k) == once.contains_key(k) && (
    twice.contains_key(k) ==> twice[k] == once[k]) by {
        lemma_last_write_concat(p, q, k);
        lemma_apply_at(m, ws, k);
        lemma_apply_at(once, q, k);
    }
    assert(twice =~= once);
}

/// Law: the rewritten log restores the store. The new log holds the
/// snapshot's records, then every chunk the rewrite handed out, then the
/// records the swap took at its end; after the swap the periodic flush
/// appends the records still pending (the last of those logged during the
/// rewrite) and those logged since. Restoring that log into an empty store
/// gives the snapshot's entries that had not expired at `now`, without
/// expiry, overridden in order by every write logged during the rewrite and
/// then by those logged since: no write is lost and no other key appears.
pub proof fn law_rewritten_log_restores(
    es: Seq<(String, Value)>,
    now: int,
    steps: Seq<RewriteStep>,
    pending_from: int,
    later: Seq<(Seq<char>, Seq<u8>)>,
)
    requires
        crate::store::keys_distinct(es),
        0 <= pending_from <= writes_during(steps).len(),
        (snapshot_log(es, now) + run_rewrite(Seq::empty(), steps).0 + run_rewrite(Seq::empty(), steps).1
            + write_log(writes_during(steps).subrange(pending_from, writes_during(steps).len() as int)
            + later)).len() <= usize::MAX,
    ensures
        ({
            let w = writes_during(steps);
            let log = snapshot_log(es, now) + run_rewrite(Seq::empty(), steps).0 + run_rewrite(
                Seq::empty(),
                steps,
            ).1 + write_log(w.subrange(pending_from, w.len() as int) + later);
            &&& keys_valid_utf8(log_records(log, 0))
            &&& replay_decoded(Map::empty(), log_records(log, 0)) == apply_writes(
                apply_writes(live_entries(crate::store::entries_map(es), now), w),
                later,
            )
        }),
{
    let w = writes_during(steps);
    let q = w.subrange(pending_from, w.len() as int);
    let sw = snapshot_writes(es, now);
    let handed = run_rewrite(Seq::<u8>::empty(), steps).0;
    let left = run_rewrite(Seq::<u8>::empty(), steps).1;
    let log = snapshot_log(es, now) + handed + left + write_log(q + later);
    let all = sw + w + (q + later);
    law_rewrite_loses_no_write(steps);
    lemma_logged_during_writes(steps);
    law_rewrite_keeps_live_entries(es, now);
    lemma_write_log_concat(sw, w);
    lemma_write_log_concat(sw + w, q + later);
    assert(log =~= write_log(all)) by {
        assert(snapshot_log(es, now) + handed + left =~= snapshot_log(es, now) + (handed + left));
    }
    law_restore_recovers_writes(Map::empty(), all);
    let empty = Map::<Seq<char>, (Seq<u8>, Option<u128>)>::empty();
    lemma_apply_concat(empty, sw + w, q + later);
    lemma_apply_concat(empty, sw, w);
    let live = live_entries(crate::store::entries_map(es), now);
    lemma_apply_concat(apply_writes(live, w), q, later);
    lemma_apply_suffix_again(live, w, pending_from);
}

/// Law: a logged write is also a well-formed request. The connection decoder
/// reads a `SET` record, wherever it is followed by other bytes, as the array
/// of the bulk strings `SET`, the key and the value, taking up the record.
pub proof fn law_logged_write_is_request(key: Seq<u8>, value: Seq<u8>, tail: Seq<u8>)
    requires
        key.len() <= i64::MAX,
        value.len() <= i64::MAX,
    ensures
        frame_from(set_record(key, value) + tail) == Ok::<Option<(Seq<Seq<u8>>, int)>, Seq<char>>(
            Some((seq![set_word(), key, value], set_record(key, value).len() as int)),
        ),
{
    let r = set_record(key, value);
    let s = r + tail;
    let b1 = bulk_bytes(set_word());
    let b2 = bulk_bytes(key);
    let b3 = bulk_bytes(value);
    let n1: int = b1.len() as int;
    let n2: int = b2.len() as int;
    let n3: int = b3.len() as int;
    assert(r =~= record_head() + b1 + b2 + b3);
    assert(s.subrange(0, r.len() as int) =~= r);
    assert(s[0] == 42u8);
    let three = seq![51u8];
    assert(s.subrange(1, 2) =~= three);
    assert(s[2] == 13u8);
    assert(digits_value(three, 0) == 3) by {
        assert(three.drop_first() =~= Seq::<u8>::empty());
        reveal_with_fuel(digits_value, 2);
    }
    lemma_number_from_digits(s, 1, three, 0);
    assert(r.subrange(4, 4 + n1) =~= b1);
    lemma_piece_of_piece(s, 0, r, 4, b1);
    law_bulk_read_back(s, 4, set_word());
    assert(r.subrange(4 + n1, 4 + n1 + n2) =~= b2);
    lemma_piece_of_piece(s, 0, r, 4 + n1, b2);
    law_bulk_read_back(s, 4 + n1, key);
    assert(r.subrange(4 + n1 + n2, 4 + n1 + n2 + n3) =~= b3);
    lemma_piece_of_piece(s, 0, r, 4 + n1 + n2, b3);
    law_bulk_read_back(s, 4 + n1 + n2, value);
    let i0 = Seq::<Seq<u8>>::empty();
    assert(bulks_from(s, 4, 0) == Ok::<Option<(Seq<Seq<u8>>, int)>, Seq<char>>(Some((i0, 4int))));
    assert(bulks_from(s, 4, 1) == Ok::<Option<(Seq<Seq<u8>>, int)>, Seq<char>>(
        Some((i0.push(set_word()), 4 + n1)),
    ));
    assert(bulks_from(s, 4, 2) == Ok::<Option<(Seq<Seq<u8>>, int)>, Seq<char>>(
        Some((i0.push(set_word()).push(key), 4 + n1 + n2)),
    ));
    assert(bulks_from(s, 4, 3) == Ok::<Option<(Seq<Seq<u8>>, int)>, Seq<char>>(
        Some((i0.push(set_word()).push(key).push(value), 4 + n1 + n2 + n3)),
    ));
    assert(Seq::<Seq<u8>>::empty().push(set_word()).push(key).push(value) =~= seq![set_word(), key, value]);
}

} // verus!
