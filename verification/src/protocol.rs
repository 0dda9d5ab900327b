//! RESP frames and the decoder that reads requests out of a connection buffer.

use vstd::prelude::*;

verus! {

/// A frame of the RESP wire protocol.
#[derive(Debug)]
pub enum Frame {
    Simple(String),
    Error(String),
    Bulk(Vec<u8>),
    Null,
    Array(Vec<Frame>),
}

/// The message the decoder gives for a length that is not a decimal number
/// that fits an `i64`.
pub open spec fn invalid_length_message() -> Seq<char> {
    "Invalid length"@
}

/// The message the decoder gives where an array element is not a bulk string.
pub open spec fn expected_bulk_message() -> Seq<char> {
    "Expected bulk string"@
}

/// An ASCII digit.
pub open spec fn is_digit(b: u8) -> bool {
    48u8 <= b <= 57u8
}

/// The decimal number that starts at `pos` and ends at a carriage return,
/// read digit by digit onto `acc`, with the position just past the two bytes
/// of the line ending (the second is skipped, not checked). `Ok(None)` when
/// the bytes stop before the line ending is complete: more must be read.
/// `Err` when a byte before the carriage return is not a digit, or the value
/// leaves `i64`.
pub open spec fn number_from(s: Seq<u8>, pos: int, acc: int) -> Result<Option<(int, int)>, Seq<char>>
    decreases s.len() - pos,
{
    if pos < 0 || pos >= s.len() {
        Ok(None)
    } else if s[pos] == 13u8 {
        if pos + 2 <= s.len() {
            Ok(Some((acc, pos + 2)))
        } else {
            Ok(None)
        }
    } else if !is_digit(s[pos]) {
        Err(invalid_length_message())
    } else if acc * 10 + (s[pos] - 48) > i64::MAX {
        Err(invalid_length_message())
    } else {
        number_from(s, pos + 1, acc * 10 + (s[pos] - 48))
    }
}

/// Reads the decimal number that starts at `pos` (see `number_from`): the
/// number with the position just past its line ending, `Ok(None)` when more
/// bytes are needed, or `Err` for a malformed length.
pub fn read_number(buf: &[u8], pos: usize) -> (res: Result<Option<(i64, usize)>, String>)
    ensures
        match res {
            Ok(Some((n, p))) => number_from(buf@, pos as int, 0) == Ok::<Option<(int, int)>, Seq<char>>(
                Some((n as int, p as int)),
            ) && 0 <= n && p <= buf@.len(),
            Ok(None) => number_from(buf@, pos as int, 0) == Ok::<Option<(int, int)>, Seq<char>>(None),
            Err(msg) => number_from(buf@, pos as int, 0) == Err::<Option<(int, int)>, Seq<char>>(msg@),
        },
{
    let mut num: i64 = 0;
    let mut p: usize = pos;
    loop
        invariant
            pos <= p,
            0 <= num,
            number_from(buf@, p as int, num as int) == number_from(buf@, pos as int, 0),
        decreases buf@.len() - p,
    {
        if p >= buf.len() {
            return Ok(None);
        }
        let b = buf[p];
        if b == 13u8 {
            if buf.len() - p >= 2 {
                return Ok(Some((num, p + 2)));
            } else {
                return Ok(None);
            }
        }
        if b < 48u8 || b > 57u8 {
            return Err(String::from_str("Invalid length"));
        }
        let digit: i64 = (b - 48u8) as i64;
        if num > (i64::MAX - digit) / 10 {
            return Err(String::from_str("Invalid length"));
        }
        num = num * 10 + digit;
        p = p + 1;
    }
}

/// The bulk string that starts at `pos`: the payload and the position just
/// past the two bytes that follow it (skipped, not checked); `Ok(None)` when
/// the bytes stop before it is complete; `Err` when the byte at `pos` is not
/// `'$'` or the length is malformed.
pub open spec fn bulk_from(s: Seq<u8>, pos: int) -> Result<Option<(Seq<u8>, int)>, Seq<char>> {
    if pos < 0 || pos >= s.len() {
        Ok(None)
    } else if s[pos] != 36u8 {
        Err(expected_bulk_message())
    } else {
        match number_from(s, pos + 1, 0) {
            Err(m) => Err(m),
            Ok(None) => Ok(None),
            Ok(Some((len, p))) => if p + len + 2 > s.len() {
                Ok(None)
            } else {
                Ok(Some((s.subrange(p, p + len), p + len + 2)))
            },
        }
    }
}

/// The first `n` bulk strings read one after another from `pos`, with the
/// position after the last one; `Ok(None)` and `Err` as in `bulk_from`, for
/// the first of them that is not read.
pub open spec fn bulks_from(s: Seq<u8>, pos: int, n: nat) -> Result<Option<(Seq<Seq<u8>>, int)>, Seq<char>>
    decreases n,
{
    if n == 0 {
        Ok(Some((Seq::empty(), pos)))
    } else {
        match bulks_from(s, pos, (n - 1) as nat) {
            Err(m) => Err(m),
            Ok(None) => Ok(None),
            Ok(Some((items, p))) => match bulk_from(s, p) {
                Err(m) => Err(m),
                Ok(None) => Ok(None),
                Ok(Some((item, q))) => Ok(Some((items.push(item), q))),
            },
        }
    }
}

/// Once a bulk string is refused or incomplete, reading more of them ends the
/// same way.
pub proof fn lemma_bulks_stop(s: Seq<u8>, pos: int, i: nat, n: nat)
    requires
        i <= n,
        !(bulks_from(s, pos, i) matches Ok(Some(_))),
    ensures
        bulks_from(s, pos, n) == bulks_from(s, pos, i),
    decreases n - i,
{
    if i < n {
        lemma_bulks_stop(s, pos, i, (n - 1) as nat);
    }
}

/// Reads the bulk string that starts at `pos` (see `bulk_from`).
pub fn parse_bulk_string(buf: &[u8], pos: usize) -> (res: Result<Option<(Vec<u8>, usize)>, String>)
    ensures
        match res {
            Ok(Some((data, next))) => bulk_from(buf@, pos as int) == Ok::<Option<(Seq<u8>, int)>, Seq<char>>(
                Some((data@, next as int)),
            ),
            Ok(None) => bulk_from(buf@, pos as int) == Ok::<Option<(Seq<u8>, int)>, Seq<char>>(None),
            Err(msg) => bulk_from(buf@, pos as int) == Err::<Option<(Seq<u8>, int)>, Seq<char>>(msg@),
        },
{
    if pos >= buf.len() {
        return Ok(None);
    }
    if buf[pos] != 36u8 {
        return Err(String::from_str("Expected bulk string"));
    }
    let (len, p) = match read_number(buf, pos + 1) {
        Err(msg) => {
            return Err(msg);
        },
        Ok(None) => {
            return Ok(None);
        },
        Ok(Some(r)) => r,
    };
    let room: usize = buf.len() - p;
    if room < 2 || (len as u64) > ((room - 2) as u64) {
        return Ok(None);
    }
    let end: usize = p + len as usize;
    let mut data: Vec<u8> = Vec::new();
    let mut k: usize = p;
    while k < end
        invariant
            p <= k <= end,
            end + 2 <= buf@.len(),
            data@ == buf@.subrange(p as int, k as int),
        decreases end - k,
    {
        data.push(buf[k]);
        k = k + 1;
    }
    Ok(Some((data, end + 2)))
}

/// What the decoder makes of a whole buffer: `Ok(None)` when no complete
/// request is there yet (the buffer is empty, does not begin with `'*'`, or
/// stops before the array is complete), `Err` when a length is malformed or an
/// element is not a bulk string, else the elements of the array and the
/// number of bytes it takes.
pub open spec fn frame_from(s: Seq<u8>) -> Result<Option<(Seq<Seq<u8>>, int)>, Seq<char>> {
    if s.len() == 0 || s[0] != 42u8 {
        Ok(None)
    } else {
        match number_from(s, 1, 0) {
            Err(m) => Err(m),
            Ok(None) => Ok(None),
            Ok(Some((n, p))) => bulks_from(s, p, n as nat),
        }
    }
}

/// `f` is an array whose elements are the bulk strings `items`, in order.
pub open spec fn holds_bulks(f: Frame, items: Seq<Seq<u8>>) -> bool {
    match f {
        Frame::Array(v) => {
            &&& v@.len() == items.len()
            &&& forall|j: int|
                0 <= j < items.len() ==> (#[trigger] v@[j] matches Frame::Bulk(b) && b@ == items[j])
        },
        _ => false,
    }
}

/// The decoder's result on `s`, read from what `parse_frame` gave.
pub open spec fn decoded_as(res: Result<Option<(Frame, usize)>, String>, s: Seq<u8>) -> bool {
    match res {
        Ok(None) => frame_from(s) == Ok::<Option<(Seq<Seq<u8>>, int)>, Seq<char>>(None),
        Ok(Some((f, n))) => frame_from(s) matches Ok(Some((items, m))) && m == n && holds_bulks(
            f,
            items,
        ),
        Err(msg) => frame_from(s) == Err::<Option<(Seq<Seq<u8>>, int)>, Seq<char>>(msg@),
    }
}

/// Reads the array of bulk strings at the start of `buf`, which begins with
/// `'*'` (see `frame_from`).
pub fn parse_array(buf: &[u8]) -> (res: Result<Option<(Frame, usize)>, String>)
    requires
        buf@.len() > 0,
        buf@[0] == 42u8,
    ensures
        decoded_as(res, buf@),
{
    let (n, p0) = match read_number(buf, 1) {
        Err(msg) => {
            return Err(msg);
        },
        Ok(None) => {
            return Ok(None);
        },
        Ok(Some(r)) => r,
    };
    let count: u64 = n as u64;
    let mut frames: Vec<Frame> = Vec::new();
    let mut p: usize = p0;
    let mut i: u64 = 0;
    let ghost mut items: Seq<Seq<u8>> = Seq::empty();
    while i < count
        invariant
            number_from(buf@, 1, 0) == Ok::<Option<(int, int)>, Seq<char>>(
                Some((count as int, p0 as int)),
            ),
            buf@.len() > 0,
            buf@[0] == 42u8,
            i <= count,
            bulks_from(buf@, p0 as int, i as nat) == Ok::<Option<(Seq<Seq<u8>>, int)>, Seq<char>>(
                Some((items, p as int)),
            ),
            frames@.len() == items.len(),
            forall|j: int|
                0 <= j < items.len() ==> (#[trigger] frames@[j] matches Frame::Bulk(b) && b@
                    == items[j]),
        decreases count - i,
    {
        match parse_bulk_string(buf, p) {
            Err(msg) => {
                proof {
                    lemma_bulks_stop(buf@, p0 as int, (i + 1) as nat, count as nat);
                }
                return Err(msg);
            },
            Ok(None) => {
                proof {
                    lemma_bulks_stop(buf@, p0 as int, (i + 1) as nat, count as nat);
                }
                return Ok(None);
            },
            Ok(Some((data, q))) => {
                proof {
                    items = items.push(data@);
                }
                frames.push(Frame::Bulk(data));
                p = q;
                i = i + 1;
            },
        }
    }
    Ok(Some((Frame::Array(frames), p)))
}

/// Decodes the request at the start of a connection buffer: `Ok(None)` when
/// no complete request is there yet (nothing is to be consumed),
/// `Ok(Some((frame, consumed)))` for an array of bulk strings, and `Err` for
/// a malformed length or an element that is not a bulk string.
pub fn parse_frame(buf: &[u8]) -> (res: Result<Option<(Frame, usize)>, String>)
    ensures
        decoded_as(res, buf@),
{
    if buf.len() == 0 {
        return Ok(None);
    }
    if buf[0] != 42u8 {
        return Ok(None);
    }
    parse_array(buf)
}

/// The decimal digits of `n`, most significant first, as ASCII bytes.
pub open spec fn decimal(n: nat) -> Seq<u8>
    decreases n,
{
    if n < 10 {
        seq![(48 + n) as u8]
    } else {
        decimal(n / 10).push((48 + n % 10) as u8)
    }
}

/// The decimal digits of `n` as ASCII bytes.
pub fn decimal_bytes(n: usize) -> (res: Vec<u8>)
    ensures
        res@ == decimal(n as nat),
    decreases n,
{
    let digit: u8 = (n % 10) as u8 + 48u8;
    if n < 10 {
        let mut v: Vec<u8> = Vec::new();
        v.push(digit);
        v
    } else {
        let mut v = decimal_bytes(n / 10);
        v.push(digit);
        v
    }
}

/// The bytes `"\r\n"`.
pub open spec fn crlf() -> Seq<u8> {
    seq![13u8, 10u8]
}

/// A bulk string on the wire: `'$'`, the payload's length in decimal, a line
/// ending, the payload and another line ending.
pub open spec fn bulk_bytes(data: Seq<u8>) -> Seq<u8> {
    seq![36u8] + decimal(data.len()) + crlf() + data + crlf()
}

/// The bytes written for a frame, `None` for an array, which is not written.
pub open spec fn frame_bytes(f: Frame) -> Option<Seq<u8>> {
    match f {
        Frame::Simple(s) => Some(seq![43u8] + vstd::utf8::encode_utf8(s@) + crlf()),
        Frame::Error(e) => Some(seq![45u8] + vstd::utf8::encode_utf8(e@) + crlf()),
        Frame::Bulk(data) => Some(bulk_bytes(data@)),
        Frame::Null => Some(seq![36u8, 45u8, 49u8, 13u8, 10u8]),
        Frame::Array(_) => None,
    }
}

/// Appends `bytes` to the end of `out`.
pub fn append_bytes(out: &mut Vec<u8>, bytes: &[u8])
    ensures
        final(out)@ == old(out)@ + bytes@,
{
    let mut k: usize = 0;
    while k < bytes.len()
        invariant
            k <= bytes@.len(),
            out@ == old(out)@ + bytes@.subrange(0, k as int),
        decreases bytes@.len() - k,
    {
        out.push(bytes[k]);
        k = k + 1;
        proof {
            assert(bytes@.subrange(0, k as int) == bytes@.subrange(0, k - 1).push(bytes@[k - 1]));
        }
    }
    proof {
        assert(bytes@.subrange(0, bytes@.len() as int) == bytes@);
    }
}

/// Appends the bulk-string encoding of `data` to the end of `out`.
pub fn append_bulk(out: &mut Vec<u8>, data: &[u8])
    ensures
        final(out)@ == old(out)@ + bulk_bytes(data@),
{
    out.push(36u8);
    let digits = decimal_bytes(data.len());
    append_bytes(out, digits.as_slice());
    out.push(13u8);
    out.push(10u8);
    append_bytes(out, data);
    out.push(13u8);
    out.push(10u8);
    proof {
        assert(final(out)@ =~= old(out)@ + bulk_bytes(data@));
    }
}

fn append_line(out: &mut Vec<u8>, marker: u8, text: &String)
    ensures
        final(out)@ == old(out)@ + seq![marker] + vstd::utf8::encode_utf8(text@) + crlf(),
{
    out.push(marker);
    append_bytes(out, text.as_str().as_bytes());
    out.push(13u8);
    out.push(10u8);
    proof {
        assert(final(out)@ =~= old(out)@ + seq![marker] + vstd::utf8::encode_utf8(text@) + crlf());
    }
}

/// The message returned when asked to write an array.
pub open spec fn array_write_message() -> Seq<char> {
    "Array write not implemented"@
}

/// The bytes that are written to a connection for `frame`; arrays are not
/// written and give `Err`.
pub fn encode_frame(frame: &Frame) -> (res: Result<Vec<u8>, String>)
    ensures
        match res {
            Ok(bytes) => frame_bytes(*frame) == Some(bytes@),
            Err(msg) => frame_bytes(*frame) is None && msg@ == array_write_message(),
        },
{
    let mut out: Vec<u8> = Vec::new();
    match frame {
        Frame::Simple(s) => {
            append_line(&mut out, 43u8, s);
        },
        Frame::Error(e) => {
            append_line(&mut out, 45u8, e);
        },
        Frame::Bulk(data) => {
            append_bulk(&mut out, data.as_slice());
        },
        Frame::Null => {
            out.push(36u8);
            out.push(45u8);
            out.push(49u8);
            out.push(13u8);
            out.push(10u8);
        },
        Frame::Array(_) => {
            return Err(String::from_str("Array write not implemented"));
        },
    }
    proof {
        assert(frame_bytes(*frame) == Some(out@));
    }
    Ok(out)
}

/// What a connection yields when its peer closes the stream while `buffer`
/// holds the bytes not yet decoded: the end of the requests when nothing is
/// left over, else an error, since a request was cut off.
pub fn end_of_stream(buffer: &[u8]) -> (res: Result<Option<Frame>, String>)
    ensures
        buffer@.len() == 0 ==> res matches Ok(None),
        buffer@.len() > 0 ==> (res matches Err(msg) && msg@ == "connection closed unexpectedly"@),
{
    if buffer.len() == 0 {
        Ok(None)
    } else {
        Err(String::from_str("connection closed unexpectedly"))
    }
}

/// The value of the digit bytes `d` read onto `acc`, each taken at its
/// distance from `'0'`.
pub open spec fn digits_value(d: Seq<u8>, acc: int) -> int
    decreases d.len(),
{
    if d.len() == 0 {
        acc
    } else {
        digits_value(d.drop_first(), acc * 10 + (d[0] - 48))
    }
}

/// Every byte of `d` is an ASCII digit.
pub open spec fn all_digits(d: Seq<u8>) -> bool {
    forall|i: int| 0 <= i < d.len() ==> 48u8 <= #[trigger] d[i] <= 57u8
}

pub proof fn lemma_digits_value_grows(d: Seq<u8>, acc: int)
    requires
        all_digits(d),
        acc >= 0,
    ensures
        digits_value(d, acc) >= acc,
    decreases d.len(),
{
    if d.len() > 0 {
        assert(all_digits(d.drop_first()));
        lemma_digits_value_grows(d.drop_first(), acc * 10 + (d[0] - 48));
    }
}

proof fn lemma_digits_value_push(d: Seq<u8>, x: u8, acc: int)
    ensures
        digits_value(d.push(x), acc) == digits_value(d, acc) * 10 + (x - 48),
    decreases d.len(),
{
    if d.len() == 0 {
        assert(d.push(x).drop_first() =~= Seq::<u8>::empty());
        assert(d.push(x)[0] == x);
        reveal_with_fuel(digits_value, 2);
    } else {
        assert(d.push(x).drop_first() =~= d.drop_first().push(x));
        assert(d.push(x)[0] == d[0]);
        lemma_digits_value_push(d.drop_first(), x, acc * 10 + (d[0] - 48));
    }
}

/// The decimal digits of `n` are digits, at least one of them, and read
/// back as `n`.
pub proof fn lemma_decimal(n: nat)
    ensures
        all_digits(decimal(n)),
        decimal(n).len() >= 1,
        digits_value(decimal(n), 0) == n,
    decreases n,
{
    if n < 10 {
        assert(decimal(n).drop_first() =~= Seq::<u8>::empty());
        reveal_with_fuel(digits_value, 2);
    } else {
        lemma_decimal(n / 10);
        lemma_digits_value_push(decimal(n / 10), (48 + n % 10) as u8, 0);
        assert(n == (n / 10) * 10 + n % 10);
        assert(all_digits(decimal(n))) by {
            let d = decimal(n / 10);
            assert forall|i: int| 0 <= i < decimal(n).len() implies 48u8 <= #[trigger] decimal(n)[i]
                <= 57u8 by {
                if i < d.len() {
                    assert(decimal(n)[i] == d[i]);
                }
            }
        }
    }
}

/// The number reader reads digits followed by a line ending as their value.
pub proof fn lemma_number_from_digits(s: Seq<u8>, pos: int, d: Seq<u8>, acc: int)
    requires
        0 <= pos,
        pos + d.len() + 2 <= s.len(),
        s.subrange(pos, pos + d.len()) == d,
        s[pos + d.len()] == 13u8,
        all_digits(d),
        0 <= acc,
        digits_value(d, acc) <= i64::MAX,
    ensures
        number_from(s, pos, acc) == Ok::<Option<(int, int)>, Seq<char>>(
            Some((digits_value(d, acc), pos + d.len() + 2)),
        ),
    decreases d.len(),
{
    if d.len() > 0 {
        assert(s[pos] == d[0]);
        let acc2 = acc * 10 + (d[0] - 48);
        assert(all_digits(d.drop_first()));
        lemma_digits_value_grows(d.drop_first(), acc2);
        assert(s.subrange(pos + 1, pos + 1 + d.drop_first().len()) =~= d.drop_first());
        lemma_number_from_digits(s, pos + 1, d.drop_first(), acc2);
    }
}

/// Law: a bulk string, as it is written, is read back whole, from wherever
/// it stands in the bytes.
pub proof fn law_bulk_read_back(s: Seq<u8>, pos: int, data: Seq<u8>)
    requires
        0 <= pos,
        pos + bulk_bytes(data).len() <= s.len(),
        s.subrange(pos, pos + bulk_bytes(data).len()) == bulk_bytes(data),
        data.len() <= i64::MAX,
    ensures
        bulk_from(s, pos) == Ok::<Option<(Seq<u8>, int)>, Seq<char>>(
            Some((data, pos + bulk_bytes(data).len())),
        ),
{
    let d = decimal(data.len());
    let b = bulk_bytes(data);
    lemma_decimal(data.len());
    assert(b[0] == s[pos]);
    assert(s.subrange(pos + 1, pos + 1 + d.len()) =~= d) by {
        assert forall|i: int| 0 <= i < d.len() implies s.subrange(pos + 1, pos + 1 + d.len())[i]
            == d[i] by {
            assert(b[1 + i] == d[i]);
            assert(s[pos + 1 + i] == b[1 + i]);
        }
    }
    assert(b[1 + d.len() as int] == 13u8);
    assert(s[pos + 1 + d.len()] == 13u8);
    lemma_number_from_digits(s, pos + 1, d, 0);
    let p = pos + 1 + d.len() + 2;
    assert(s.subrange(p, p + data.len()) =~= data) by {
        assert forall|i: int| 0 <= i < data.len() implies s.subrange(p, p + data.len())[i]
            == data[i] by {
            assert(b[1 + d.len() as int + 2 + i] == data[i]);
            assert(s[p + i] == b[1 + d.len() as int + 2 + i]);
        }
    }
}

/// A piece of a piece of `s` is a piece of `s`.
pub proof fn lemma_piece_of_piece(s: Seq<u8>, pos: int, whole: Seq<u8>, off: int, part: Seq<u8>)
    requires
        0 <= pos,
        0 <= off,
        pos + whole.len() <= s.len(),
        off + part.len() <= whole.len(),
        s.subrange(pos, pos + whole.len()) == whole,
        whole.subrange(off, off + part.len()) == part,
    ensures
        s.subrange(pos + off, pos + off + part.len()) == part,
{
    assert forall|i: int| 0 <= i < part.len() implies s.subrange(pos + off, pos + off + part.len())[i]
        == part[i] by {
        assert(whole.subrange(off, off + part.len())[i] == whole[off + i]);
        assert(s.subrange(pos, pos + whole.len())[off + i] == s[pos + off + i]);
    }
    assert(s.subrange(pos + off, pos + off + part.len()) =~= part);
}


} // verus!
