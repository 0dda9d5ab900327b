//! The in-memory key/value store, whose entries may carry an expiry.

use vstd::prelude::*;
use std::time::Instant;
use crate::protocol::append_bytes;

verus! {

/// The standard library's monotonic clock reading, carried through opaquely.
#[verifier::external_type_specification]
#[verifier::external_body]
pub struct ExInstant(Instant);

/// The most nanoseconds a `std::time::Duration` holds: `u64::MAX` seconds
/// and 999,999,999 nanoseconds.
pub open spec fn max_duration_nanos() -> int {
    18446744073709551615int * 1000000000 + 999999999
}

/// Calls `Instant::now`. Nothing is claimed of the reading.
#[verifier::external_body]
fn instant_now() -> (res: Instant) {
    Instant::now()
}

/// Calls `Instant::elapsed` and gives the duration in nanoseconds
/// (`Duration::as_nanos`). The reading depends on the time of the call, so
/// the contract claims only that it fits a `Duration`, as the documentation
/// of `Duration` bounds it; the reading itself is left unsaid.
#[verifier::external_body]
fn elapsed_nanos(origin: &Instant) -> (res: u128)
    ensures
        res <= max_duration_nanos(),
{
    origin.elapsed().as_nanos()
}

/// A monotonic clock that reads the nanoseconds since it was started.
#[derive(Clone, Copy)]
pub struct Clock {
    origin: Instant,
}

impl Clock {
    /// Starts a clock at the present instant.
    pub fn start() -> (res: Clock) {
        Clock { origin: instant_now() }
    }

    /// The nanoseconds since the clock was started.
    pub fn now(&self) -> (res: u128)
        ensures
            res <= max_duration_nanos(),
    {
        elapsed_nanos(&self.origin)
    }
}


/// A stored value and, when it expires, the reading of the store's clock
/// (nanoseconds since the clock started) after which it has expired.
#[derive(Clone, Debug)]
pub struct Value {
    pub data: Vec<u8>,
    pub expires_at: Option<u128>,
}

impl View for Value {
    type V = (Seq<u8>, Option<u128>);

    open spec fn view(&self) -> (Seq<u8>, Option<u128>) {
        (self.data@, self.expires_at)
    }
}

/// No two entries have the same key.
pub open spec fn keys_distinct(s: Seq<(String, Value)>) -> bool {
    forall|i: int, j: int|
        0 <= i < s.len() && 0 <= j < s.len() && i != j ==> #[trigger] s[i].0@ != #[trigger] s[j].0@
}

/// The map that a list of entries stands for.
pub open spec fn entries_map(s: Seq<(String, Value)>) -> Map<Seq<char>, (Seq<u8>, Option<u128>)> {
    Map::new(
        |k: Seq<char>| exists|i: int| 0 <= i < s.len() && #[trigger] s[i].0@ == k,
        |k: Seq<char>| s[choose|i: int| 0 <= i < s.len() && #[trigger] s[i].0@ == k].1@,
    )
}

/// Each entry of a list with distinct keys is in the map it stands for.
pub proof fn lemma_entries_map_at(s: Seq<(String, Value)>, i: int)
    requires
        keys_distinct(s),
        0 <= i < s.len(),
    ensures
        entries_map(s).contains_key(s[i].0@),
        entries_map(s)[s[i].0@] == s[i].1@,
{
    let k = s[i].0@;
    assert(exists|j: int| 0 <= j < s.len() && #[trigger] s[j].0@ == k);
    let j = choose|j: int| 0 <= j < s.len() && #[trigger] s[j].0@ == k;
    assert(i == j);
}

/// A list with distinct keys stands for `m` when it holds each of `m`'s
/// entries and nothing else.
pub proof fn lemma_entries_map_eq(t: Seq<(String, Value)>, m: Map<Seq<char>, (Seq<u8>, Option<u128>)>)
    requires
        keys_distinct(t),
        forall|j: int|
            0 <= j < t.len() ==> m.contains_key(#[trigger] t[j].0@) && m[t[j].0@] == t[j].1@,
        forall|k: Seq<char>|
            m.contains_key(k) ==> exists|j: int| 0 <= j < t.len() && #[trigger] t[j].0@ == k,
    ensures
        entries_map(t) == m,
{
    assert forall|k: Seq<char>| #[trigger] entries_map(t).contains_key(k) == m.contains_key(k) by {
        if m.contains_key(k) {
            let j = choose|j: int| 0 <= j < t.len() && #[trigger] t[j].0@ == k;
            lemma_entries_map_at(t, j);
        }
    }
    assert forall|k: Seq<char>| #[trigger] m.contains_key(k) implies entries_map(t)[k] == m[k] by {
        let j = choose|j: int| 0 <= j < t.len() && #[trigger] t[j].0@ == k;
        lemma_entries_map_at(t, j);
    }
    assert(entries_map(t) =~= m);
}

/// Read at clock reading `now`, a value has expired: it carries an expiry
/// that `now` is past.
pub open spec fn expired_at(v: (Seq<u8>, Option<u128>), now: int) -> bool {
    v.1 matches Some(e) && now > e
}

/// A value survives a sweep at clock reading `now`: it carries no expiry, or
/// one still ahead of `now`.
pub open spec fn survives_sweep(v: (Seq<u8>, Option<u128>), now: int) -> bool {
    v.1 matches Some(e) ==> e > now
}

/// The entries of `m` that survive a sweep at `now`.
pub open spec fn swept(m: Map<Seq<char>, (Seq<u8>, Option<u128>)>, now: int) -> Map<
    Seq<char>,
    (Seq<u8>, Option<u128>),
> {
    Map::new(|k: Seq<char>| m.contains_key(k) && survives_sweep(m[k], now), |k: Seq<char>| m[k])
}

/// The expiry of a value set at clock reading `now` with a time to live of
/// `ttl` seconds.
pub open spec fn expiry_for(ttl: Option<u64>, now: int) -> Option<u128> {
    match ttl {
        None => None,
        Some(secs) => Some((now + secs * 1000000000) as u128),
    }
}

/// Whether two strings are the same text.
fn same_text(a: &str, b: &str) -> (res: bool)
    ensures
        res == (a@ == b@),
{
    let x = a.as_bytes();
    let y = b.as_bytes();
    proof {
        vstd::utf8::encode_utf8_decode_utf8(a@);
        vstd::utf8::encode_utf8_decode_utf8(b@);
    }
    if x.len() != y.len() {
        return false;
    }
    let mut k: usize = 0;
    while k < x.len()
        invariant
            x@.len() == y@.len(),
            x@ == vstd::utf8::encode_utf8(a@),
            y@ == vstd::utf8::encode_utf8(b@),
            k <= x@.len(),
            x@.subrange(0, k as int) == y@.subrange(0, k as int),
        decreases x@.len() - k,
    {
        if x[k] != y[k] {
            assert(x@[k as int] != y@[k as int]);
            return false;
        }
        k = k + 1;
        assert(x@.subrange(0, k as int) =~= y@.subrange(0, k as int)) by {
            assert(x@.subrange(0, k as int) =~= x@.subrange(0, k - 1).push(x@[k - 1]));
            assert(y@.subrange(0, k as int) =~= y@.subrange(0, k - 1).push(y@[k - 1]));
        }
    }
    assert(x@ =~= y@) by {
        assert(x@ =~= x@.subrange(0, x@.len() as int));
        assert(y@ =~= y@.subrange(0, y@.len() as int));
    }
    true
}

/// A copy of a byte string.
pub fn copy_bytes(bytes: &[u8]) -> (res: Vec<u8>)
    ensures
        res@ == bytes@,
{
    let mut out: Vec<u8> = Vec::new();
    append_bytes(&mut out, bytes);
    out
}

/// A copy of a stored value.
pub fn copy_value(v: &Value) -> (res: Value)
    ensures
        res@ == v@,
{
    Value { data: copy_bytes(v.data.as_slice()), expires_at: v.expires_at }
}

/// Where the entry for `key` is held in `data`.
fn find_key(data: &Vec<(String, Value)>, key: &str) -> (res: Option<usize>)
    ensures
        match res {
            Some(i) => i < data@.len() && data@[i as int].0@ == key@,
            None => !entries_map(data@).contains_key(key@),
        },
{
    let mut i: usize = 0;
    while i < data.len()
        invariant
            i <= data@.len(),
            forall|j: int| 0 <= j < i ==> #[trigger] data@[j].0@ != key@,
        decreases data@.len() - i,
    {
        if same_text(data[i].0.as_str(), key) {
            return Some(i);
        }
        i = i + 1;
    }
    None
}

/// Sets `key` to `value` in a list of entries with distinct keys.
fn put_entry(data: &mut Vec<(String, Value)>, key: String, value: Value)
    requires
        keys_distinct(old(data)@),
    ensures
        keys_distinct(final(data)@),
        entries_map(final(data)@) == entries_map(old(data)@).insert(key@, value@),
{
    let ghost k = key@;
    let ghost entry = value@;
    let ghost before = data@;
    match find_key(data, key.as_str()) {
        Some(i) => {
            data.set(i, (key, value));
            proof {
                let after = data@;
                assert forall|a: int, b: int|
                    0 <= a < after.len() && 0 <= b < after.len() && a != b implies #[trigger] after[a].0@
                    != #[trigger] after[b].0@ by {
                    assert(after[a].0@ == (if a == i { k } else { before[a].0@ }));
                    assert(after[b].0@ == (if b == i { k } else { before[b].0@ }));
                    assert(before[i as int].0@ == k);
                    if a != i && b != i {
                        assert(before[a].0@ != before[b].0@);
                    } else if a == i {
                        assert(before[b].0@ != before[i as int].0@);
                    } else {
                        assert(before[a].0@ != before[i as int].0@);
                    }
                }
                let m = entries_map(before).insert(k, entry);
                assert forall|j: int| 0 <= j < after.len() implies m.contains_key(
                    #[trigger] after[j].0@,
                ) && m[after[j].0@] == after[j].1@ by {
                    if j != i {
                        lemma_entries_map_at(before, j);
                        assert(before[j].0@ != before[i as int].0@);
                    }
                }
                assert forall|q: Seq<char>| m.contains_key(q) implies exists|j: int|
                    0 <= j < after.len() && #[trigger] after[j].0@ == q by {
                    if q == k {
                        assert(after[i as int].0@ == q);
                    } else {
                        let j = choose|j: int| 0 <= j < before.len() && #[trigger] before[j].0@ == q;
                        assert(after[j].0@ == q);
                    }
                }
                lemma_entries_map_eq(after, m);
            }
        },
        None => {
            data.push((key, value));
            proof {
                let after = data@;
                let n = before.len() as int;
                assert(forall|j: int| 0 <= j < n ==> #[trigger] before[j].0@ != k);
                assert forall|a: int, b: int|
                    0 <= a < after.len() && 0 <= b < after.len() && a != b implies #[trigger] after[a].0@
                    != #[trigger] after[b].0@ by {
                    if a < n && b < n {
                        assert(before[a].0@ != before[b].0@);
                    } else if a == n {
                        assert(before[b].0@ != k);
                    } else {
                        assert(before[a].0@ != k);
                    }
                }
                let m = entries_map(before).insert(k, entry);
                assert forall|j: int| 0 <= j < after.len() implies m.contains_key(
                    #[trigger] after[j].0@,
                ) && m[after[j].0@] == after[j].1@ by {
                    if j < n {
                        lemma_entries_map_at(before, j);
                    }
                }
                assert forall|q: Seq<char>| m.contains_key(q) implies exists|j: int|
                    0 <= j < after.len() && #[trigger] after[j].0@ == q by {
                    if q == k {
                        assert(after[n].0@ == q);
                    } else {
                        let j = choose|j: int| 0 <= j < before.len() && #[trigger] before[j].0@ == q;
                        assert(after[j].0@ == q);
                    }
                }
                lemma_entries_map_eq(after, m);
            }
        },
    }
}

/// Removes the entry held at `i` from a list of entries with distinct keys.
fn remove_entry(data: &mut Vec<(String, Value)>, i: usize)
    requires
        keys_distinct(old(data)@),
        i < old(data)@.len(),
    ensures
        keys_distinct(final(data)@),
        entries_map(final(data)@) == entries_map(old(data)@).remove(old(data)@[i as int].0@),
{
    let ghost before = data@;
    let ghost k = before[i as int].0@;
    data.remove(i);
    proof {
        let after = data@;
        assert forall|j: int| 0 <= j < after.len() implies #[trigger] after[j] == before[
            if j < i { j } else { j + 1 }
        ] by {}
        assert forall|a: int, b: int|
            0 <= a < after.len() && 0 <= b < after.len() && a != b implies #[trigger] after[a].0@
            != #[trigger] after[b].0@ by {
            let a2 = if a < i { a } else { a + 1 };
            let b2 = if b < i { b } else { b + 1 };
            assert(after[a] == before[a2]);
            assert(after[b] == before[b2]);
            assert(before[a2].0@ != before[b2].0@);
        }
        let m = entries_map(before).remove(k);
        assert forall|j: int| 0 <= j < after.len() implies m.contains_key(
            #[trigger] after[j].0@,
        ) && m[after[j].0@] == after[j].1@ by {
            let j2 = if j < i { j } else { j + 1 };
            assert(after[j] == before[j2]);
            lemma_entries_map_at(before, j2);
            assert(before[j2].0@ != before[i as int].0@);
        }
        assert forall|q: Seq<char>| m.contains_key(q) implies exists|j: int|
            0 <= j < after.len() && #[trigger] after[j].0@ == q by {
            let j = choose|j: int| 0 <= j < before.len() && #[trigger] before[j].0@ == q;
            assert(j != i);
            let j3 = if j < i { j } else { j - 1 };
            assert(after[j3] == before[j]);
        }
        lemma_entries_map_eq(after, m);
    }
}

/// The store: a map from keys to values, each of which may expire.
pub struct Store {
    data: Vec<(String, Value)>,
    clock: Clock,
    latest: u128,
}

impl View for Store {
    type V = Map<Seq<char>, (Seq<u8>, Option<u128>)>;

    closed spec fn view(&self) -> Map<Seq<char>, (Seq<u8>, Option<u128>)> {
        entries_map(self.data@)
    }
}

impl Store {
    /// The store's internal invariant: no key is held twice, and the latest
    /// clock reading fits a `Duration`.
    #[verifier::type_invariant]
    spec fn well_formed(&self) -> bool {
        &&& keys_distinct(self.data@)
        &&& self.latest <= max_duration_nanos()
    }

    /// The latest reading the store has taken of its clock (0 before the
    /// first): every reading the store takes later is no earlier than it.
    pub closed spec fn latest_reading(&self) -> u128 {
        self.latest
    }

    /// An empty store, whose clock starts now.
    pub fn new() -> (res: Store)
        ensures
            res@ == Map::<Seq<char>, (Seq<u8>, Option<u128>)>::empty(),
            res.latest_reading() == 0,
    {
        let res = Store { data: Vec::new(), clock: Clock::start(), latest: 0 };
        assert(res@ =~= Map::<Seq<char>, (Seq<u8>, Option<u128>)>::empty());
        res
    }

    /// The clock against which the store's expiries are read.
    pub closed spec fn clock_spec(&self) -> Clock {
        self.clock
    }

    /// The clock against which the store's expiries are read.
    pub fn clock(&self) -> (res: Clock)
        ensures
            res == self.clock_spec(),
    {
        self.clock
    }

    /// Reads the store's clock. The clock is monotonic, so a reading is never
    /// earlier than the store's latest one; the reading given is kept as the
    /// latest. The contents are unchanged.
    pub fn read_clock(&mut self) -> (res: u128)
        ensures
            old(self).latest_reading() <= res <= max_duration_nanos(),
            final(self).latest_reading() == res,
            final(self)@ == old(self)@,
            final(self).clock_spec() == old(self).clock_spec(),
    {
        proof {
            use_type_invariant(&*self);
        }
        let r = self.clock.now();
        if r > self.latest {
            self.latest = r;
        }
        self.latest
    }

    /// Sets `key` to `value` at clock reading `now`, to expire `ttl` seconds
    /// later when `ttl` is given; a value already there is replaced.
    pub fn set_at(&mut self, key: String, value: Vec<u8>, ttl: Option<u64>, now: u128)
        requires
            now <= max_duration_nanos(),
        ensures
            final(self)@ == old(self)@.insert(key@, (value@, expiry_for(ttl, now as int))),
            final(self).latest_reading() == old(self).latest_reading(),
            final(self).clock_spec() == old(self).clock_spec(),
    {
        proof {
            use_type_invariant(&*self);
        }
        let expires_at: Option<u128> = match ttl {
            None => None,
            Some(secs) => Some(now + (secs as u128) * 1000000000u128),
        };
        let mut data: Vec<(String, Value)> = Vec::new();
        std::mem::swap(&mut data, &mut self.data);
        put_entry(&mut data, key, Value { data: value, expires_at });
        self.data = data;
    }

    /// Sets `key` to `value`, to expire `ttl` seconds from now when `ttl` is
    /// given; a value already there is replaced. The clock is read only when
    /// `ttl` is given.
    pub fn set(&mut self, key: String, value: Vec<u8>, ttl: Option<u64>)
        ensures
            ttl is None ==> final(self)@ == old(self)@.insert(key@, (value@, None::<u128>))
                && final(self).latest_reading() == old(self).latest_reading(),
            ttl is Some ==> exists|now: int|
                0 <= now <= max_duration_nanos() && final(self)@ == old(self)@.insert(
                    key@,
                    (value@, #[trigger] expiry_for(ttl, now)),
                ) && old(self).latest_reading() <= now && final(self).latest_reading() == now,
            final(self).clock_spec() == old(self).clock_spec(),
    {
        let now: u128 = match ttl {
            None => 0,
            Some(_) => self.read_clock(),
        };
        self.set_at(key, value, ttl, now);
    }

    /// Reads `key` at clock reading `now`: a value that has expired by then
    /// is removed and reads as absent.
    pub fn get_at(&mut self, key: &str, now: u128) -> (res: Option<Vec<u8>>)
        ensures
            !old(self)@.contains_key(key@) ==> res is None && final(self)@ == old(self)@,
            old(self)@.contains_key(key@) && expired_at(old(self)@[key@], now as int) ==> res is None
                && final(self)@ == old(self)@.remove(key@),
            old(self)@.contains_key(key@) && !expired_at(old(self)@[key@], now as int) ==> (res
                matches Some(v) && v@ == old(self)@[key@].0) && final(self)@ == old(self)@,
            final(self).latest_reading() == old(self).latest_reading(),
            final(self).clock_spec() == old(self).clock_spec(),
    {
        proof {
            use_type_invariant(&*self);
        }
        match find_key(&self.data, key) {
            None => None,
            Some(i) => {
                proof {
                    lemma_entries_map_at(self.data@, i as int);
                }
                let expired = match self.data[i].1.expires_at {
                    Some(e) => now > e,
                    None => false,
                };
                if expired {
                    let mut data: Vec<(String, Value)> = Vec::new();
                    std::mem::swap(&mut data, &mut self.data);
                    remove_entry(&mut data, i);
                    self.data = data;
                    None
                } else {
                    Some(copy_bytes(self.data[i].1.data.as_slice()))
                }
            },
        }
    }

    /// Reads `key`: a value whose expiry the clock is past is removed and
    /// reads as absent. The clock is read only for a value that carries an
    /// expiry.
    pub fn get(&mut self, key: &str) -> (res: Option<Vec<u8>>)
        ensures
            !old(self)@.contains_key(key@) ==> res is None && final(self)@ == old(self)@
                && final(self).latest_reading() == old(self).latest_reading(),
            old(self)@.contains_key(key@) && old(self)@[key@].1 is None ==> (res matches Some(v)
                && v@ == old(self)@[key@].0) && final(self)@ == old(self)@
                && final(self).latest_reading() == old(self).latest_reading(),
            final(self).clock_spec() == old(self).clock_spec(),
            old(self)@.contains_key(key@) && old(self)@[key@].1 is Some ==> exists|now: int|
                old(self).latest_reading() <= now <= max_duration_nanos()
                    && final(self).latest_reading() == now && {
                    ||| #[trigger] expired_at(old(self)@[key@], now) && res is None && final(self)@
                        == old(self)@.remove(key@)
                    ||| !expired_at(old(self)@[key@], now) && (res matches Some(v) && v@ == old(
                        self,
                    )@[key@].0) && final(self)@ == old(self)@
                },
    {
        proof {
            use_type_invariant(&*self);
        }
        match find_key(&self.data, key) {
            None => None,
            Some(i) => {
                proof {
                    lemma_entries_map_at(self.data@, i as int);
                }
                match self.data[i].1.expires_at {
                    None => Some(copy_bytes(self.data[i].1.data.as_slice())),
                    Some(_) => {
                        let now = self.read_clock();
                        let ghost pre = self@;
                        let res = self.get_at(key, now);
                        assert(expired_at(pre[key@], now as int) || !expired_at(pre[key@], now as int));
                        res
                    },
                }
            },
        }
    }
    /// Removes, at clock reading `now`, every entry whose expiry is not
    /// ahead of `now`.
    pub fn cleanup_expired_at(&mut self, now: u128)
        ensures
            final(self)@ == swept(old(self)@, now as int),
            final(self).latest_reading() == old(self).latest_reading(),
            final(self).clock_spec() == old(self).clock_spec(),
    {
        proof {
            use_type_invariant(&*self);
        }
        let ghost orig = self.data@;
        let ghost orig_map = self@;
        let mut rest: Vec<(String, Value)> = Vec::new();
        std::mem::swap(&mut rest, &mut self.data);
        assert(rest@ =~= orig.subrange(0, rest@.len() as int));
        let mut kept: Vec<(String, Value)> = Vec::new();
        let ghost mut src: Seq<int> = Seq::empty();
        while rest.len() > 0
            invariant
                keys_distinct(orig),
                rest@.len() <= orig.len(),
                rest@ == orig.subrange(0, rest@.len() as int),
                keys_distinct(kept@),
                src.len() == kept@.len(),
                forall|j: int|
                    0 <= j < kept@.len() ==> rest@.len() <= #[trigger] src[j] < orig.len()
                        && orig[src[j]] == kept@[j] && survives_sweep(orig[src[j]].1@, now as int),
                forall|i: int|
                    rest@.len() <= i < orig.len() && survives_sweep(#[trigger] orig[i].1@, now as int)
                        ==> exists|j: int| 0 <= j < kept@.len() && #[trigger] kept@[j] == orig[i],
            decreases rest@.len(),
        {
            let ghost n = rest@.len() - 1;
            assert(rest@[n] == orig[n]);
            let entry = rest.pop().unwrap();
            assert(entry == orig[n]);
            assert(rest@ =~= orig.subrange(0, n));
            let keep = match entry.1.expires_at {
                Some(e) => e > now,
                None => true,
            };
            if keep {
                let ghost old_kept = kept@;
                let ghost old_src = src;
                kept.push(entry);
                proof {
                    src = src.push(n);
                    assert forall|a: int, b: int|
                        0 <= a < kept@.len() && 0 <= b < kept@.len() && a != b implies #[trigger] kept@[a].0@
                        != #[trigger] kept@[b].0@ by {
                        if a < old_kept.len() && b < old_kept.len() {
                            assert(old_kept[a].0@ != old_kept[b].0@);
                        } else if a == old_kept.len() {
                            assert(old_src[b] > n);
                            assert(orig[n].0@ != orig[old_src[b]].0@);
                        } else {
                            assert(old_src[a] > n);
                            assert(orig[n].0@ != orig[old_src[a]].0@);
                        }
                    }
                    assert forall|j: int| 0 <= j < kept@.len() implies n <= #[trigger] src[j]
                        < orig.len() && orig[src[j]] == kept@[j] && survives_sweep(
                        orig[src[j]].1@,
                        now as int,
                    ) by {
                        if j < old_kept.len() {
                            assert(old_src[j] == src[j]);
                            assert(old_kept[j] == kept@[j]);
                        }
                    }
                    assert forall|i: int|
                        n <= i < orig.len() && survives_sweep(#[trigger] orig[i].1@, now as int)
                            implies exists|j: int| 0 <= j < kept@.len() && #[trigger] kept@[j] == orig[i] by {
                        if i == n {
                            assert(kept@[old_kept.len() as int] == orig[i]);
                        } else {
                            let j = choose|j: int| 0 <= j < old_kept.len() && #[trigger] old_kept[j] == orig[i];
                            assert(kept@[j] == orig[i]);
                        }
                    }
                }
            }
        }
        proof {
            let m = swept(orig_map, now as int);
            assert forall|j: int| 0 <= j < kept@.len() implies m.contains_key(
                #[trigger] kept@[j].0@,
            ) && m[kept@[j].0@] == kept@[j].1@ by {
                assert(0 <= src[j] < orig.len());
                lemma_entries_map_at(orig, src[j]);
            }
            assert forall|q: Seq<char>| m.contains_key(q) implies exists|j: int|
                0 <= j < kept@.len() && #[trigger] kept@[j].0@ == q by {
                let i = choose|i: int| 0 <= i < orig.len() && #[trigger] orig[i].0@ == q;
                lemma_entries_map_at(orig, i);
                assert(survives_sweep(orig[i].1@, now as int));
                let j = choose|j: int| 0 <= j < kept@.len() && #[trigger] kept@[j] == orig[i];
                assert(kept@[j].0@ == q);
            }
            lemma_entries_map_eq(kept@, m);
        }
        self.data = kept;
    }

    /// Removes every entry whose expiry the clock has reached.
    pub fn cleanup_expired(&mut self)
        ensures
            exists|now: int|
                old(self).latest_reading() <= now <= max_duration_nanos() && final(self)@
                    == #[trigger] swept(old(self)@, now) && final(self).latest_reading() == now,
            final(self).clock_spec() == old(self).clock_spec(),
    {
        let now = self.read_clock();
        self.cleanup_expired_at(now);
    }

    /// A copy of every entry, each key once, in no particular order.
    pub fn get_snapshot(&self) -> (res: Vec<(String, Value)>)
        ensures
            keys_distinct(res@),
            entries_map(res@) == self@,
    {
        proof {
            use_type_invariant(self);
        }
        let mut out: Vec<(String, Value)> = Vec::new();
        let mut i: usize = 0;
        while i < self.data.len()
            invariant
                i <= self.data@.len(),
                out@.len() == i,
                forall|j: int| 0 <= j < i ==> (#[trigger] out@[j]).0@ == self.data@[j].0@ && out@[j].1@ == self.data@[j].1@,
            decreases self.data@.len() - i,
        {
            let key = self.data[i].0.clone();
            let value = copy_value(&self.data[i].1);
            out.push((key, value));
            i = i + 1;
        }
        proof {
            let d = self.data@;
            assert forall|a: int, b: int|
                0 <= a < out@.len() && 0 <= b < out@.len() && a != b implies #[trigger] out@[a].0@
                != #[trigger] out@[b].0@ by {
                assert(d[a].0@ != d[b].0@);
            }
            assert forall|j: int| 0 <= j < out@.len() implies self@.contains_key(
                #[trigger] out@[j].0@,
            ) && self@[out@[j].0@] == out@[j].1@ by {
                lemma_entries_map_at(d, j);
            }
            assert forall|q: Seq<char>| self@.contains_key(q) implies exists|j: int|
                0 <= j < out@.len() && #[trigger] out@[j].0@ == q by {
                let j = choose|j: int| 0 <= j < d.len() && #[trigger] d[j].0@ == q;
                assert(out@[j].0@ == q);
            }
            lemma_entries_map_eq(out@, self@);
        }
        out
    }
}

/// Law: a value written with no time to live is read back, at any clock
/// reading, and no sweep removes it.
pub proof fn law_read_after_write(
    m: Map<Seq<char>, (Seq<u8>, Option<u128>)>,
    key: Seq<char>,
    value: Seq<u8>,
    now: int,
    later: int,
)
    ensures
        m.insert(key, (value, expiry_for(None, now))).contains_key(key),
        m.insert(key, (value, expiry_for(None, now)))[key].0 == value,
        !expired_at(m.insert(key, (value, expiry_for(None, now)))[key], later),
        swept(m.insert(key, (value, expiry_for(None, now))), later).contains_key(key),
{
}

/// Law: a value written at clock reading `now` with a time to live of
/// `secs` seconds reads as present up to `now + secs` seconds, and as expired
/// after that.
pub proof fn law_time_to_live(
    m: Map<Seq<char>, (Seq<u8>, Option<u128>)>,
    key: Seq<char>,
    value: Seq<u8>,
    secs: u64,
    now: int,
    later: int,
)
    requires
        0 <= now <= max_duration_nanos(),
    ensures
        expired_at(m.insert(key, (value, expiry_for(Some(secs), now)))[key], later) <==> later > now
            + secs * 1000000000,
{
}

/// Law: a time to live counts from the set. A value set with a time to live
/// of `secs` seconds, at a clock reading no earlier than `before`, still
/// reads as live at every reading up to `secs` seconds after `before`.
pub proof fn law_time_to_live_counts_from_the_set(
    m: Map<Seq<char>, (Seq<u8>, Option<u128>)>,
    key: Seq<char>,
    value: Seq<u8>,
    secs: u64,
    before: int,
    at_set: int,
    at_read: int,
)
    requires
        before <= at_set <= max_duration_nanos(),
        at_read <= before + secs * 1000000000,
    ensures
        m.insert(key, (value, expiry_for(Some(secs), at_set))).contains_key(key),
        !expired_at(m.insert(key, (value, expiry_for(Some(secs), at_set)))[key], at_read),
{
}

/// Law: expiry never undoes itself. A value that reads as expired at one
/// clock reading reads as expired at every later one, and one that carries
/// no expiry reads as expired at none.
pub proof fn law_expired_stays_expired(v: (Seq<u8>, Option<u128>), earlier: int, later: int)
    requires
        earlier <= later,
    ensures
        expired_at(v, earlier) ==> expired_at(v, later),
        v.1 is None ==> !expired_at(v, later),
{
}

/// Law: a sweep at `now` keeps exactly the entries that have not reached
/// their expiry, unchanged; entries with no expiry always survive; no entry
/// it keeps reads as expired at `now`; and a second sweep at the same reading
/// changes nothing.
pub proof fn law_sweep(m: Map<Seq<char>, (Seq<u8>, Option<u128>)>, now: int)
    ensures
        forall|k: Seq<char>| #[trigger]
            swept(m, now).contains_key(k) <==> m.contains_key(k) && survives_sweep(m[k], now),
        forall|k: Seq<char>| #[trigger]
            swept(m, now).contains_key(k) ==> swept(m, now)[k] == m[k] && !expired_at(m[k], now),
        forall|k: Seq<char>|
            m.contains_key(k) && (#[trigger] m[k]).1 is None ==> swept(m, now).contains_key(k),
        swept(swept(m, now), now) == swept(m, now),
{
    assert(swept(swept(m, now), now) =~= swept(m, now));
}

} // verus!
