use vstd::prelude::*;

use crate::numbers::{
    all_digits, dec_of, dec_of_int, dec_val, i64_to_dec, is_digit, lemma_dec_of_props,
    parse_i64_dec, parse_u64_dec, u64_to_dec,
};
use crate::text::push_char;

verus! {

/// One persisted cache record: when the payload was fetched, for how many
/// hours it stays fresh, and the payload itself, opaque to the cache.
pub struct CacheEntry {
    pub fetched_at: i64,
    pub ttl_hours: u64,
    pub data: String,
}

/// The one file format the cache writes and reads: the fetch time in
/// seconds, a newline, the time-to-live in hours, a newline, and the payload
/// verbatim (which may itself contain newlines).
pub open spec fn entry_encoding(fetched_at: int, ttl_hours: nat, data: Seq<char>) -> Seq<char> {
    dec_of_int(fetched_at) + seq!['\n'] + dec_of(ttl_hours) + seq!['\n'] + data
}

/// The encoding of a cache record.
pub open spec fn encoding_of(e: CacheEntry) -> Seq<char> {
    entry_encoding(e.fetched_at as int, e.ttl_hours as nat, e.data@)
}

/// What a string parses to: the unique record it encodes, if it encodes
/// one.
pub open spec fn spec_parse(s: Seq<char>) -> Option<CacheEntry> {
    if exists|e: CacheEntry| s == encoding_of(e) {
        Some(choose|e: CacheEntry| s == encoding_of(e))
    } else {
        None
    }
}

/// The spelling of an integer holds no newline.
proof fn lemma_dec_no_newline(n: int)
    ensures
        forall|i: int| 0 <= i < dec_of_int(n).len() ==> dec_of_int(n)[i] != '\n',
        dec_of_int(n).len() >= 1,
{
    if n < 0 {
        lemma_dec_of_props((-n) as nat);
        assert forall|i: int| 0 <= i < dec_of_int(n).len() implies dec_of_int(n)[i] != '\n' by {
            if i > 0 {
                assert(dec_of_int(n)[i] == dec_of((-n) as nat)[i - 1]);
                assert(is_digit(dec_of((-n) as nat)[i - 1]));
            }
        }
    } else {
        lemma_dec_of_props(n as nat);
        assert forall|i: int| 0 <= i < dec_of_int(n).len() implies dec_of_int(n)[i] != '\n' by {
            assert(is_digit(dec_of(n as nat)[i]));
        }
    }
}

/// In an encoding, the first newline stands right after the fetch time and
/// the second right after the time-to-live: the encoding determines both
/// numbers, and with them the payload. So no string encodes two different
/// records.
proof fn lemma_encoding_injective(e1: CacheEntry, e2: CacheEntry)
    requires
        encoding_of(e1) == encoding_of(e2),
    ensures
        e1.fetched_at == e2.fetched_at,
        e1.ttl_hours == e2.ttl_hours,
        e1.data@ == e2.data@,
{
    let a1 = dec_of_int(e1.fetched_at as int);
    let a2 = dec_of_int(e2.fetched_at as int);
    let b1 = dec_of(e1.ttl_hours as nat);
    let b2 = dec_of(e2.ttl_hours as nat);
    let s = encoding_of(e1);
    lemma_dec_no_newline(e1.fetched_at as int);
    lemma_dec_no_newline(e2.fetched_at as int);
    lemma_dec_of_props(e1.ttl_hours as nat);
    lemma_dec_of_props(e2.ttl_hours as nat);
    assert(s[a1.len() as int] == '\n');
    assert(s[a2.len() as int] == '\n');
    assert(a1.len() == a2.len()) by {
        if a1.len() < a2.len() {
            assert(s[a1.len() as int] == a2[a1.len() as int]);
        } else if a2.len() < a1.len() {
            assert(s[a2.len() as int] == a1[a2.len() as int]);
        }
    }
    assert(a1 =~= a2) by {
        assert forall|i: int| 0 <= i < a1.len() implies a1[i] == a2[i] by {
            assert(a1[i] == s[i]);
            assert(a2[i] == s[i]);
        }
    }
    let p = a1.len() as int + 1;
    assert(e1.fetched_at == e2.fetched_at) by {
        lemma_dec_of_int_injective(e1.fetched_at as int, e2.fetched_at as int);
    }
    assert(s[p + b1.len()] == '\n') by {
        assert(s == a1 + seq!['\n'] + b1 + seq!['\n'] + e1.data@);
    }
    assert(s[p + b2.len()] == '\n') by {
        assert(s == a2 + seq!['\n'] + b2 + seq!['\n'] + e2.data@);
    }
    assert(forall|i: int| 0 <= i < b1.len() ==> s[p + i] == b1[i]);
    assert(forall|i: int| 0 <= i < b2.len() ==> s[p + i] == b2[i]);
    assert(b1.len() == b2.len()) by {
        if b1.len() < b2.len() {
            assert(s[p + b1.len()] == b2[b1.len() as int]);
            assert(is_digit(b2[b1.len() as int]));
        } else if b2.len() < b1.len() {
            assert(s[p + b2.len()] == b1[b2.len() as int]);
            assert(is_digit(b1[b2.len() as int]));
        }
    }
    assert(b1 =~= b2) by {
        assert forall|i: int| 0 <= i < b1.len() implies b1[i] == b2[i] by {
            assert(s[p + i] == b1[i]);
            assert(s[p + i] == b2[i]);
        }
    }
    assert(e1.ttl_hours == e2.ttl_hours) by {
        assert(dec_val(b1) == dec_val(b2));
    }
    assert(e1.data@ =~= e2.data@) by {
        let q = p + b1.len() + 1;
        assert(e1.data@.len() == s.len() - q);
        assert(e2.data@.len() == s.len() - q);
        assert forall|i: int| 0 <= i < e1.data@.len() implies e1.data@[i] == e2.data@[i] by {
            assert(s[q + i] == e1.data@[i]);
            assert(s[q + i] == e2.data@[i]);
        }
    }
}

/// Two integers with the same spelling are equal.
proof fn lemma_dec_of_int_injective(x: int, y: int)
    requires
        dec_of_int(x) == dec_of_int(y),
    ensures
        x == y,
{
    lemma_dec_of_props(if x < 0 { (-x) as nat } else { x as nat });
    lemma_dec_of_props(if y < 0 { (-y) as nat } else { y as nat });
    if x < 0 && y < 0 {
        let tx = dec_of((-x) as nat);
        let ty = dec_of((-y) as nat);
        assert(dec_of_int(x) == seq!['-'] + tx);
        assert(dec_of_int(y) == seq!['-'] + ty);
        assert((seq!['-'] + tx).len() == 1 + tx.len());
        assert((seq!['-'] + ty).len() == 1 + ty.len());
        assert(tx =~= ty) by {
            assert(tx.len() == ty.len());
            assert forall|i: int| 0 <= i < tx.len() implies tx[i] == ty[i] by {
                assert((seq!['-'] + tx)[i + 1] == tx[i]);
                assert((seq!['-'] + ty)[i + 1] == ty[i]);
            }
        }
        assert(dec_val(tx) == dec_val(ty));
    } else if x >= 0 && y >= 0 {
        assert(dec_val(dec_of(x as nat)) == dec_val(dec_of(y as nat)));
    } else if x < 0 && y >= 0 {
        assert(dec_of_int(x)[0] == '-');
        assert(is_digit(dec_of_int(y)[0]));
    } else {
        assert(dec_of_int(y)[0] == '-');
        assert(is_digit(dec_of_int(x)[0]));
    }
}

/// Every string parses to at most one record, and an encoding parses to
/// what it encodes.
pub proof fn lemma_parse_encoding(e: CacheEntry)
    ensures
        match spec_parse(encoding_of(e)) {
            Some(p) => p.fetched_at == e.fetched_at && p.ttl_hours == e.ttl_hours && p.data@
                == e.data@,
            None => false,
        },
{
    assert(encoding_of(e) == encoding_of(e));
    let w = choose|w: CacheEntry| encoding_of(e) == encoding_of(w);
    lemma_encoding_injective(e, w);
}

/// Serialize one cache record in the cache's file format.
pub fn encode_entry(e: &CacheEntry) -> (r: String)
    ensures
        r@ == encoding_of(*e),
{
    let mut s = i64_to_dec(e.fetched_at);
    push_char(&mut s, '\n');
    let ttl = u64_to_dec(e.ttl_hours);
    s.append(ttl.as_str());
    push_char(&mut s, '\n');
    s.append(e.data.as_str());
    proof {
        assert(s@ =~= encoding_of(*e));
    }
    s
}

/// Find the first newline at or after `from`.
fn find_newline(s: &str, from: usize) -> (r: Option<usize>)
    requires
        from <= s@.len(),
    ensures
        match r {
            Some(i) => from <= i < s@.len() && s@[i as int] == '\n' && forall|j: int|
                from <= j < i ==> s@[j] != '\n',
            None => forall|j: int| from <= j < s@.len() ==> s@[j] != '\n',
        },
{
    let n = s.unicode_len();
    let mut i = from;
    while i < n
        invariant
            n == s@.len(),
            from <= i <= n,
            forall|j: int| from <= j < i ==> s@[j] != '\n',
        decreases n - i,
    {
        if s.get_char(i) == '\n' {
            return Some(i);
        }
        i = i + 1;
    }
    None
}

/// Deserialize a string in the cache's file format. Anything that is not
/// exactly the encoding of a record is rejected.
pub fn parse_entry(s: &str) -> (r: Option<CacheEntry>)
    ensures
        match r {
            Some(e) => s@ == encoding_of(e),
            None => forall|e: CacheEntry| s@ != encoding_of(e),
        },
{
    let n = s.unicode_len();
    let nl1 = match find_newline(s, 0) {
        Some(i) => i,
        None => {
            proof {
                assert forall|e: CacheEntry| s@ != encoding_of(e) by {
                    if s@ == encoding_of(e) {
                        lemma_dec_no_newline(e.fetched_at as int);
                        let a = dec_of_int(e.fetched_at as int);
                        assert(s@[a.len() as int] == '\n');
                    }
                }
            }
            return None;
        },
    };
    let first = s.substring_char(0, nl1);
    let fetched_at = match parse_i64_dec(first) {
        Some(v) => v,
        None => {
            proof {
                assert forall|e: CacheEntry| s@ != encoding_of(e) by {
                    if s@ == encoding_of(e) {
                        lemma_dec_no_newline(e.fetched_at as int);
                        let a = dec_of_int(e.fetched_at as int);
                        assert(s@[a.len() as int] == '\n');
                        assert(forall|j: int| 0 <= j < a.len() ==> s@[j] == a[j]);
                        assert(a.len() == nl1) by {
                            if a.len() < nl1 {
                                assert(s@[a.len() as int] == '\n');
                            } else if nl1 < a.len() {
                                assert(s@[nl1 as int] == a[nl1 as int]);
                            }
                        }
                        assert(first@ =~= a);
                    }
                }
            }
            return None;
        },
    };
    proof {
        assert(first@ == dec_of_int(fetched_at as int));
        lemma_dec_no_newline(fetched_at as int);
    }
    let nl2 = match find_newline(s, nl1 + 1) {
        Some(i) => i,
        None => {
            proof {
                assert forall|e: CacheEntry| s@ != encoding_of(e) by {
                    if s@ == encoding_of(e) {
                        let a = dec_of_int(e.fetched_at as int);
                        lemma_dec_no_newline(e.fetched_at as int);
                        lemma_dec_of_props(e.ttl_hours as nat);
                        let b = dec_of(e.ttl_hours as nat);
                        assert(a.len() == nl1) by {
                            if a.len() < nl1 {
                                assert(s@[a.len() as int] == '\n');
                            } else if nl1 < a.len() {
                                assert(s@[nl1 as int] == a[nl1 as int]);
                            }
                        }
                        assert(s@[nl1 + 1 + b.len()] == '\n');
                    }
                }
            }
            return None;
        },
    };
    let second = s.substring_char(nl1 + 1, nl2);
    let ttl_hours = match parse_u64_dec(second) {
        Some(v) => v,
        None => {
            proof {
                assert forall|e: CacheEntry| s@ != encoding_of(e) by {
                    if s@ == encoding_of(e) {
                        let a = dec_of_int(e.fetched_at as int);
                        lemma_dec_no_newline(e.fetched_at as int);
                        lemma_dec_of_props(e.ttl_hours as nat);
                        let b = dec_of(e.ttl_hours as nat);
                        assert(a.len() == nl1) by {
                            if a.len() < nl1 {
                                assert(s@[a.len() as int] == '\n');
                            } else if nl1 < a.len() {
                                assert(s@[nl1 as int] == a[nl1 as int]);
                            }
                        }
                        assert(forall|j: int|
                            0 <= j < b.len() ==> s@[nl1 + 1 + j] == b[j]);
                        assert(s@[nl1 + 1 + b.len()] == '\n');
                        assert(b.len() == nl2 - nl1 - 1) by {
                            if nl1 + 1 + b.len() < nl2 {
                                assert(s@[nl1 + 1 + b.len()] == '\n');
                            } else if nl2 < nl1 + 1 + b.len() {
                                assert(s@[nl2 as int] == b[nl2 - nl1 - 1]);
                                assert(is_digit(b[nl2 - nl1 - 1]));
                            }
                        }
                        assert(second@ =~= b);
                    }
                }
            }
            return None;
        },
    };
    proof {
        assert(second@ == dec_of(ttl_hours as nat));
        lemma_dec_of_props(ttl_hours as nat);
    }
    let data = s.substring_char(nl2 + 1, n);
    let e = CacheEntry { fetched_at, ttl_hours, data: String::from_str(data) };
    proof {
        assert(s@ =~= encoding_of(e));
    }
    Some(e)
}

/// An age in whole hours, truncated towards zero.
pub open spec fn whole_hours(age_secs: int) -> int {
    if age_secs >= 0 {
        age_secs / 3600
    } else {
        -((-age_secs) / 3600)
    }
}

/// Whether a record fetched at `fetched_at` is still fresh at `now`: its
/// age in whole hours is strictly below its time-to-live.
pub open spec fn is_fresh(fetched_at: int, ttl_hours: nat, now: int) -> bool {
    whole_hours(now - fetched_at) < ttl_hours
}

/// Decide freshness of a record at the given time.
pub fn fresh(fetched_at: i64, ttl_hours: u64, now: i64) -> (r: bool)
    ensures
        r == is_fresh(fetched_at as int, ttl_hours as nat, now as int),
{
    if now >= fetched_at {
        let age: i128 = (now as i128) - (fetched_at as i128);
        let h: u128 = (age as u128) / 3600;
        proof {
            assert(age as u128 == now - fetched_at);
            assert(h as int == whole_hours(now - fetched_at));
        }
        h < (ttl_hours as u128)
    } else {
        let neg: i128 = (fetched_at as i128) - (now as i128);
        let h: u128 = (neg as u128) / 3600;
        proof {
            assert(neg as u128 == fetched_at - now);
            assert(whole_hours(now - fetched_at) == -(h as int));
        }
        if h == 0 {
            ttl_hours > 0
        } else {
            true
        }
    }
}

/// What reading a cache key yields, given what its backing file holds: a
/// missing file, an unparseable file and a stale record are all plain
/// misses; a fresh record yields its fetch time and payload.
pub open spec fn read_spec(content: Option<Seq<char>>, now: int) -> Option<(int, Seq<char>)> {
    match content {
        None => None,
        Some(s) => match spec_parse(s) {
            None => None,
            Some(e) => if is_fresh(e.fetched_at as int, e.ttl_hours as nat, now) {
                Some((e.fetched_at as int, e.data@))
            } else {
                None
            },
        },
    }
}

/// The durable freshness cache: which directory backs it and how long a
/// stored payload stays fresh. The cache owns the file format (see
/// `entry_encoding`); reading and writing the files themselves is the
/// caller's part.
pub struct Cache {
    dir: String,
    ttl_hours: u64,
}

impl Cache {
    /// The directory the cache files live in.
    pub closed spec fn spec_dir(&self) -> Seq<char> {
        self.dir@
    }

    /// The configured time-to-live, in hours.
    pub closed spec fn spec_ttl(&self) -> u64 {
        self.ttl_hours
    }

    /// A cache over the given directory with the given time-to-live.
    pub fn new(dir: String, ttl_hours: u64) -> (r: Cache)
        ensures
            r.spec_dir() == dir@,
            r.spec_ttl() == ttl_hours,
    {
        Cache { dir, ttl_hours }
    }

    /// The path of the file backing one source's cache key.
    pub fn entry_path(&self, source: &str) -> (r: String)
        ensures
            r@ == self.spec_dir() + "/"@ + source@ + ".json"@,
    {
        let mut s = self.dir.clone();
        s.append("/");
        s.append(source);
        s.append(".json");
        s
    }

    /// The record a write at time `now` persists: the payload stamped with
    /// the write time and the configured time-to-live.
    pub fn make_entry(&self, data: String, now: i64) -> (r: CacheEntry)
        ensures
            r.fetched_at == now,
            r.ttl_hours == self.spec_ttl(),
            r.data@ == data@,
    {
        CacheEntry { fetched_at: now, ttl_hours: self.ttl_hours, data }
    }

    /// Read one cache key, given the content of its backing file (`None`
    /// when the file is missing or unreadable). Any failure to parse is a
    /// miss, never an error; a stale record is a miss too.
    pub fn read(&self, content: Option<&str>, now: i64) -> (r: Option<(i64, String)>)
        ensures
            match r {
                Some(p) => read_spec(
                    match content {
                        Some(s) => Some(s@),
                        None => None,
                    },
                    now as int,
                ) == Some((p.0 as int, p.1@)),
                None => read_spec(
                    match content {
                        Some(s) => Some(s@),
                        None => None,
                    },
                    now as int,
                ) is None,
            },
    {
        match content {
            None => None,
            Some(s) => {
                match parse_entry(s) {
                    None => None,
                    Some(e) => {
                        proof {
                            lemma_parse_encoding(e);
                        }
                        if fresh(e.fetched_at, e.ttl_hours, now) {
                            Some((e.fetched_at, e.data))
                        } else {
                            None
                        }
                    },
                }
            },
        }
    }
}

/// Round trip: a record written at time `t` and read back within its
/// time-to-live yields exactly the payload that was stored, with its fetch
/// time; read outside the time-to-live it is a miss.
pub proof fn lemma_cache_round_trip(e: CacheEntry, now: int)
    ensures
        is_fresh(e.fetched_at as int, e.ttl_hours as nat, now) ==> read_spec(
            Some(encoding_of(e)),
            now,
        ) == Some((e.fetched_at as int, e.data@)),
        !is_fresh(e.fetched_at as int, e.ttl_hours as nat, now) ==> read_spec(
            Some(encoding_of(e)),
            now,
        ) is None,
{
    lemma_parse_encoding(e);
}

/// A corrupt file — one that is not the encoding of any record — reads as
/// a miss, never as an error.
pub proof fn lemma_corrupt_reads_as_miss(s: Seq<char>, now: int)
    requires
        forall|e: CacheEntry| s != encoding_of(e),
    ensures
        read_spec(Some(s), now) is None,
{
}

} // verus!
