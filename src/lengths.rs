//! File lengths learned from the origin, each probed once and then remembered.
use crate::error::StoreError;
use vstd::prelude::*;

verus! {

/// Whether `b` is an ASCII decimal digit.
pub open spec fn is_digit(b: u8) -> bool {
    48 <= b <= 57
}

/// The number that the decimal digits `s` spell.
pub open spec fn decimal(s: Seq<u8>) -> int
    decreases s.len(),
{
    if s.len() == 0 {
        0
    } else {
        decimal(s.drop_last()) * 10 + (s.last() - 48)
    }
}

/// Whether `s` is a well-formed length: one or more digits whose value fits in `u64`.
pub open spec fn valid_length(s: Seq<u8>) -> bool {
    &&& s.len() > 0
    &&& forall|i: int| 0 <= i < s.len() ==> is_digit(#[trigger] s[i])
    &&& decimal(s) <= u64::MAX
}

proof fn lemma_decimal_grows(s: Seq<u8>, i: int)
    requires
        0 <= i <= s.len(),
        forall|k: int| 0 <= k < s.len() ==> is_digit(#[trigger] s[k]),
    ensures
        decimal(s.take(i)) <= decimal(s),
        decimal(s) >= 0,
    decreases s.len(),
{
    if s.len() > 0 {
        let p = s.drop_last();
        assert forall|k: int| 0 <= k < p.len() implies is_digit(#[trigger] p[k]) by {
            assert(p[k] == s[k]);
        }
        if i == s.len() {
            assert(s.take(i) == s);
            lemma_decimal_grows(p, 0);
        } else {
            assert(p.take(i) == s.take(i));
            lemma_decimal_grows(p, i);
        }
    } else {
        assert(s.take(i) == s);
    }
}

/// Parses the value of a `Content-Length` header.
pub fn parse_content_length(text: &Vec<u8>) -> (r: Option<u64>)
    ensures
        r is Some <==> valid_length(text@),
        r matches Some(n) ==> n == decimal(text@),
{
    if text.len() == 0 {
        return None;
    }
    let mut acc: u64 = 0;
    let mut i: usize = 0;
    while i < text.len()
        invariant
            0 <= i <= text.len(),
            text.len() > 0,
            acc == decimal(text@.take(i as int)),
            forall|k: int| 0 <= k < i ==> is_digit(#[trigger] text@[k]),
        decreases text.len() - i,
    {
        let b = text[i];
        if b < 48 || b > 57 {
            return None;
        }
        let d = (b - 48) as u64;
        assert(text@.take(i + 1).drop_last() == text@.take(i as int));
        if acc > (18446744073709551615u64 - d) / 10 {
            proof {
                assert(decimal(text@.take(i + 1)) > u64::MAX) by (nonlinear_arith)
                    requires
                        acc > (18446744073709551615u64 - d) / 10,
                        decimal(text@.take(i + 1)) == acc * 10 + d,
                        d <= 9;
                if forall|k: int| 0 <= k < text.len() ==> is_digit(#[trigger] text@[k]) {
                    lemma_decimal_grows(text@, i + 1);
                }
            }
            return None;
        }
        assert(acc * 10 + d <= u64::MAX) by (nonlinear_arith)
            requires
                acc <= (18446744073709551615u64 - d) / 10,
                d <= 9;
        acc = acc * 10 + d;
        i = i + 1;
    }
    assert(text@.take(text.len() as int) == text@);
    Some(acc)
}

/// The length that a metadata probe reports: `Ok` exactly when the origin answered
/// 200 with a well-formed `Content-Length`. `response` is `None` when the transport
/// failed, and holds the header's bytes when the header was there.
pub fn length_from_probe(response: &Option<(u16, Option<Vec<u8>>)>) -> (r: Result<u64, StoreError>)
    ensures
        match r {
            Ok(n) => {
                &&& response matches Some((200, Some(h)))
                &&& valid_length(h@)
                &&& n == decimal(h@)
            },
            Err(e) => {
                &&& e == StoreError::RemoteUnavailable
                &&& !(response matches Some((200, Some(h))) && valid_length(h@))
            },
        },
{
    match response {
        Some((status, Some(header))) => {
            if *status != 200 {
                return Err(StoreError::RemoteUnavailable);
            }
            match parse_content_length(header) {
                Some(n) => Ok(n),
                None => Err(StoreError::RemoteUnavailable),
            }
        },
        _ => Err(StoreError::RemoteUnavailable),
    }
}

/// Whether some entry is for `url`.
pub open spec fn has_url(entries: Seq<(String, u64)>, url: Seq<char>) -> bool {
    exists|i: int| 0 <= i < entries.len() && #[trigger] entries[i].0@ == url
}

/// The index of the entry for `url`.
pub open spec fn url_index(entries: Seq<(String, u64)>, url: Seq<char>) -> int {
    choose|i: int| 0 <= i < entries.len() && #[trigger] entries[i].0@ == url
}

/// Remembered file lengths, by URL. Each URL is recorded once and never forgotten.
pub struct LengthCache {
    entries: Vec<(String, u64)>,
}

impl View for LengthCache {
    type V = Map<Seq<char>, u64>;

    closed spec fn view(&self) -> Map<Seq<char>, u64> {
        Map::new(
            |u: Seq<char>| has_url(self.entries@, u),
            |u: Seq<char>| self.entries@[url_index(self.entries@, u)].1,
        )
    }
}

impl LengthCache {
    pub closed spec fn wf(&self) -> bool {
        forall|i: int, j: int|
            0 <= i < j < self.entries@.len() ==> #[trigger] self.entries@[i].0@ != #[trigger] self.entries@[j].0@
    }

    pub fn new() -> (r: LengthCache)
        ensures
            r.wf(),
            r@ == Map::<Seq<char>, u64>::empty(),
    {
        let r = LengthCache { entries: Vec::new() };
        assert(r@ =~= Map::<Seq<char>, u64>::empty());
        r
    }

    /// The remembered length of `url`, if it was recorded.
    pub fn lookup(&self, url: &String) -> (r: Option<u64>)
        requires
            self.wf(),
        ensures
            r == (if self@.contains_key(url@) {
                Some(self@[url@])
            } else {
                None
            }),
    {
        let mut i: usize = 0;
        while i < self.entries.len()
            invariant
                0 <= i <= self.entries@.len(),
                self.wf(),
                forall|k: int| 0 <= k < i ==> #[trigger] self.entries@[k].0@ != url@,
            decreases self.entries.len() - i,
        {
            if self.entries[i].0 == *url {
                assert(self.entries@[i as int].0@ == url@);
                assert(has_url(self.entries@, url@));
                proof {
                    let j = url_index(self.entries@, url@);
                    assert(self.entries@[j].0@ == url@);
                    if j < i {
                        assert(self.entries@[j].0@ != url@);
                    } else if j > i {
                        assert(self.entries@[i as int].0@ != self.entries@[j].0@);
                    }
                }
                return Some(self.entries[i].1);
            }
            i = i + 1;
        }
        assert(!has_url(self.entries@, url@));
        None
    }

    /// Remembers `len` as the length of `url`, unless a length is already recorded.
    pub fn record(&mut self, url: &String, len: u64)
        requires
            old(self).wf(),
        ensures
            final(self).wf(),
            final(self)@ == (if old(self)@.contains_key(url@) {
                old(self)@
            } else {
                old(self)@.insert(url@, len)
            }),
    {
        if self.lookup(url).is_some() {
            return;
        }
        let ghost before = self.entries@;
        self.entries.push((url.clone(), len));
        let ghost after = self.entries@;
        assert forall|i: int, j: int| 0 <= i < j < after.len() implies #[trigger] after[i].0@ != #[trigger] after[j].0@ by {
            if j == after.len() - 1 {
                assert(after[i] == before[i]);
            } else {
                assert(after[i] == before[i] && after[j] == before[j]);
            }
        }
        assert forall|u: Seq<char>| has_url(after, u) == (has_url(before, u) || u == url@) by {
            if has_url(before, u) {
                let k = url_index(before, u);
                assert(after[k] == before[k]);
            }
            if u == url@ {
                assert(after[after.len() - 1].0@ == u);
            }
            if has_url(after, u) && u != url@ {
                let k = url_index(after, u);
                assert(k < before.len());
                assert(before[k] == after[k]);
            }
        }
        assert forall|u: Seq<char>| has_url(after, u) implies after[url_index(after, u)].1 == (if u == url@ {
            len
        } else {
            before[url_index(before, u)].1
        }) by {
            let k = url_index(after, u);
            if u == url@ {
                assert(after[after.len() - 1].0@ == u);
                assert(k == after.len() - 1);
            } else {
                let m = url_index(before, u);
                assert(after[m] == before[m]);
                assert(k == m);
            }
        }
        assert(self@ =~= old(self)@.insert(url@, len));
    }
}

} // verus!
