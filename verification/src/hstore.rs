//! Values of the `hstore` type: a bag of attributes, each a key with a text or
//! with NULL. The driver parses the binary form; this module checks first that
//! the lengths in it stay inside the value, since the driver's parser does not.

use crate::pg::declared_name;
use crate::pg::hstore_accepts;
use crate::pg::hstore_from_sql;
use crate::text::str_eq;
use tokio_postgres::types::Type;
use vstd::prelude::*;
use vstd::utf8::decode_utf8;
use vstd::utf8::valid_utf8;

verus! {

/// The first four bytes read as a signed integer, most significant byte first.
pub open spec fn be_i32(b: Seq<u8>) -> int
    recommends
        b.len() >= 4,
{
    let u = b[0] as int * 0x100_0000 + b[1] as int * 0x1_0000 + b[2] as int * 0x100 + b[3] as int;
    if u >= 0x8000_0000 {
        u - 0x1_0000_0000
    } else {
        u
    }
}

/// The bytes are exactly `count` entries: each a length and as many bytes of
/// key, then a length and as many bytes of value, where a negative length
/// stands for NULL and no bytes.
pub open spec fn entries_framed(buf: Seq<u8>, count: nat) -> bool
    decreases count,
{
    if count == 0 {
        buf.len() == 0
    } else {
        &&& buf.len() >= 4
        &&& 0 <= be_i32(buf) <= buf.len() - 4
        &&& {
            let after_key = buf.skip(4 + be_i32(buf));
            &&& after_key.len() >= 4
            &&& if be_i32(after_key) < 0 {
                entries_framed(after_key.skip(4), (count - 1) as nat)
            } else {
                &&& be_i32(after_key) <= after_key.len() - 4
                &&& entries_framed(after_key.skip(4 + be_i32(after_key)), (count - 1) as nat)
            }
        }
    }
}

/// The bytes are a count that is not negative, and exactly as many entries.
pub open spec fn framed(raw: Seq<u8>) -> bool {
    &&& raw.len() >= 4
    &&& be_i32(raw) >= 0
    &&& entries_framed(raw.skip(4), be_i32(raw) as nat)
}

/// No key occurs twice in the list.
pub open spec fn distinct_keys(pairs: Seq<(Seq<char>, Option<Seq<char>>)>) -> bool {
    forall|i: int, j: int| 0 <= i < j < pairs.len() ==> pairs[i].0 != pairs[j].0
}

/// The map that a list of pairs stands for.
pub open spec fn map_of(pairs: Seq<(Seq<char>, Option<Seq<char>>)>) -> Map<
    Seq<char>,
    Option<Seq<char>>,
>
    decreases pairs.len(),
{
    if pairs.len() == 0 {
        Map::empty()
    } else {
        map_of(pairs.drop_last()).insert(pairs.last().0, pairs.last().1)
    }
}

/// The text that bytes hold, where they are UTF-8.
pub open spec fn text_of(bytes: Seq<u8>) -> Option<Seq<char>> {
    if valid_utf8(bytes) {
        Some(decode_utf8(bytes))
    } else {
        None
    }
}

/// The pairs of `count` entries, in the order in which they stand: each key
/// as text, each value as text or as `None` for NULL. There are none where a
/// key or a value is not UTF-8.
pub open spec fn entries_of(buf: Seq<u8>, count: nat) -> Option<
    Seq<(Seq<char>, Option<Seq<char>>)>,
>
    recommends
        entries_framed(buf, count),
    decreases count,
{
    if count == 0 {
        Some(Seq::empty())
    } else {
        let key = text_of(buf.subrange(4, 4 + be_i32(buf)));
        let after_key = buf.skip(4 + be_i32(buf));
        let length = be_i32(after_key);
        let value = if length < 0 {
            None
        } else {
            Some(text_of(after_key.subrange(4, 4 + length)))
        };
        let rest = after_key.skip(
            if length < 0 {
                4
            } else {
                4 + length
            },
        );
        match (key, value, entries_of(rest, (count - 1) as nat)) {
            (Some(k), None, Some(tail)) => Some(seq![(k, None)] + tail),
            (Some(k), Some(Some(v)), Some(tail)) => Some(seq![(k, Some(v))] + tail),
            _ => None,
        }
    }
}

/// The pairs that a well-framed value holds, in the order in which they
/// stand.
pub open spec fn pairs_of(raw: Seq<u8>) -> Option<Seq<(Seq<char>, Option<Seq<char>>)>>
    recommends
        framed(raw),
{
    entries_of(raw.skip(4), be_i32(raw) as nat)
}

/// What a value in binary form holds: each key with its text or with NULL,
/// where the lengths in the value stay inside it and keys and values are
/// UTF-8. Of a key that stands twice the later entry counts.
pub open spec fn attributes_of(raw: Seq<u8>) -> Option<Map<Seq<char>, Option<Seq<char>>>> {
    if framed(raw) {
        match pairs_of(raw) {
            Some(pairs) => Some(map_of(pairs)),
            None => None,
        }
    } else {
        None
    }
}

/// The value that is a count of zero and nothing else is the empty bag.
pub proof fn lemma_empty_bag(raw: Seq<u8>)
    requires
        raw == seq![0u8, 0u8, 0u8, 0u8],
    ensures
        attributes_of(raw) == Some(Map::<Seq<char>, Option<Seq<char>>>::empty()),
{
    assert(raw.skip(4).len() == 0);
    assert(be_i32(raw) == 0);
}

/// A key whose entry stands last in the list has the value of that entry,
/// also where that is NULL, and every key of the list is a key of the map.
pub proof fn lemma_last_entry_counts(
    pairs: Seq<(Seq<char>, Option<Seq<char>>)>,
    key: Seq<char>,
    value: Option<Seq<char>>,
)
    ensures
        map_of(pairs.push((key, value))).contains_key(key),
        map_of(pairs.push((key, value)))[key] == value,
        forall|k: Seq<char>| map_of(pairs).contains_key(k) ==> #[trigger] map_of(
            pairs.push((key, value)),
        ).contains_key(k),
{
    assert(pairs.push((key, value)).drop_last() =~= pairs);
}

/// The keys of the map are the keys of the list, and where no key occurs
/// twice each key has the value that stands beside it.
pub proof fn lemma_map_of(pairs: Seq<(Seq<char>, Option<Seq<char>>)>)
    ensures
        forall|k: Seq<char>| #[trigger]
            map_of(pairs).contains_key(k) <==> exists|i: int|
                0 <= i < pairs.len() && #[trigger] pairs[i].0 == k,
        distinct_keys(pairs) ==> forall|i: int|
            0 <= i < pairs.len() ==> map_of(pairs)[#[trigger] pairs[i].0] == pairs[i].1,
    decreases pairs.len(),
{
    if pairs.len() == 0 {
    } else {
        let front = pairs.drop_last();
        let last = pairs.last();
        lemma_map_of(front);
        assert forall|k: Seq<char>| #[trigger]
            map_of(pairs).contains_key(k) <==> exists|i: int|
                0 <= i < pairs.len() && #[trigger] pairs[i].0 == k by {
            if map_of(pairs).contains_key(k) {
                if k == last.0 {
                    assert(pairs[pairs.len() - 1].0 == k);
                } else {
                    assert(map_of(front).contains_key(k));
                    let i = choose|i: int| 0 <= i < front.len() && #[trigger] front[i].0 == k;
                    assert(pairs[i].0 == k);
                }
            }
            if exists|i: int| 0 <= i < pairs.len() && #[trigger] pairs[i].0 == k {
                let i = choose|i: int| 0 <= i < pairs.len() && #[trigger] pairs[i].0 == k;
                if i < front.len() {
                    assert(front[i].0 == k);
                }
            }
        }
        if distinct_keys(pairs) {
            assert(distinct_keys(front)) by {
                assert forall|i: int, j: int| 0 <= i < j < front.len() implies front[i].0
                    != front[j].0 by {
                    assert(front[i] == pairs[i] && front[j] == pairs[j]);
                }
            }
            assert forall|i: int| 0 <= i < pairs.len() implies map_of(pairs)[#[trigger] pairs[i].0]
                == pairs[i].1 by {
                if i < front.len() {
                    assert(front[i] == pairs[i]);
                    assert(pairs[i].0 != pairs[pairs.len() - 1].0);
                }
            }
        }
    }
}

fn read_i32(raw: &[u8], at: usize) -> (r: i64)
    requires
        at + 4 <= raw@.len(),
    ensures
        r == be_i32(raw@.skip(at as int)),
        -0x8000_0000 <= r < 0x8000_0000,
{
    let b0: u32 = raw[at] as u32;
    let b1: u32 = raw[at + 1] as u32;
    let b2: u32 = raw[at + 2] as u32;
    let b3: u32 = raw[at + 3] as u32;
    let u: u32 = b0 * 0x100_0000 + b1 * 0x1_0000 + b2 * 0x100 + b3;
    if u >= 0x8000_0000 {
        u as i64 - 0x1_0000_0000
    } else {
        u as i64
    }
}

/// Whether the lengths in a value in binary form stay inside the value.
pub fn check_framed(raw: &[u8]) -> (ok: bool)
    ensures
        ok == framed(raw@),
{
    let n = raw.len();
    if n < 4 {
        return false;
    }
    assert(raw@.skip(0) =~= raw@);
    let count = read_i32(raw, 0);
    if count < 0 {
        return false;
    }
    let mut pos: usize = 4;
    let mut left: i64 = count;
    while left > 0
        invariant
            n == raw@.len(),
            4 <= pos <= n,
            0 <= left,
            framed(raw@) == entries_framed(raw@.skip(pos as int), left as nat),
        decreases left,
    {
        let ghost buf = raw@.skip(pos as int);
        if n - pos < 4 {
            return false;
        }
        let key_len = read_i32(raw, pos);
        if key_len < 0 || key_len as usize > n - pos - 4 {
            return false;
        }
        let key_end: usize = pos + 4 + key_len as usize;
        let ghost after_key = buf.skip(4 + be_i32(buf));
        assert(after_key =~= raw@.skip(key_end as int));
        if n - key_end < 4 {
            return false;
        }
        let value_len = read_i32(raw, key_end);
        let value_at: usize = key_end + 4;
        if value_len < 0 {
            assert(after_key.skip(4) =~= raw@.skip(value_at as int));
            pos = value_at;
        } else {
            if value_len as usize > n - value_at {
                return false;
            }
            pos = value_at + value_len as usize;
            assert(after_key.skip(4 + be_i32(after_key)) =~= raw@.skip(pos as int));
        }
        left -= 1;
    }
    pos == n
}

/// Where no key occurs twice, the map has as many keys as the list has pairs.
pub proof fn lemma_map_of_len(pairs: Seq<(Seq<char>, Option<Seq<char>>)>)
    requires
        distinct_keys(pairs),
    ensures
        map_of(pairs).dom().finite(),
        map_of(pairs).len() == pairs.len(),
    decreases pairs.len(),
{
    if pairs.len() == 0 {
    } else {
        let front = pairs.drop_last();
        let last = pairs.last();
        assert(distinct_keys(front)) by {
            assert forall|i: int, j: int| 0 <= i < j < front.len() implies front[i].0
                != front[j].0 by {
                assert(front[i] == pairs[i] && front[j] == pairs[j]);
            }
        }
        lemma_map_of_len(front);
        lemma_map_of(front);
        assert(!map_of(front).contains_key(last.0)) by {
            if map_of(front).contains_key(last.0) {
                let i = choose|i: int| 0 <= i < front.len() && #[trigger] front[i].0 == last.0;
                assert(pairs[i].0 == pairs[pairs.len() - 1].0);
            }
        }
    }
}

/// A bag of attributes: keys, each with a text or with NULL. No key occurs
/// twice. The pairs are held in a list and found by going through it: of a
/// hash map with `String` keys vstd states nothing that a lookup could be
/// proved from.
#[derive(Debug)]
pub struct Attributes {
    pairs: Vec<(String, Option<String>)>,
}

impl View for Attributes {
    type V = Map<Seq<char>, Option<Seq<char>>>;

    /// Each key with what it holds: `None` for NULL.
    open spec fn view(&self) -> Map<Seq<char>, Option<Seq<char>>> {
        map_of(self.listing())
    }
}

impl Attributes {
    #[verifier::type_invariant]
    spec fn keys_are_distinct(&self) -> bool {
        distinct_keys(self.pairs.deep_view())
    }

    /// The pairs in the order in which they are held.
    pub closed spec fn listing(&self) -> Seq<(Seq<char>, Option<Seq<char>>)> {
        self.pairs.deep_view()
    }

    /// Whether a column of this type holds a bag of attributes: exactly when
    /// the type's name is `hstore`.
    pub fn accepts(ty: &Type) -> (r: bool)
        ensures
            r == (declared_name(*ty) == "hstore"@),
    {
        hstore_accepts(ty)
    }

    /// Reads a bag of attributes from a value in binary form.
    pub fn from_sql(ty: &Type, raw: &[u8]) -> (r: Option<Attributes>)
        ensures
            r is Some <==> attributes_of(raw@) is Some,
            r matches Some(a) ==> a@ == attributes_of(raw@)->0,
    {
        if !check_framed(raw) {
            return None;
        }
        match hstore_from_sql(ty, raw) {
            None => None,
            Some(pairs) => Some(Attributes { pairs }),
        }
    }

    /// The number of keys.
    pub fn len(&self) -> (n: usize)
        ensures
            n == self@.len(),
            self@.dom().finite(),
    {
        proof {
            use_type_invariant(self);
            lemma_map_of_len(self.pairs.deep_view());
        }
        self.pairs.len()
    }

    /// Whether there is no key.
    pub fn is_empty(&self) -> (r: bool)
        ensures
            r == (self@.len() == 0),
            self@.dom().finite(),
    {
        self.len() == 0
    }

    /// What the key holds, where it is present: `Some(None)` is a key with
    /// NULL, `None` a key that is absent.
    pub fn get(&self, key: &str) -> (r: Option<&Option<String>>)
        ensures
            r is Some <==> self@.contains_key(key@),
            r matches Some(held) ==> held.deep_view() == self@[key@],
    {
        proof {
            use_type_invariant(self);
        }
        let ghost listing = self.pairs.deep_view();
        let mut i: usize = 0;
        while i < self.pairs.len()
            invariant
                listing == self.pairs.deep_view(),
                listing == self.listing(),
                distinct_keys(listing),
                i <= self.pairs.len(),
                forall|j: int| 0 <= j < i ==> #[trigger] listing[j].0 != key@,
            decreases self.pairs.len() - i,
        {
            assert(listing[i as int].0 == self.pairs[i as int].0@);
            assert(listing[i as int].1 == self.pairs[i as int].1.deep_view());
            if str_eq(self.pairs[i].0.as_str(), key) {
                proof {
                    lemma_map_of(listing);
                }
                return Some(&self.pairs[i].1);
            }
            i += 1;
        }
        proof {
            lemma_map_of(listing);
        }
        None
    }

    /// Whether the key is present, with a text or with NULL.
    pub fn contains_key(&self, key: &str) -> (r: bool)
        ensures
            r == self@.contains_key(key@),
    {
        self.get(key).is_some()
    }

    /// The text that the key holds. A key with NULL and a key that is absent
    /// both give `None`.
    pub fn value(&self, key: &str) -> (r: Option<&String>)
        ensures
            r is Some <==> self@.contains_key(key@) && self@[key@] is Some,
            r matches Some(text) ==> self@[key@] == Some(text@),
    {
        match self.get(key) {
            Some(Some(text)) => Some(text),
            _ => None,
        }
    }

    /// The pairs, in no stated order.
    pub fn pairs(&self) -> (r: &Vec<(String, Option<String>)>)
        ensures
            r.deep_view() == self.listing(),
            distinct_keys(r.deep_view()),
            map_of(r.deep_view()) == self@,
    {
        proof {
            use_type_invariant(self);
        }
        &self.pairs
    }
}

} // verus!
