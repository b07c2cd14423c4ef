//! Bencode values and their canonical encoding.
//!
//! A dictionary keeps its entries in strictly increasing lexicographic order
//! of their keys, so that a value has exactly one encoding.

use crate::bytestring::{
    compare_bytes, decimal, decimal_int, lemma_lex_irreflexive, lemma_lex_total,
    lemma_lex_transitive, lex_less, push_decimal, push_decimal_int, Place,
};
use vstd::prelude::*;
use vstd::string::{StrSliceExecFns, StringSliceAdditionalSpecFns};

verus! {

/// A bencode value.
#[derive(Debug)]
pub enum BencodeValue {
    Integer(i64),
    Bytes(Vec<u8>),
    List(Vec<BencodeValue>),
    Dict(BencodeDict),
}

/// A bencode dictionary: values under byte-string keys, no key twice, kept
/// in strictly increasing lexicographic order of the keys.
#[derive(Debug)]
pub struct BencodeDict {
    entries: Vec<(Vec<u8>, BencodeValue)>,
}

/// The mathematical value of a `BencodeValue`. A dictionary is the sequence
/// of its entries in the order in which they are encoded.
pub enum BencodeView {
    Integer(i64),
    Bytes(Seq<u8>),
    List(Seq<BencodeView>),
    Dict(Seq<(Seq<u8>, BencodeView)>),
}

/// Whether the keys of `entries` are strictly increasing.
pub open spec fn keys_increase(entries: Seq<(Seq<u8>, BencodeView)>) -> bool {
    forall|i: int, j: int|
        0 <= i < j < entries.len() ==> lex_less((#[trigger] entries[i]).0, (#[trigger] entries[j]).0)
}

/// Holds of the entries whose key comes before `key`.
pub open spec fn key_below(key: Seq<u8>) -> spec_fn((Seq<u8>, BencodeView)) -> bool {
    |e: (Seq<u8>, BencodeView)| lex_less(e.0, key)
}

/// Holds of the entries whose key comes after `key`.
pub open spec fn key_above(key: Seq<u8>) -> spec_fn((Seq<u8>, BencodeView)) -> bool {
    |e: (Seq<u8>, BencodeView)| lex_less(key, e.0)
}

/// Holds of the entries whose key is not `key`.
pub open spec fn key_other(key: Seq<u8>) -> spec_fn((Seq<u8>, BencodeView)) -> bool {
    |e: (Seq<u8>, BencodeView)| e.0 != key
}

/// `entries` with `value` put under `key`: the entries with smaller keys,
/// then the new entry, then the entries with greater keys. An entry that
/// `entries` holds under `key` itself is replaced.
pub open spec fn dict_insert(
    entries: Seq<(Seq<u8>, BencodeView)>,
    key: Seq<u8>,
    value: BencodeView,
) -> Seq<(Seq<u8>, BencodeView)> {
    entries.filter(key_below(key)) + seq![(key, value)] + entries.filter(key_above(key))
}

/// `entries` without the entry under `key`.
pub open spec fn dict_remove(entries: Seq<(Seq<u8>, BencodeView)>, key: Seq<u8>) -> Seq<
    (Seq<u8>, BencodeView),
> {
    entries.filter(key_other(key))
}

/// The value that `entries` holds under `key`, if any.
pub open spec fn dict_get(entries: Seq<(Seq<u8>, BencodeView)>, key: Seq<u8>) -> Option<
    BencodeView,
> {
    if exists|i: int| 0 <= i < entries.len() && (#[trigger] entries[i]).0 == key {
        let i = choose|i: int| 0 <= i < entries.len() && (#[trigger] entries[i]).0 == key;
        Some(entries[i].1)
    } else {
        None
    }
}

/// The encoding of a byte string: its length in decimal, a colon, and the
/// bytes themselves.
pub open spec fn encoded_bytes(bytes: Seq<u8>) -> Seq<u8> {
    decimal(bytes.len()) + seq![58u8] + bytes
}

/// The encodings of the first `n` items of a list, one after the other.
pub open spec fn encoded_items(items: Seq<BencodeView>, n: nat) -> Seq<u8>
    decreases items, n,
{
    if n == 0 || n > items.len() {
        Seq::empty()
    } else {
        encoded_items(items, (n - 1) as nat) + items[n - 1].encoded()
    }
}

/// The encodings of the first `n` entries of a dictionary, each key
/// followed by its value.
pub open spec fn encoded_entries(entries: Seq<(Seq<u8>, BencodeView)>, n: nat) -> Seq<u8>
    decreases entries, n,
{
    if n == 0 || n > entries.len() {
        Seq::empty()
    } else {
        encoded_entries(entries, (n - 1) as nat) + encoded_bytes(entries[n - 1].0) + entries[n
            - 1].1.encoded()
    }
}

impl BencodeView {
    /// The canonical encoding of the value.
    pub open spec fn encoded(self) -> Seq<u8>
        decreases self, 0nat,
    {
        match self {
            BencodeView::Integer(i) => seq![105u8] + decimal_int(i as int) + seq![101u8],
            BencodeView::Bytes(b) => encoded_bytes(b),
            BencodeView::List(l) => seq![108u8] + encoded_items(l, l.len()) + seq![101u8],
            BencodeView::Dict(m) => seq![100u8] + encoded_entries(m, m.len()) + seq![101u8],
        }
    }

    /// Whether every dictionary in the value, at any depth, has strictly
    /// increasing keys.
    pub open spec fn sorted(self) -> bool
        decreases self,
    {
        match self {
            BencodeView::Integer(_) => true,
            BencodeView::Bytes(_) => true,
            BencodeView::List(l) => forall|i: int| 0 <= i < l.len() ==> (#[trigger] l[i]).sorted(),
            BencodeView::Dict(m) => keys_increase(m) && forall|i: int|
                0 <= i < m.len() ==> (#[trigger] m[i]).1.sorted(),
        }
    }
}

impl BencodeValue {
    /// The mathematical value: lists and dictionaries item by item.
    pub open spec fn value(self) -> BencodeView
        decreases self,
    {
        match self {
            BencodeValue::Integer(i) => BencodeView::Integer(i),
            BencodeValue::Bytes(b) => BencodeView::Bytes(b@),
            BencodeValue::List(l) => BencodeView::List(
                Seq::new(
                    l@.len(),
                    |i: int|
                        if 0 <= i < l@.len() {
                            l@[i].value()
                        } else {
                            BencodeView::Integer(0)
                        },
                ),
            ),
            BencodeValue::Dict(m) => BencodeView::Dict(m.value()),
        }
    }
}

impl BencodeDict {
    /// The entries in order, each key with the value under it.
    pub closed spec fn value(self) -> Seq<(Seq<u8>, BencodeView)>
        decreases self,
    {
        Seq::new(
            self.entries@.len(),
            |i: int|
                if 0 <= i < self.entries@.len() {
                    (self.entries@[i].0@, self.entries@[i].1.value())
                } else {
                    (Seq::empty(), BencodeView::Integer(0))
                },
        )
    }
}

/// The mathematical values of a run of values.
pub open spec fn values_view(items: Seq<BencodeValue>) -> Seq<BencodeView> {
    Seq::new(items.len(), |i: int| items[i]@)
}

/// A list value is the list of the values of its items.
pub proof fn lemma_list_view(items: Vec<BencodeValue>)
    ensures
        BencodeValue::List(items)@ == BencodeView::List(values_view(items@)),
{
    assert(BencodeValue::List(items)@->List_0 =~= values_view(items@));
}

impl View for BencodeValue {
    type V = BencodeView;

    open spec fn view(&self) -> BencodeView {
        self.value()
    }
}

impl View for BencodeDict {
    type V = Seq<(Seq<u8>, BencodeView)>;

    open spec fn view(&self) -> Seq<(Seq<u8>, BencodeView)> {
        self.value()
    }
}

/// A predicate that holds of the first `pos` items of a sequence and of no
/// other filters out exactly those.
proof fn lemma_filter_prefix<A>(s: Seq<A>, pred: spec_fn(A) -> bool, pos: int)
    requires
        0 <= pos <= s.len(),
        forall|i: int| 0 <= i < pos ==> pred(#[trigger] s[i]),
        forall|i: int| pos <= i < s.len() ==> !pred(#[trigger] s[i]),
    ensures
        s.filter(pred) == s.take(pos),
    decreases s.len(),
{
    reveal(Seq::filter);
    if s.len() > 0 {
        let front = s.drop_last();
        if pos == s.len() {
            lemma_filter_prefix(front, pred, pos - 1);
            assert(front.take(pos - 1).push(s.last()) =~= s.take(pos));
        } else {
            lemma_filter_prefix(front, pred, pos);
            assert(front.take(pos) =~= s.take(pos));
        }
    } else {
        assert(s =~= s.take(pos));
    }
}

/// A predicate that holds of all items of a sequence from `pos` on and of
/// no other filters out exactly those.
proof fn lemma_filter_suffix<A>(s: Seq<A>, pred: spec_fn(A) -> bool, pos: int)
    requires
        0 <= pos <= s.len(),
        forall|i: int| 0 <= i < pos ==> !pred(#[trigger] s[i]),
        forall|i: int| pos <= i < s.len() ==> pred(#[trigger] s[i]),
    ensures
        s.filter(pred) == s.skip(pos),
    decreases s.len(),
{
    reveal(Seq::filter);
    if s.len() > 0 {
        let front = s.drop_last();
        if pos == s.len() {
            lemma_filter_suffix(front, pred, pos - 1);
            assert(front.skip(pos - 1) =~= s.skip(pos));
        } else {
            lemma_filter_suffix(front, pred, pos);
            assert(front.skip(pos).push(s.last()) =~= s.skip(pos));
        }
    } else {
        assert(s =~= s.skip(pos));
    }
}

/// Where a key belongs among increasing keys: after `pos` entries with
/// smaller keys, in place of an entry with the same key if there is one
/// (`found`), before the entries with greater keys.
pub open spec fn is_place(
    entries: Seq<(Seq<u8>, BencodeView)>,
    key: Seq<u8>,
    pos: int,
    found: bool,
) -> bool {
    &&& 0 <= pos <= entries.len()
    &&& forall|i: int| 0 <= i < pos ==> lex_less((#[trigger] entries[i]).0, key)
    &&& found ==> pos < entries.len() && entries[pos].0 == key
    &&& forall|i: int|
        pos + (if found {
            1int
        } else {
            0int
        }) <= i < entries.len() ==> lex_less(key, (#[trigger] entries[i]).0)
}

/// Putting a value under a key changes the entries at the key's place only.
pub proof fn lemma_dict_insert_at(
    entries: Seq<(Seq<u8>, BencodeView)>,
    key: Seq<u8>,
    value: BencodeView,
    pos: int,
    found: bool,
)
    requires
        is_place(entries, key, pos, found),
    ensures
        dict_insert(entries, key, value) == entries.take(pos) + seq![(key, value)] + entries.skip(
            pos + (if found {
                1int
            } else {
                0int
            }),
        ),
{
    let after = pos + (if found {
        1int
    } else {
        0int
    });
    let below = key_below(key);
    let above = key_above(key);
    lemma_lex_irreflexive(key);
    assert forall|i: int| pos <= i < entries.len() implies !below(#[trigger] entries[i]) by {
        lemma_lex_total(entries[i].0, key);
    }
    assert forall|i: int| 0 <= i < after implies !above(#[trigger] entries[i]) by {
        lemma_lex_total(entries[i].0, key);
    }
    lemma_filter_prefix(entries, below, pos);
    lemma_filter_suffix(entries, above, after);
}

/// Removing a key changes the entries at the key's place only.
pub proof fn lemma_dict_remove_at(
    entries: Seq<(Seq<u8>, BencodeView)>,
    key: Seq<u8>,
    pos: int,
    found: bool,
)
    requires
        is_place(entries, key, pos, found),
    ensures
        dict_remove(entries, key) == entries.take(pos) + entries.skip(
            pos + (if found {
                1int
            } else {
                0int
            }),
        ),
        dict_get(entries, key) == if found {
            Some(entries[pos].1)
        } else {
            None
        },
{
    let after = pos + (if found {
        1int
    } else {
        0int
    });
    let other = key_other(key);
    lemma_lex_irreflexive(key);
    assert forall|i: int| 0 <= i < entries.len() && i != pos implies (#[trigger] entries[i]).0
        != key by {
        lemma_lex_total(entries[i].0, key);
    }
    if !found && pos < entries.len() {
        lemma_lex_total(entries[pos].0, key);
    }
    let kept = entries.take(pos) + entries.skip(after);
    assert(entries.filter(other) == kept) by {
        let head = entries.take(pos);
        let tail = entries.skip(pos);
        assert(entries =~= head + tail);
        Seq::filter_distributes_over_add(head, tail, other);
        lemma_filter_prefix(head, other, pos);
        lemma_filter_suffix(tail, other, after - pos);
        assert(head.take(pos) =~= head);
        assert(tail.skip(after - pos) =~= entries.skip(after));
    }
}

/// Among increasing keys, the value under a key is that of the one entry
/// with this key.
pub proof fn lemma_dict_get_at(entries: Seq<(Seq<u8>, BencodeView)>, i: int)
    requires
        keys_increase(entries),
        0 <= i < entries.len(),
    ensures
        dict_get(entries, entries[i].0) == Some(entries[i].1),
{
    let key = entries[i].0;
    let j = choose|j: int| 0 <= j < entries.len() && (#[trigger] entries[j]).0 == key;
    lemma_lex_irreflexive(key);
    if j < i {
        assert(lex_less(entries[j].0, entries[i].0));
    } else if i < j {
        assert(lex_less(entries[i].0, entries[j].0));
    }
}

/// A dictionary is a map: after a value is put under a key, this value is
/// what stands under the key, and under every other key stands what stood
/// there before.
pub proof fn lemma_dict_insert_get(
    entries: Seq<(Seq<u8>, BencodeView)>,
    key: Seq<u8>,
    value: BencodeView,
    other: Seq<u8>,
)
    requires
        keys_increase(entries),
    ensures
        keys_increase(dict_insert(entries, key, value)),
        dict_get(dict_insert(entries, key, value), other) == if other == key {
            Some(value)
        } else {
            dict_get(entries, other)
        },
{
    let (pos, found) = lemma_place_exists(entries, key);
    lemma_dict_insert_at(entries, key, value, pos, found);
    lemma_dict_insert_sorted(entries, key, value);
    let after = pos + (if found {
        1int
    } else {
        0int
    });
    let result = dict_insert(entries, key, value);
    assert(result[pos] == (key, value));
    if other == key {
        lemma_dict_get_at(result, pos);
    } else if exists|i: int| 0 <= i < entries.len() && (#[trigger] entries[i]).0 == other {
        let i = choose|i: int| 0 <= i < entries.len() && (#[trigger] entries[i]).0 == other;
        lemma_dict_get_at(entries, i);
        let at = if i < pos {
            i
        } else {
            i + 1 + pos - after
        };
        assert(result[at] == entries[i]);
        lemma_dict_get_at(result, at);
    } else {
        assert forall|t: int| 0 <= t < result.len() implies (#[trigger] result[t]).0 != other by {
            if t < pos {
                assert(result[t] == entries[t]);
            } else if t > pos {
                assert(result[t] == entries[t - 1 + after - pos]);
            }
        }
    }
}

/// Putting a value under a key gives the same whether or not the entry
/// under that key was taken out before.
pub proof fn lemma_insert_after_remove(
    entries: Seq<(Seq<u8>, BencodeView)>,
    key: Seq<u8>,
    value: BencodeView,
)
    requires
        keys_increase(entries),
    ensures
        dict_insert(dict_remove(entries, key), key, value) == dict_insert(entries, key, value),
{
    let (pos, found) = lemma_place_exists(entries, key);
    lemma_dict_insert_at(entries, key, value, pos, found);
    lemma_dict_remove_at(entries, key, pos, found);
    let rest = dict_remove(entries, key);
    let after = pos + (if found {
        1int
    } else {
        0int
    });
    assert(is_place(rest, key, pos, false)) by {
        assert forall|i: int| 0 <= i < pos implies lex_less((#[trigger] rest[i]).0, key) by {
            assert(rest[i] == entries[i]);
        }
        assert forall|i: int| pos <= i < rest.len() implies lex_less(key, (#[trigger] rest[i]).0) by {
            assert(rest[i] == entries[i + after - pos]);
        }
    }
    lemma_dict_insert_at(rest, key, value, pos, false);
    assert(rest.take(pos) =~= entries.take(pos));
    assert(rest.skip(pos) =~= entries.skip(after));
}

/// Putting a value under a key keeps the keys strictly increasing.
pub proof fn lemma_dict_insert_sorted(
    entries: Seq<(Seq<u8>, BencodeView)>,
    key: Seq<u8>,
    value: BencodeView,
)
    requires
        keys_increase(entries),
    ensures
        keys_increase(dict_insert(entries, key, value)),
{
    let (pos, found) = lemma_place_exists(entries, key);
    lemma_dict_insert_at(entries, key, value, pos, found);
}

/// Among increasing keys every key has a place.
pub proof fn lemma_place_exists(entries: Seq<(Seq<u8>, BencodeView)>, key: Seq<u8>) -> (place: (
    int,
    bool,
))
    requires
        keys_increase(entries),
    ensures
        is_place(entries, key, place.0, place.1),
    decreases entries.len(),
{
    if entries.len() == 0 {
        (0, false)
    } else {
        let last = entries.last();
        let front = entries.drop_last();
        lemma_lex_total(last.0, key);
        if lex_less(last.0, key) {
            assert forall|i: int| 0 <= i < entries.len() implies lex_less(
                (#[trigger] entries[i]).0,
                key,
            ) by {
                if i < entries.len() - 1 {
                    lemma_lex_transitive(entries[i].0, last.0, key);
                }
            }
            (entries.len() as int, false)
        } else if last.0 == key {
            ((entries.len() - 1) as int, true)
        } else {
            assert(keys_increase(front)) by {
                assert forall|i: int, j: int| 0 <= i < j < front.len() implies lex_less(
                    (#[trigger] front[i]).0,
                    (#[trigger] front[j]).0,
                ) by {
                    assert(front[i] == entries[i] && front[j] == entries[j]);
                }
            }
            let place = lemma_place_exists(front, key);
            assert forall|i: int|
                place.0 + (if place.1 {
                    1int
                } else {
                    0int
                }) <= i < entries.len() implies lex_less(key, (#[trigger] entries[i]).0) by {
                if i < front.len() {
                    assert(front[i] == entries[i]);
                }
            }
            assert forall|i: int| 0 <= i < place.0 implies lex_less(
                (#[trigger] entries[i]).0,
                key,
            ) by {
                assert(front[i] == entries[i]);
            }
            if place.1 {
                assert(front[place.0] == entries[place.0]);
            }
            place
        }
    }
}

impl BencodeDict {
    #[verifier::type_invariant]
    spec fn inv(self) -> bool {
        forall|i: int, j: int|
            0 <= i < j < self.entries@.len() ==> lex_less(
                (#[trigger] self.entries@[i]).0@,
                (#[trigger] self.entries@[j]).0@,
            )
    }

    /// An empty dictionary.
    pub fn new() -> (dict: Self)
        ensures
            dict@ == Seq::<(Seq<u8>, BencodeView)>::empty(),
    {
        let dict = BencodeDict { entries: Vec::new() };
        assert(dict@ =~= Seq::<(Seq<u8>, BencodeView)>::empty());
        dict
    }

    /// The number of entries. Their keys are strictly increasing, as in
    /// every dictionary.
    pub fn len(&self) -> (n: usize)
        ensures
            n == self@.len(),
            keys_increase(self@),
    {
        proof {
            use_type_invariant(self);
            assert(keys_increase(self@));
        }
        self.entries.len()
    }

    /// Finds the place of `key` among the keys of the dictionary.
    fn search(&self, key: &[u8]) -> (place: (usize, bool))
        ensures
            is_place(self@, key@, place.0 as int, place.1),
            keys_increase(self@),
    {
        proof {
            use_type_invariant(self);
            assert(keys_increase(self@));
        }
        let ghost entries = self@;
        let mut lo: usize = 0;
        let mut hi: usize = self.entries.len();
        while lo < hi
            invariant
                entries == self@,
                keys_increase(entries),
                0 <= lo <= hi <= entries.len(),
                entries.len() == self.entries@.len(),
                forall|i: int| 0 <= i < lo ==> lex_less((#[trigger] entries[i]).0, key@),
                forall|i: int| hi <= i < entries.len() ==> lex_less(key@, (#[trigger] entries[i]).0),
            decreases hi - lo,
        {
            let mid: usize = lo + (hi - lo) / 2;
            assert(entries[mid as int].0 == self.entries@[mid as int].0@);
            match compare_bytes(self.entries[mid].0.as_slice(), key) {
                Place::Before => {
                    proof {
                        assert forall|i: int| 0 <= i < mid + 1 implies lex_less(
                            (#[trigger] entries[i]).0,
                            key@,
                        ) by {
                            if i < mid {
                                lemma_lex_transitive(entries[i].0, entries[mid as int].0, key@);
                            }
                        }
                    }
                    lo = mid + 1;
                },
                Place::Same => {
                    proof {
                        assert forall|i: int| 0 <= i < mid implies lex_less(
                            (#[trigger] entries[i]).0,
                            key@,
                        ) by {}
                        assert forall|i: int| mid + 1 <= i < entries.len() implies lex_less(
                            key@,
                            (#[trigger] entries[i]).0,
                        ) by {}
                    }
                    return (mid, true);
                },
                Place::After => {
                    proof {
                        assert forall|i: int| mid <= i < entries.len() implies lex_less(
                            key@,
                            (#[trigger] entries[i]).0,
                        ) by {
                            if i > mid {
                                lemma_lex_transitive(key@, entries[mid as int].0, entries[i].0);
                            }
                        }
                    }
                    hi = mid;
                },
            }
        }
        (lo, false)
    }

    /// The value under `key`, if the dictionary holds one.
    pub fn get(&self, key: &[u8]) -> (value: Option<&BencodeValue>)
        ensures
            keys_increase(self@),
            match value {
                Some(v) => dict_get(self@, key@) == Some(v@),
                None => dict_get(self@, key@) is None,
            },
    {
        let (pos, found) = self.search(key);
        proof {
            lemma_dict_remove_at(self@, key@, pos as int, found);
        }
        if found {
            Some(&self.entries[pos].1)
        } else {
            None
        }
    }

    /// Puts `value` under `key`, in place of the value that the dictionary
    /// held under that key, if any; returns that value.
    pub fn insert(&mut self, key: Vec<u8>, value: BencodeValue) -> (previous: Option<BencodeValue>)
        ensures
            final(self)@ == dict_insert(old(self)@, key@, value@),
            keys_increase(final(self)@),
            match previous {
                Some(v) => dict_get(old(self)@, key@) == Some(v@),
                None => dict_get(old(self)@, key@) is None,
            },
    {
        let (pos, found) = self.search(key.as_slice());
        let ghost before = self@;
        let ghost after = dict_insert(before, key@, value@);
        proof {
            lemma_dict_insert_at(before, key@, value@, pos as int, found);
            lemma_dict_remove_at(before, key@, pos as int, found);
            lemma_dict_insert_sorted(before, key@, value@);
        }
        let mut entries: Vec<(Vec<u8>, BencodeValue)> = Vec::new();
        core::mem::swap(&mut self.entries, &mut entries);
        let previous = if found {
            Some(entries.remove(pos).1)
        } else {
            None
        };
        entries.insert(pos, (key, value));
        proof {
            assert(after.len() == entries@.len());
            assert forall|i: int| 0 <= i < after.len() implies after[i] == (
                (#[trigger] entries@[i]).0@,
                entries@[i].1@,
            ) by {
                if i < pos {
                    assert(after[i] == before[i]);
                } else if i > pos {
                    if found {
                        assert(after[i] == before[i]);
                    } else {
                        assert(after[i] == before[i - 1]);
                    }
                }
            }
            assert forall|i: int, j: int| 0 <= i < j < entries@.len() implies lex_less(
                (#[trigger] entries@[i]).0@,
                (#[trigger] entries@[j]).0@,
            ) by {
                assert(after[i].0 == entries@[i].0@);
                assert(after[j].0 == entries@[j].0@);
            }
        }
        self.entries = entries;
        assert(self@ =~= after);
        previous
    }

    /// Puts `value` under `key`, in place of the value that the dictionary
    /// held under that key, if any.
    pub fn put(&mut self, key: Vec<u8>, value: BencodeValue)
        ensures
            final(self)@ == dict_insert(old(self)@, key@, value@),
    {
        let _ = self.insert(key, value);
    }

    /// Takes the value under `key` out of the dictionary, if it holds one.
    pub fn remove(&mut self, key: &[u8]) -> (value: Option<BencodeValue>)
        ensures
            final(self)@ == dict_remove(old(self)@, key@),
            keys_increase(old(self)@),
            keys_increase(final(self)@),
            match value {
                Some(v) => dict_get(old(self)@, key@) == Some(v@),
                None => dict_get(old(self)@, key@) is None,
            },
    {
        let (pos, found) = self.search(key);
        let ghost before = self@;
        let ghost after = dict_remove(before, key@);
        proof {
            lemma_dict_remove_at(before, key@, pos as int, found);
        }
        if !found {
            assert(after =~= before);
            return None;
        }
        let mut entries: Vec<(Vec<u8>, BencodeValue)> = Vec::new();
        core::mem::swap(&mut self.entries, &mut entries);
        let taken = entries.remove(pos);
        proof {
            assert(after.len() == entries@.len());
            assert forall|i: int| 0 <= i < after.len() implies after[i] == (
                (#[trigger] entries@[i]).0@,
                entries@[i].1@,
            ) by {
                if i < pos {
                    assert(after[i] == before[i]);
                } else {
                    assert(after[i] == before[i + 1]);
                }
            }
            assert forall|i: int, j: int| 0 <= i < j < entries@.len() implies lex_less(
                (#[trigger] entries@[i]).0@,
                (#[trigger] entries@[j]).0@,
            ) by {
                let a = if i < pos { i } else { i + 1 };
                let b = if j < pos { j } else { j + 1 };
                assert(before[a].0 == entries@[i].0@);
                assert(before[b].0 == entries@[j].0@);
            }
        }
        self.entries = entries;
        assert(self@ =~= after);
        assert(keys_increase(after)) by {
            assert forall|i: int, j: int| 0 <= i < j < after.len() implies lex_less(
                (#[trigger] after[i]).0,
                (#[trigger] after[j]).0,
            ) by {
                let a = if i < pos { i } else { i + 1 };
                let b = if j < pos { j } else { j + 1 };
                assert(after[i] == before[a] && after[j] == before[b]);
            }
        }
        Some(taken.1)
    }
}

impl BencodeValue {
    /// Appends the encoding of the byte string `bytes` to `segments`.
    pub fn collect_bytes(bytes: &[u8], segments: &mut Vec<u8>)
        ensures
            final(segments)@ == old(segments)@ + encoded_bytes(bytes@),
    {
        push_decimal(bytes.len() as u64, segments);
        segments.push(58u8);
        segments.extend_from_slice(bytes);
        assert(segments@ =~= old(segments)@ + encoded_bytes(bytes@));
    }

    /// Appends the encoding of the value to `segments`.
    pub fn collect_segments(&self, segments: &mut Vec<u8>)
        ensures
            final(segments)@ == old(segments)@ + self@.encoded(),
            self@.sorted(),
        decreases self,
    {
        match self {
            BencodeValue::Integer(i) => {
                segments.push(105u8);
                push_decimal_int(*i, segments);
                segments.push(101u8);
                assert(segments@ =~= old(segments)@ + self@.encoded());
            },
            BencodeValue::Bytes(b) => {
                Self::collect_bytes(b.as_slice(), segments);
            },
            BencodeValue::List(l) => {
                let ghost items = self@->List_0;
                segments.push(108u8);
                let mut i: usize = 0;
                while i < l.len()
                    invariant
                        self == BencodeValue::List(*l),
                        items == self@->List_0,
                        items.len() == l@.len(),
                        i <= l@.len(),
                        segments@ == old(segments)@ + seq![108u8] + encoded_items(items, i as nat),
                        forall|k: int| 0 <= k < i ==> (#[trigger] items[k]).sorted(),
                    decreases l@.len() - i,
                {
                    assert(items[i as int] == l@[i as int]@);
                    let ghost before = segments@;
                    l[i].collect_segments(segments);
                    assert(segments@ =~= old(segments)@ + seq![108u8] + encoded_items(
                        items,
                        (i + 1) as nat,
                    ));
                    i += 1;
                }
                segments.push(101u8);
                assert(segments@ =~= old(segments)@ + self@.encoded());
            },
            BencodeValue::Dict(m) => {
                let ghost entries = m@;
                proof {
                    use_type_invariant(m);
                    assert(keys_increase(entries));
                }
                segments.push(100u8);
                let mut i: usize = 0;
                while i < m.entries.len()
                    invariant
                        self == BencodeValue::Dict(*m),
                        entries == m@,
                        entries.len() == m.entries@.len(),
                        i <= m.entries@.len(),
                        segments@ == old(segments)@ + seq![100u8] + encoded_entries(
                            entries,
                            i as nat,
                        ),
                        forall|k: int| 0 <= k < i ==> (#[trigger] entries[k]).1.sorted(),
                    decreases m.entries@.len() - i,
                {
                    assert(entries[i as int] == (m.entries@[i as int].0@, m.entries@[i as int].1@));
                    let entry = &m.entries[i];
                    assert(decreases_to!(self => self->Dict_0));
                    Self::collect_bytes(entry.0.as_slice(), segments);
                    entry.1.collect_segments(segments);
                    assert(segments@ =~= old(segments)@ + seq![100u8] + encoded_entries(
                        entries,
                        (i + 1) as nat,
                    ));
                    i += 1;
                }
                segments.push(101u8);
                assert(segments@ =~= old(segments)@ + self@.encoded());
            },
        }
    }

    /// The canonical encoding of the value. In it the entries of every
    /// dictionary stand in strictly increasing order of their keys.
    pub fn serialize(&self) -> (out: Vec<u8>)
        ensures
            out@ == self@.encoded(),
            self@.sorted(),
    {
        let mut ret: Vec<u8> = Vec::new();
        self.collect_segments(&mut ret);
        ret
    }
}

impl From<&str> for BencodeValue {
    /// The byte string that holds the UTF-8 encoding of `s`.
    fn from(s: &str) -> (value: Self)
        ensures
            value@ == BencodeView::Bytes(s.spec_bytes()),
    {
        BencodeValue::Bytes(s.as_bytes_vec())
    }
}

impl vstd::std_specs::convert::FromSpecImpl<&str> for BencodeValue {
    open spec fn obeys_from_spec() -> bool {
        false
    }

    open spec fn from_spec(s: &str) -> Self {
        BencodeValue::Integer(0)
    }
}

impl From<i64> for BencodeValue {
    fn from(i: i64) -> (value: Self) {
        BencodeValue::Integer(i)
    }
}

impl vstd::std_specs::convert::FromSpecImpl<i64> for BencodeValue {
    open spec fn obeys_from_spec() -> bool {
        true
    }

    open spec fn from_spec(i: i64) -> Self {
        BencodeValue::Integer(i)
    }
}

} // verus!
