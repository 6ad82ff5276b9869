//! The decoded value tree and its mathematical model.
//!
//! A decoded document is an immutable tree: integers, opaque byte strings,
//! ordered lists, and dictionaries mapping byte-string keys to values.  Byte
//! strings stay raw bytes; a consumer that wants text goes through the
//! explicit, fallible [`Bencode::as_text`] accessor.

use vstd::prelude::*;
use vstd::utf8::encode_utf8;
use vstd::utf8::decode_utf8;
use vstd::utf8::encode_utf8_decode_utf8;

verus! {

/// A decoded bencode value.
///
/// Dictionary entries are kept in encoded order with unique keys; when the
/// input repeats a key, the later pair replaces the earlier one in place
/// (the earlier position is kept, the later value wins).
#[derive(Debug, PartialEq, Eq)]
pub enum Bencode {
    /// A signed 64-bit integer, `i<digits>e` on the wire.
    Int(i64),
    /// An opaque byte string, `<length>:<bytes>` on the wire.
    Bytes(Vec<u8>),
    /// An ordered sequence of values, `l<value>*e` on the wire.
    List(Vec<Bencode>),
    /// Key-value pairs, `d(<key><value>)*e` on the wire.
    Dict(Vec<(Vec<u8>, Bencode)>),
}

/// The mathematical model of a decoded value: the same tree over `int`,
/// `Seq<u8>` and `Seq`, which all contracts in this crate speak of.
pub enum BValue {
    Int(int),
    Bytes(Seq<u8>),
    List(Seq<BValue>),
    Dict(Seq<(Seq<u8>, BValue)>),
}

/// The model of a concrete value: each node abstracted to [`BValue`].
pub open spec fn value_model(v: Bencode) -> BValue
    decreases v, 1int,
{
    match v {
        Bencode::Int(i) => BValue::Int(i as int),
        Bencode::Bytes(b) => BValue::Bytes(b@),
        Bencode::List(l) => BValue::List(vals_model_rec(l@)),
        Bencode::Dict(d) => BValue::Dict(pairs_model_rec(d@)),
    }
}

/// The model of each element of a sequence of values.
pub open spec fn vals_model_rec(s: Seq<Bencode>) -> Seq<BValue>
    decreases s, 0int,
{
    if s.len() == 0 {
        Seq::empty()
    } else {
        seq![value_model(s[0])] + vals_model_rec(s.drop_first())
    }
}

/// The model of each entry of a sequence of dictionary pairs.
pub open spec fn pairs_model_rec(s: Seq<(Vec<u8>, Bencode)>) -> Seq<(Seq<u8>, BValue)>
    decreases s, 0int,
{
    if s.len() == 0 {
        Seq::empty()
    } else {
        seq![(s[0].0@, value_model(s[0].1))] + pairs_model_rec(s.drop_first())
    }
}

impl View for Bencode {
    type V = BValue;

    open spec fn view(&self) -> BValue {
        value_model(*self)
    }
}

/// The model of a sequence of concrete values, element by element.
pub open spec fn vals_model(s: Seq<Bencode>) -> Seq<BValue> {
    Seq::new(s.len(), |i: int| value_model(s[i]))
}

/// The model of a sequence of concrete dictionary entries, entry by entry.
pub open spec fn pairs_model(s: Seq<(Vec<u8>, Bencode)>) -> Seq<(Seq<u8>, BValue)> {
    Seq::new(s.len(), |i: int| (s[i].0@, value_model(s[i].1)))
}

/// Entries with a pair inserted: the first entry carrying the same key is
/// replaced in place, and a fresh key is appended at the end.
pub open spec fn dict_insert(
    es: Seq<(Seq<u8>, BValue)>,
    k: Seq<u8>,
    v: BValue,
) -> Seq<(Seq<u8>, BValue)>
    decreases es.len(),
{
    if es.len() == 0 {
        seq![(k, v)]
    } else if es[0].0 == k {
        seq![(k, v)] + es.drop_first()
    } else {
        seq![es[0]] + dict_insert(es.drop_first(), k, v)
    }
}

/// The dictionary built from raw key-value pairs in encoded order: a repeated
/// key overwrites the value of its earlier occurrence.
pub open spec fn dict_of_pairs(pairs: Seq<(Seq<u8>, BValue)>) -> Seq<(Seq<u8>, BValue)>
    decreases pairs.len(),
{
    if pairs.len() == 0 {
        Seq::empty()
    } else {
        dict_insert(dict_of_pairs(pairs.drop_last()), pairs.last().0, pairs.last().1)
    }
}

/// The value at the first entry carrying the given key, if any.
pub open spec fn dict_get(es: Seq<(Seq<u8>, BValue)>, k: Seq<u8>) -> Option<BValue>
    decreases es.len(),
{
    if es.len() == 0 {
        Option::None
    } else if es[0].0 == k {
        Option::Some(es[0].1)
    } else {
        dict_get(es.drop_first(), k)
    }
}

/// True when no two entries carry the same key.
pub open spec fn keys_unique(es: Seq<(Seq<u8>, BValue)>) -> bool {
    forall|i: int, j: int| 0 <= i < j < es.len() ==> es[i].0 != es[j].0
}

/// True when some entry carries the key.
pub open spec fn contains_key(es: Seq<(Seq<u8>, BValue)>, k: Seq<u8>) -> bool {
    exists|i: int| 0 <= i < es.len() && es[i].0 == k
}

/// Inserting a pair keeps keys unique, and introduces no key besides the
/// inserted one.
pub proof fn lemma_dict_insert_keys_unique(es: Seq<(Seq<u8>, BValue)>, k: Seq<u8>, v: BValue)
    requires
        keys_unique(es),
    ensures
        keys_unique(dict_insert(es, k, v)),
        forall|x: Seq<u8>|
            contains_key(dict_insert(es, k, v), x) ==> x == k || contains_key(es, x),
    decreases es.len(),
{
    let r = dict_insert(es, k, v);
    if es.len() == 0 {
        assert forall|x: Seq<u8>| contains_key(r, x) implies x == k || contains_key(es, x) by {
            let i = choose|i: int| 0 <= i < r.len() && r[i].0 == x;
            assert(r[0].0 == k);
        }
    } else if es[0].0 == k {
        assert forall|i: int| 0 <= i < r.len() implies r[i].0 == es[i].0 by {
            if i > 0 {
                assert(r[i] == es.drop_first()[i - 1]);
            }
        }
        assert forall|i: int, j: int| 0 <= i < j < r.len() implies r[i].0 != r[j].0 by {
            assert(r[i].0 == es[i].0);
            assert(r[j].0 == es[j].0);
        }
        assert forall|x: Seq<u8>| contains_key(r, x) implies x == k || contains_key(es, x) by {
            let i = choose|i: int| 0 <= i < r.len() && r[i].0 == x;
            assert(es[i].0 == x);
        }
    } else {
        let rest = es.drop_first();
        assert(keys_unique(rest)) by {
            assert forall|i: int, j: int| 0 <= i < j < rest.len() implies rest[i].0 != rest[j].0 by {
                assert(es[i + 1].0 != es[j + 1].0);
            }
        }
        lemma_dict_insert_keys_unique(rest, k, v);
        let rp = dict_insert(rest, k, v);
        assert(!contains_key(rest, es[0].0)) by {
            if contains_key(rest, es[0].0) {
                let i = choose|i: int| 0 <= i < rest.len() && rest[i].0 == es[0].0;
                assert(es[i + 1].0 == es[0].0);
            }
        }
        assert forall|i: int, j: int| 0 <= i < j < r.len() implies r[i].0 != r[j].0 by {
            if i == 0 {
                assert(rp[j - 1].0 == r[j].0);
                assert(contains_key(rp, r[j].0));
            } else {
                assert(rp[i - 1].0 != rp[j - 1].0);
            }
        }
        assert forall|x: Seq<u8>| contains_key(r, x) implies x == k || contains_key(es, x) by {
            let i = choose|i: int| 0 <= i < r.len() && r[i].0 == x;
            if i == 0 {
                assert(es[0].0 == x);
            } else {
                assert(contains_key(dict_insert(rest, k, v), x)) by {
                    assert(dict_insert(rest, k, v)[i - 1].0 == x);
                }
                assert(x == k || contains_key(rest, x));
                if x != k {
                    let j = choose|j: int| 0 <= j < rest.len() && rest[j].0 == x;
                    assert(es[j + 1].0 == x);
                }
            }
        }
    }
}

/// The dictionary built from any raw pair run carries unique keys.
pub proof fn lemma_dict_of_pairs_keys_unique(pairs: Seq<(Seq<u8>, BValue)>)
    ensures
        keys_unique(dict_of_pairs(pairs)),
    decreases pairs.len(),
{
    if pairs.len() > 0 {
        lemma_dict_of_pairs_keys_unique(pairs.drop_last());
        lemma_dict_insert_keys_unique(
            dict_of_pairs(pairs.drop_last()),
            pairs.last().0,
            pairs.last().1,
        );
    }
}

/// The recursive form of the model agrees with the element-by-element form.
pub proof fn lemma_vals_model_rec(s: Seq<Bencode>)
    ensures
        vals_model_rec(s) == vals_model(s),
    decreases s.len(),
{
    if s.len() > 0 {
        lemma_vals_model_rec(s.drop_first());
        assert(vals_model_rec(s) =~= vals_model(s));
    } else {
        assert(vals_model_rec(s) =~= vals_model(s));
    }
}

/// The recursive form of the entry model agrees with the entry-by-entry form.
pub proof fn lemma_pairs_model_rec(s: Seq<(Vec<u8>, Bencode)>)
    ensures
        pairs_model_rec(s) == pairs_model(s),
    decreases s.len(),
{
    if s.len() > 0 {
        lemma_pairs_model_rec(s.drop_first());
        assert(pairs_model_rec(s) =~= pairs_model(s));
    } else {
        assert(pairs_model_rec(s) =~= pairs_model(s));
    }
}

/// True when two byte slices hold the same bytes.
pub fn bytes_eq(a: &[u8], b: &[u8]) -> (r: bool)
    ensures
        r == (a@ == b@),
{
    if a.len() != b.len() {
        return false;
    }
    let mut i: usize = 0;
    while i < a.len()
        invariant
            i <= a@.len(),
            a@.len() == b@.len(),
            forall|j: int| 0 <= j < i ==> a@[j] == b@[j],
        decreases a@.len() - i,
    {
        if a[i] != b[i] {
            return false;
        }
        i += 1;
    }
    proof {
        assert(a@ =~= b@);
    }
    true
}

/// Inserting a key that sits at position `i` replaces that entry in place.
pub proof fn lemma_dict_insert_found(es: Seq<(Seq<u8>, BValue)>, k: Seq<u8>, v: BValue, i: int)
    requires
        0 <= i < es.len(),
        es[i].0 == k,
        forall|j: int| 0 <= j < i ==> es[j].0 != k,
    ensures
        dict_insert(es, k, v) == es.update(i, (k, v)),
    decreases es.len(),
{
    if i == 0 {
        assert(dict_insert(es, k, v) =~= es.update(0, (k, v)));
    } else {
        assert(es.drop_first()[i - 1].0 == k);
        assert forall|j: int| 0 <= j < i - 1 implies es.drop_first()[j].0 != k by {
            assert(es[j + 1].0 != k);
        }
        lemma_dict_insert_found(es.drop_first(), k, v, i - 1);
        assert(dict_insert(es, k, v) =~= es.update(i, (k, v)));
    }
}

/// Inserting a key that no entry carries appends the pair at the end.
pub proof fn lemma_dict_insert_missing(es: Seq<(Seq<u8>, BValue)>, k: Seq<u8>, v: BValue)
    requires
        forall|j: int| 0 <= j < es.len() ==> es[j].0 != k,
    ensures
        dict_insert(es, k, v) == es.push((k, v)),
    decreases es.len(),
{
    if es.len() == 0 {
        assert(dict_insert(es, k, v) =~= es.push((k, v)));
    } else {
        assert forall|j: int| 0 <= j < es.drop_first().len() implies es.drop_first()[j].0 != k by {
            assert(es[j + 1].0 != k);
        }
        lemma_dict_insert_missing(es.drop_first(), k, v);
        assert(dict_insert(es, k, v) =~= es.push((k, v)));
    }
}

/// Insert a decoded pair into concrete entries exactly as [`dict_insert`]
/// does on their model.
#[verifier::loop_isolation(false)]
pub fn dict_insert_entry(entries: &mut Vec<(Vec<u8>, Bencode)>, k: Vec<u8>, v: Bencode)
    ensures
        pairs_model(final(entries)@) == dict_insert(pairs_model(old(entries)@), k@, value_model(v)),
{
    let ghost es = pairs_model(entries@);
    let mut i: usize = 0;
    while i < entries.len()
        invariant
            i <= entries@.len(),
            entries@ == old(entries)@,
            forall|j: int| 0 <= j < i ==> es[j].0 != k@,
        decreases entries@.len() - i,
    {
        if bytes_eq(entries[i].0.as_slice(), k.as_slice()) {
            proof {
                assert(es[i as int].0 == k@);
                lemma_dict_insert_found(es, k@, value_model(v), i as int);
            }
            entries.remove(i);
            entries.insert(i, (k, v));
            proof {
                assert(pairs_model(entries@) =~= es.update(i as int, (k@, value_model(v))));
            }
            return ;
        }
        i += 1;
    }
    proof {
        lemma_dict_insert_missing(es, k@, value_model(v));
    }
    entries.push((k, v));
    proof {
        assert(pairs_model(entries@) =~= es.push((k@, value_model(v))));
    }
}

/// True when some character sequence encodes to these bytes, that is, when
/// the bytes are valid UTF-8.
pub open spec fn is_utf8(b: Seq<u8>) -> bool {
    exists|cs: Seq<char>| encode_utf8(cs) == b
}

/// Relies on core::str::from_utf8: it returns the string slice over the
/// given bytes exactly when they are valid UTF-8, so the result views as the
/// characters the bytes encode, and there is no such view otherwise.
#[verifier::external_body]
fn bytes_as_utf8(bytes: &[u8]) -> (r: Option<&str>)
    ensures
        match r {
            Option::Some(t) => encode_utf8(t@) == bytes@,
            Option::None => forall|cs: Seq<char>| encode_utf8(cs) != bytes@,
        },
{
    match core::str::from_utf8(bytes) {
        Ok(t) => Option::Some(t),
        Err(_) => Option::None,
    }
}

/// The key sits first at position `i`: the lookup returns that entry.
pub proof fn lemma_dict_get_found(es: Seq<(Seq<u8>, BValue)>, k: Seq<u8>, i: int)
    requires
        0 <= i < es.len(),
        es[i].0 == k,
        forall|j: int| 0 <= j < i ==> es[j].0 != k,
    ensures
        dict_get(es, k) == Option::Some(es[i].1),
    decreases es.len(),
{
    if i > 0 {
        assert(es.drop_first()[i - 1].0 == k);
        assert forall|j: int| 0 <= j < i - 1 implies es.drop_first()[j].0 != k by {
            assert(es[j + 1].0 != k);
        }
        lemma_dict_get_found(es.drop_first(), k, i - 1);
    }
}

/// No entry carries the key: the lookup returns nothing.
pub proof fn lemma_dict_get_missing(es: Seq<(Seq<u8>, BValue)>, k: Seq<u8>)
    requires
        forall|j: int| 0 <= j < es.len() ==> es[j].0 != k,
    ensures
        dict_get(es, k) == Option::None::<BValue>,
    decreases es.len(),
{
    if es.len() > 0 {
        assert forall|j: int| 0 <= j < es.drop_first().len() implies es.drop_first()[j].0 != k by {
            assert(es[j + 1].0 != k);
        }
        lemma_dict_get_missing(es.drop_first(), k);
    }
}

impl Bencode {
    /// Look a key up in a dictionary value.
    ///
    /// Returns the value at the unique entry carrying the key, and nothing
    /// when the key is absent or when this value is not a dictionary: an
    /// absent key is an explicit not-found signal, never a default.
    #[verifier::loop_isolation(false)]
    pub fn get<'a>(&'a self, key: &[u8]) -> (r: Option<&'a Bencode>)
        ensures
            match r {
                Option::Some(v) => self@ matches BValue::Dict(es) && dict_get(es, key@)
                    == Option::Some(v@),
                Option::None => match self@ {
                    BValue::Dict(es) => dict_get(es, key@) is None,
                    _ => true,
                },
            },
    {
        match self {
            Bencode::Dict(entries) => {
                let ghost es = pairs_model(entries@);
                proof {
                    lemma_pairs_model_rec(entries@);
                }
                let mut i: usize = 0;
                while i < entries.len()
                    invariant
                        i <= entries@.len(),
                        forall|j: int| 0 <= j < i ==> es[j].0 != key@,
                    decreases entries@.len() - i,
                {
                    if bytes_eq(entries[i].0.as_slice(), key) {
                        proof {
                            lemma_dict_get_found(es, key@, i as int);
                        }
                        return Option::Some(&entries[i].1);
                    }
                    i += 1;
                }
                proof {
                    lemma_dict_get_missing(es, key@);
                }
                Option::None
            },
            _ => Option::None,
        }
    }

    /// Interpret a byte-string value as UTF-8 text.
    ///
    /// This is the explicit, fallible accessor: decoding never coerces bytes
    /// to text, and this returns nothing when the bytes are not valid UTF-8
    /// or when this value is not a byte string.
    pub fn as_text<'a>(&'a self) -> (r: Option<&'a str>)
        ensures
            match r {
                Option::Some(t) => self@ matches BValue::Bytes(b) && encode_utf8(t@) == b && t@
                    == decode_utf8(b),
                Option::None => match self@ {
                    BValue::Bytes(b) => !is_utf8(b),
                    _ => true,
                },
            },
    {
        match self {
            Bencode::Bytes(bytes) => match bytes_as_utf8(bytes.as_slice()) {
                Option::Some(t) => {
                    proof {
                        encode_utf8_decode_utf8(t@);
                    }
                    Option::Some(t)
                },
                Option::None => Option::None,
            },
            _ => Option::None,
        }
    }
}

} // verus!
