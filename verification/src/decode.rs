//! The decoder and its specification.
//!
//! Each decoder consumes a non-empty prefix of its input and reports exactly
//! how many bytes it consumed, or fails without partial results.  The
//! functions `spec_decode`, `spec_decode_str`, `spec_decode_int`,
//! `spec_decode_list` and `spec_decode_dict` state the grammar; every
//! executable decoder is proved to return precisely what they say.
//!
//! Untrusted input cannot exhaust resources: nesting is bounded by
//! [`MAX_DEPTH`], and a declared byte-string length is checked against the
//! bytes that remain before anything is allocated, so no crafted length
//! prefix forces an allocation beyond the input's own size.

use vstd::prelude::*;

use crate::value::dict_insert_entry;
use crate::value::dict_of_pairs;
use crate::value::keys_unique;
use crate::value::lemma_dict_of_pairs_keys_unique;
use crate::value::lemma_pairs_model_rec;
use crate::value::lemma_vals_model_rec;
use crate::value::pairs_model;
use crate::value::vals_model;
use crate::value::value_model;
use crate::value::BValue;
use crate::value::Bencode;

verus! {

/// The byte `':'`, which ends a byte-string length prefix.
pub const COLON: u8 = 58;

/// The byte `'e'`, which ends integers, lists and dictionaries.
pub const TERMINATOR: u8 = 101;

/// The byte `'i'`, which opens an integer.
pub const TAG_INT: u8 = 105;

/// The byte `'l'`, which opens a list.
pub const TAG_LIST: u8 = 108;

/// The byte `'d'`, which opens a dictionary.
pub const TAG_DICT: u8 = 100;

/// The byte `'-'`, the optional sign of an integer.
pub const MINUS: u8 = 45;

/// The byte `'0'`.
pub const DIGIT_ZERO: u8 = 48;

/// The byte `'9'`.
pub const DIGIT_NINE: u8 = 57;

/// How deeply lists and dictionaries may nest before the decoder fails with
/// [`DecodeError::DepthExceeded`] instead of recursing further.
pub const MAX_DEPTH: u32 = 64;

/// Why a decode failed.
#[derive(Debug, Clone, Copy, PartialEq, Eq, Structural)]
pub enum DecodeError {
    /// The bytes do not match the grammar at the current position: a missing
    /// terminator, an invalid length or digit sequence, a truncated payload,
    /// an unrecognized leading tag byte, or empty input.  A declared length
    /// that exceeds the remaining bytes is reported here too, which is what
    /// keeps a crafted length prefix from forcing a large allocation.
    MalformedInput,
    /// The input nests composites deeper than [`MAX_DEPTH`].
    DepthExceeded,
}

/// True of the bytes `'0'` through `'9'`.
pub open spec fn is_digit(b: u8) -> bool {
    DIGIT_ZERO <= b <= DIGIT_NINE
}

/// Position of the first occurrence of `b` in `s`, if any.
pub open spec fn find_byte(s: Seq<u8>, b: u8) -> Option<int>
    decreases s.len(),
{
    if s.len() == 0 {
        Option::None
    } else if s[0] == b {
        Option::Some(0int)
    } else {
        match find_byte(s.drop_first(), b) {
            Option::None => Option::None,
            Option::Some(i) => Option::Some(i + 1),
        }
    }
}

/// What `find_byte` returns: the position of the first occurrence.
pub proof fn lemma_find_byte(s: Seq<u8>, b: u8)
    ensures
        match find_byte(s, b) {
            Option::None => forall|j: int| 0 <= j < s.len() ==> s[j] != b,
            Option::Some(i) => 0 <= i < s.len() && s[i] == b && forall|j: int|
                0 <= j < i ==> s[j] != b,
        },
    decreases s.len(),
{
    if s.len() > 0 && s[0] != b {
        lemma_find_byte(s.drop_first(), b);
        let t = s.drop_first();
        match find_byte(t, b) {
            Option::None => {
                assert forall|j: int| 0 <= j < s.len() implies s[j] != b by {
                    if j > 0 {
                        assert(t[j - 1] != b);
                    }
                }
            },
            Option::Some(i) => {
                assert(s[i + 1] == b);
                assert forall|j: int| 0 <= j < i + 1 implies s[j] != b by {
                    if j > 0 {
                        assert(t[j - 1] != b);
                    }
                }
            },
        }
    }
}

/// The converse: a witness position pins `find_byte` down.
pub proof fn lemma_find_byte_at(s: Seq<u8>, b: u8, i: int)
    requires
        0 <= i < s.len(),
        s[i] == b,
        forall|j: int| 0 <= j < i ==> s[j] != b,
    ensures
        find_byte(s, b) == Option::Some(i),
{
    lemma_find_byte(s, b);
    match find_byte(s, b) {
        Option::None => {
            assert(s[i] != b);
        },
        Option::Some(k) => {
            if k < i {
                assert(s[k] != b);
            } else if k > i {
                assert(s[i] != b);
            }
        },
    }
}

/// Numeric value of a sequence of decimal digit bytes, most significant first.
pub open spec fn dec_value(s: Seq<u8>) -> int
    decreases s.len(),
{
    if s.len() == 0 {
        0
    } else {
        dec_value(s.drop_last()) * 10 + (s.last() - DIGIT_ZERO)
    }
}

/// True when every byte of `s` is a decimal digit.
pub open spec fn all_digits(s: Seq<u8>) -> bool {
    forall|i: int| 0 <= i < s.len() ==> is_digit(s[i])
}

/// A valid byte-string length prefix: one or more decimal digits, where `0`
/// alone is the only form that may start with a zero.
pub open spec fn valid_len_prefix(s: Seq<u8>) -> bool {
    s.len() > 0 && all_digits(s) && (s.len() == 1 || s[0] != DIGIT_ZERO)
}

/// A valid integer interior: an optional minus sign, then at least one digit.
/// Leading zeros and `-0` are accepted and read as their decimal value, so
/// `-0` reads as zero; this keeps the decoder lenient, as its consumers expect.
pub open spec fn valid_int_literal(s: Seq<u8>) -> bool {
    if s.len() > 0 && s[0] == MINUS {
        s.len() > 1 && all_digits(s.drop_first())
    } else {
        s.len() > 0 && all_digits(s)
    }
}

/// The signed value an integer interior denotes.
pub open spec fn int_literal_value(s: Seq<u8>) -> int
    recommends
        valid_int_literal(s),
{
    if s.len() > 0 && s[0] == MINUS {
        -dec_value(s.drop_first())
    } else {
        dec_value(s)
    }
}

/// The byte-string production `<length>:<bytes>`: the bytes and the count
/// consumed, or the error when the colon is missing, the length prefix is
/// invalid, or fewer bytes remain than the prefix declares.
pub open spec fn spec_decode_str(s: Seq<u8>) -> Result<(Seq<u8>, int), DecodeError> {
    match find_byte(s, COLON) {
        Option::None => Result::Err(DecodeError::MalformedInput),
        Option::Some(c) => {
            let prefix = s.take(c);
            if !valid_len_prefix(prefix) {
                Result::Err(DecodeError::MalformedInput)
            } else {
                let n = dec_value(prefix);
                if s.len() < c + 1 + n {
                    Result::Err(DecodeError::MalformedInput)
                } else {
                    Result::Ok((s.subrange(c + 1, c + 1 + n), c + 1 + n))
                }
            }
        },
    }
}

/// The integer production `i<digits>e`: the value and the count consumed, or
/// the error when the terminator is missing, the interior is not a valid
/// signed decimal, or the value does not fit in a signed 64-bit integer.
pub open spec fn spec_decode_int(s: Seq<u8>) -> Result<(int, int), DecodeError> {
    if s.len() == 0 || s[0] != TAG_INT {
        Result::Err(DecodeError::MalformedInput)
    } else {
        match find_byte(s, TERMINATOR) {
            Option::None => Result::Err(DecodeError::MalformedInput),
            Option::Some(e) => {
                let interior = s.subrange(1, e);
                if !valid_int_literal(interior) {
                    Result::Err(DecodeError::MalformedInput)
                } else {
                    let v = int_literal_value(interior);
                    if v < (i64::MIN as int) || (i64::MAX as int) < v {
                        Result::Err(DecodeError::MalformedInput)
                    } else {
                        Result::Ok((v, e + 1))
                    }
                }
            },
        }
    }
}

/// A decoded value and its consumed-byte count: what every decode returns.
pub type SpecDecoded = Result<(BValue, int), DecodeError>;

/// The dispatcher: the first byte selects the production.  `depth` is how
/// many levels of nesting may still be opened.
pub open spec fn spec_decode(s: Seq<u8>, depth: nat) -> SpecDecoded
    decreases s.len(), 1int,
{
    if depth == 0 {
        Result::Err(DecodeError::DepthExceeded)
    } else if s.len() == 0 {
        Result::Err(DecodeError::MalformedInput)
    } else if is_digit(s[0]) {
        match spec_decode_str(s) {
            Result::Err(e) => Result::Err(e),
            Result::Ok((b, n)) => Result::Ok((BValue::Bytes(b), n)),
        }
    } else if s[0] == TAG_INT {
        match spec_decode_int(s) {
            Result::Err(e) => Result::Err(e),
            Result::Ok((v, n)) => Result::Ok((BValue::Int(v), n)),
        }
    } else if s[0] == TAG_LIST {
        spec_decode_list(s, (depth - 1) as nat)
    } else if s[0] == TAG_DICT {
        spec_decode_dict(s, (depth - 1) as nat)
    } else {
        Result::Err(DecodeError::MalformedInput)
    }
}

/// The list production `l<value>*e`; the elements get `depth` as their budget.
pub open spec fn spec_decode_list(s: Seq<u8>, depth: nat) -> SpecDecoded
    decreases s.len(), 0int,
{
    if s.len() == 0 || s[0] != TAG_LIST {
        Result::Err(DecodeError::MalformedInput)
    } else {
        match spec_decode_items(s.skip(1), depth) {
            Result::Err(e) => Result::Err(e),
            Result::Ok((items, n)) => Result::Ok((BValue::List(items), 1 + n)),
        }
    }
}

/// The dictionary production `d(<key><value>)*e`; values get `depth` as their
/// budget, and repeated keys overwrite per [`dict_of_pairs`].
pub open spec fn spec_decode_dict(s: Seq<u8>, depth: nat) -> SpecDecoded
    decreases s.len(), 0int,
{
    if s.len() == 0 || s[0] != TAG_DICT {
        Result::Err(DecodeError::MalformedInput)
    } else {
        match spec_decode_entries(s.skip(1), depth) {
            Result::Err(e) => Result::Err(e),
            Result::Ok((pairs, n)) => Result::Ok((BValue::Dict(dict_of_pairs(pairs)), 1 + n)),
        }
    }
}

/// Zero or more list elements up to and including the terminator: the element
/// models in order, and the count consumed, terminator included.
pub open spec fn spec_decode_items(s: Seq<u8>, depth: nat) -> Result<
    (Seq<BValue>, int),
    DecodeError,
>
    decreases s.len(), 2int,
{
    if s.len() == 0 {
        Result::Err(DecodeError::MalformedInput)
    } else if s[0] == TERMINATOR {
        Result::Ok((Seq::empty(), 1))
    } else {
        match spec_decode(s, depth) {
            Result::Err(e) => Result::Err(e),
            Result::Ok((v, n)) => {
                if 1 <= n <= s.len() {
                    match spec_decode_items(s.skip(n), depth) {
                        Result::Err(e) => Result::Err(e),
                        Result::Ok((items, m)) => Result::Ok((seq![v] + items, n + m)),
                    }
                } else {
                    // Unreachable: a successful decode consumes between 1 and
                    // s.len() bytes, as lemma_spec_decode_consumed shows.
                    Result::Err(DecodeError::MalformedInput)
                }
            },
        }
    }
}

/// Zero or more key-value pairs up to and including the terminator: the raw
/// pairs in encoded order, and the count consumed, terminator included.
pub open spec fn spec_decode_entries(s: Seq<u8>, depth: nat) -> Result<
    (Seq<(Seq<u8>, BValue)>, int),
    DecodeError,
>
    decreases s.len(), 2int,
{
    if s.len() == 0 {
        Result::Err(DecodeError::MalformedInput)
    } else if s[0] == TERMINATOR {
        Result::Ok((Seq::empty(), 1))
    } else {
        match spec_decode_str(s) {
            Result::Err(e) => Result::Err(e),
            Result::Ok((k, n)) => {
                if 1 <= n <= s.len() {
                    match spec_decode(s.skip(n), depth) {
                        Result::Err(e) => Result::Err(e),
                        Result::Ok((v, m)) => {
                            if 1 <= m <= s.len() - n {
                                match spec_decode_entries(s.skip(n + m), depth) {
                                    Result::Err(e) => Result::Err(e),
                                    Result::Ok((pairs, p)) => Result::Ok(
                                        (seq![(k, v)] + pairs, n + m + p),
                                    ),
                                }
                            } else {
                                // Unreachable, as in spec_decode_items.
                                Result::Err(DecodeError::MalformedInput)
                            }
                        },
                    }
                } else {
                    // Unreachable, as in spec_decode_items.
                    Result::Err(DecodeError::MalformedInput)
                }
            },
        }
    }
}

/// A successful byte-string decode consumes between 1 byte and the whole input.
pub proof fn lemma_spec_decode_str_consumed(s: Seq<u8>)
    ensures
        spec_decode_str(s) matches Result::Ok(p) ==> 1 <= p.1 <= s.len(),
{
    if spec_decode_str(s) is Ok {
        match find_byte(s, COLON) {
            Option::Some(c) => {
                lemma_find_byte(s, COLON);
                lemma_dec_value_nonneg(s.take(c));
            },
            Option::None => {},
        }
    }
}

/// A successful integer decode consumes between 1 byte and the whole input.
pub proof fn lemma_spec_decode_int_consumed(s: Seq<u8>)
    ensures
        spec_decode_int(s) matches Result::Ok(p) ==> 1 <= p.1 <= s.len(),
{
    if spec_decode_int(s) is Ok {
        match find_byte(s, TERMINATOR) {
            Option::Some(e) => {
                lemma_find_byte(s, TERMINATOR);
            },
            Option::None => {},
        }
    }
}

/// A successful decode consumes between 1 byte and the whole input.
pub proof fn lemma_spec_decode_consumed(s: Seq<u8>, depth: nat)
    ensures
        spec_decode(s, depth) matches Result::Ok(p) ==> 1 <= p.1 <= s.len(),
    decreases s.len(), 1int,
{
    if spec_decode(s, depth) is Ok && depth > 0 && s.len() > 0 {
        if is_digit(s[0]) {
            lemma_spec_decode_str_consumed(s);
        } else if s[0] == TAG_INT {
            lemma_spec_decode_int_consumed(s);
        } else if s[0] == TAG_LIST {
            lemma_spec_decode_list_consumed(s, (depth - 1) as nat);
        } else if s[0] == TAG_DICT {
            lemma_spec_decode_dict_consumed(s, (depth - 1) as nat);
        }
    }
}

/// A successful list decode consumes between 1 byte and the whole input.
pub proof fn lemma_spec_decode_list_consumed(s: Seq<u8>, depth: nat)
    ensures
        spec_decode_list(s, depth) matches Result::Ok(p) ==> 1 <= p.1 <= s.len(),
    decreases s.len(), 0int,
{
    if s.len() > 0 && s[0] == TAG_LIST {
        lemma_spec_decode_items_consumed(s.skip(1), depth);
    }
}

/// A successful dictionary decode consumes between 1 byte and the whole input.
pub proof fn lemma_spec_decode_dict_consumed(s: Seq<u8>, depth: nat)
    ensures
        spec_decode_dict(s, depth) matches Result::Ok(p) ==> 1 <= p.1 <= s.len(),
    decreases s.len(), 0int,
{
    if s.len() > 0 && s[0] == TAG_DICT {
        lemma_spec_decode_entries_consumed(s.skip(1), depth);
    }
}

/// Successfully decoded list elements, terminator included, consume between
/// 1 byte and the whole input.
pub proof fn lemma_spec_decode_items_consumed(s: Seq<u8>, depth: nat)
    ensures
        spec_decode_items(s, depth) matches Result::Ok(p) ==> 1 <= p.1 <= s.len(),
    decreases s.len(), 2int,
{
    if s.len() > 0 && s[0] != TERMINATOR {
        match spec_decode(s, depth) {
            Result::Ok((v, n)) => {
                lemma_spec_decode_consumed(s, depth);
                if 1 <= n <= s.len() {
                    lemma_spec_decode_items_consumed(s.skip(n), depth);
                }
            },
            Result::Err(_) => {},
        }
    }
}

/// Successfully decoded dictionary pairs, terminator included, consume
/// between 1 byte and the whole input.
pub proof fn lemma_spec_decode_entries_consumed(s: Seq<u8>, depth: nat)
    ensures
        spec_decode_entries(s, depth) matches Result::Ok(p) ==> 1 <= p.1 <= s.len(),
    decreases s.len(), 2int,
{
    if s.len() > 0 && s[0] != TERMINATOR {
        match spec_decode_str(s) {
            Result::Ok((k, n)) => {
                lemma_spec_decode_str_consumed(s);
                if 1 <= n <= s.len() {
                    match spec_decode(s.skip(n), depth) {
                        Result::Ok((v, m)) => {
                            lemma_spec_decode_consumed(s.skip(n), depth);
                            if 1 <= m <= s.len() - n {
                                lemma_spec_decode_entries_consumed(s.skip(n + m), depth);
                            }
                        },
                        Result::Err(_) => {},
                    }
                }
            },
            Result::Err(_) => {},
        }
    }
}

/// Two sequences that agree on their first `n` bytes agree on every shorter
/// prefix and byte for byte below `n`.
proof fn lemma_take_agree(s: Seq<u8>, t: Seq<u8>, n: int, m: int)
    requires
        0 <= m <= n,
        n <= s.len(),
        n <= t.len(),
        t.take(n) == s.take(n),
    ensures
        t.take(m) == s.take(m),
        forall|j: int| 0 <= j < n ==> t[j] == s[j],
{
    assert forall|j: int| 0 <= j < n implies t[j] == s[j] by {
        assert(t[j] == t.take(n)[j]);
        assert(s[j] == s.take(n)[j]);
    }
    assert(t.take(m) =~= s.take(m));
}

/// A byte-string decode is determined by the bytes it consumes: any input
/// agreeing on them decodes to the same bytes and count.
pub proof fn lemma_spec_decode_str_prefix(s: Seq<u8>, t: Seq<u8>, b: Seq<u8>, n: int)
    requires
        spec_decode_str(s) == Result::Ok::<(Seq<u8>, int), DecodeError>((b, n)),
        n <= t.len(),
        t.take(n) == s.take(n),
    ensures
        spec_decode_str(t) == Result::Ok::<(Seq<u8>, int), DecodeError>((b, n)),
{
    lemma_spec_decode_str_consumed(s);
    match find_byte(s, COLON) {
        Option::Some(c) => {
            lemma_find_byte(s, COLON);
            let prefix = s.take(c);
            lemma_dec_value_nonneg(prefix);
            let nv = dec_value(prefix);
            lemma_take_agree(s, t, n, c);
            assert(t[c] == COLON);
            assert forall|j: int| 0 <= j < c implies t[j] != COLON by {
                assert(t[j] == s[j]);
            }
            lemma_find_byte_at(t, COLON, c);
            assert(t.subrange(c + 1, c + 1 + nv) =~= s.subrange(c + 1, c + 1 + nv));
        },
        Option::None => {},
    }
}

/// An integer decode is determined by the bytes it consumes.
pub proof fn lemma_spec_decode_int_prefix(s: Seq<u8>, t: Seq<u8>, v: int, n: int)
    requires
        spec_decode_int(s) == Result::Ok::<(int, int), DecodeError>((v, n)),
        n <= t.len(),
        t.take(n) == s.take(n),
    ensures
        spec_decode_int(t) == Result::Ok::<(int, int), DecodeError>((v, n)),
{
    lemma_spec_decode_int_consumed(s);
    match find_byte(s, TERMINATOR) {
        Option::Some(e) => {
            lemma_find_byte(s, TERMINATOR);
            lemma_take_agree(s, t, n, 1);
            assert(t[e] == TERMINATOR);
            assert forall|j: int| 0 <= j < e implies t[j] != TERMINATOR by {
                assert(t[j] == s[j]);
            }
            lemma_find_byte_at(t, TERMINATOR, e);
            assert(t.subrange(1, e) =~= s.subrange(1, e));
        },
        Option::None => {},
    }
}

/// A decode is determined by the bytes it consumes: any input agreeing on
/// them decodes to the same value and count.
pub proof fn lemma_spec_decode_prefix(s: Seq<u8>, t: Seq<u8>, v: BValue, n: int, depth: nat)
    requires
        spec_decode(s, depth) == Result::Ok::<(BValue, int), DecodeError>((v, n)),
        n <= t.len(),
        t.take(n) == s.take(n),
    ensures
        spec_decode(t, depth) == Result::Ok::<(BValue, int), DecodeError>((v, n)),
    decreases s.len(), 1int,
{
    lemma_spec_decode_consumed(s, depth);
    lemma_take_agree(s, t, n, 1);
    if is_digit(s[0]) {
        match spec_decode_str(s) {
            Result::Ok(p) => {
                lemma_spec_decode_str_prefix(s, t, p.0, p.1);
            },
            Result::Err(_) => {},
        }
    } else if s[0] == TAG_INT {
        match spec_decode_int(s) {
            Result::Ok(p) => {
                lemma_spec_decode_int_prefix(s, t, p.0, p.1);
            },
            Result::Err(_) => {},
        }
    } else if s[0] == TAG_LIST {
        lemma_spec_decode_list_prefix(s, t, v, n, (depth - 1) as nat);
    } else if s[0] == TAG_DICT {
        lemma_spec_decode_dict_prefix(s, t, v, n, (depth - 1) as nat);
    }
}

/// A list decode is determined by the bytes it consumes.
pub proof fn lemma_spec_decode_list_prefix(s: Seq<u8>, t: Seq<u8>, v: BValue, n: int, depth: nat)
    requires
        spec_decode_list(s, depth) == Result::Ok::<(BValue, int), DecodeError>((v, n)),
        n <= t.len(),
        t.take(n) == s.take(n),
    ensures
        spec_decode_list(t, depth) == Result::Ok::<(BValue, int), DecodeError>((v, n)),
    decreases s.len(), 0int,
{
    lemma_spec_decode_list_consumed(s, depth);
    lemma_take_agree(s, t, n, 1);
    match spec_decode_items(s.skip(1), depth) {
        Result::Ok((items, m)) => {
            assert(t.skip(1).take(m) =~= s.skip(1).take(m)) by {
                assert forall|j: int| 0 <= j < m implies t.skip(1)[j] == s.skip(1)[j] by {
                    assert(t[1 + j] == s[1 + j]);
                }
            }
            lemma_spec_decode_items_prefix(s.skip(1), t.skip(1), items, m, depth);
        },
        Result::Err(_) => {},
    }
}

/// A dictionary decode is determined by the bytes it consumes.
pub proof fn lemma_spec_decode_dict_prefix(s: Seq<u8>, t: Seq<u8>, v: BValue, n: int, depth: nat)
    requires
        spec_decode_dict(s, depth) == Result::Ok::<(BValue, int), DecodeError>((v, n)),
        n <= t.len(),
        t.take(n) == s.take(n),
    ensures
        spec_decode_dict(t, depth) == Result::Ok::<(BValue, int), DecodeError>((v, n)),
    decreases s.len(), 0int,
{
    lemma_spec_decode_dict_consumed(s, depth);
    lemma_take_agree(s, t, n, 1);
    match spec_decode_entries(s.skip(1), depth) {
        Result::Ok((pairs, m)) => {
            assert(t.skip(1).take(m) =~= s.skip(1).take(m)) by {
                assert forall|j: int| 0 <= j < m implies t.skip(1)[j] == s.skip(1)[j] by {
                    assert(t[1 + j] == s[1 + j]);
                }
            }
            lemma_spec_decode_entries_prefix(s.skip(1), t.skip(1), pairs, m, depth);
        },
        Result::Err(_) => {},
    }
}

/// A run of list elements is determined by the bytes it consumes.
pub proof fn lemma_spec_decode_items_prefix(
    s: Seq<u8>,
    t: Seq<u8>,
    items: Seq<BValue>,
    m: int,
    depth: nat,
)
    requires
        spec_decode_items(s, depth) == Result::Ok::<(Seq<BValue>, int), DecodeError>((items, m)),
        m <= t.len(),
        t.take(m) == s.take(m),
    ensures
        spec_decode_items(t, depth) == Result::Ok::<(Seq<BValue>, int), DecodeError>((items, m)),
    decreases s.len(), 2int,
{
    lemma_spec_decode_items_consumed(s, depth);
    lemma_take_agree(s, t, m, 1);
    if s[0] != TERMINATOR {
        match spec_decode(s, depth) {
            Result::Ok((v1, n1)) => {
                lemma_spec_decode_consumed(s, depth);
                match spec_decode_items(s.skip(n1), depth) {
                    Result::Ok((items2, m2)) => {
                        lemma_spec_decode_items_consumed(s.skip(n1), depth);
                        lemma_take_agree(s, t, m, n1);
                        lemma_spec_decode_prefix(s, t, v1, n1, depth);
                        assert(t.skip(n1).take(m2) =~= s.skip(n1).take(m2)) by {
                            assert forall|j: int| 0 <= j < m2 implies t.skip(n1)[j] == s.skip(n1)[j] by {
                                assert(t[n1 + j] == s[n1 + j]);
                            }
                        }
                        lemma_spec_decode_items_prefix(s.skip(n1), t.skip(n1), items2, m2, depth);
                    },
                    Result::Err(_) => {},
                }
            },
            Result::Err(_) => {},
        }
    }
}

/// A run of dictionary pairs is determined by the bytes it consumes.
pub proof fn lemma_spec_decode_entries_prefix(
    s: Seq<u8>,
    t: Seq<u8>,
    pairs: Seq<(Seq<u8>, BValue)>,
    m: int,
    depth: nat,
)
    requires
        spec_decode_entries(s, depth) == Result::Ok::<(Seq<(Seq<u8>, BValue)>, int), DecodeError>(
            (pairs, m),
        ),
        m <= t.len(),
        t.take(m) == s.take(m),
    ensures
        spec_decode_entries(t, depth) == Result::Ok::<(Seq<(Seq<u8>, BValue)>, int), DecodeError>(
            (pairs, m),
        ),
    decreases s.len(), 2int,
{
    lemma_spec_decode_entries_consumed(s, depth);
    lemma_take_agree(s, t, m, 1);
    if s[0] != TERMINATOR {
        match spec_decode_str(s) {
            Result::Ok((k, n1)) => {
                lemma_spec_decode_str_consumed(s);
                match spec_decode(s.skip(n1), depth) {
                    Result::Ok((v1, m1)) => {
                        lemma_spec_decode_consumed(s.skip(n1), depth);
                        match spec_decode_entries(s.skip(n1 + m1), depth) {
                            Result::Ok((pairs2, p2)) => {
                                lemma_spec_decode_entries_consumed(s.skip(n1 + m1), depth);
                                lemma_take_agree(s, t, m, n1);
                                lemma_spec_decode_str_prefix(s, t, k, n1);
                                assert(t.skip(n1).take(m1) =~= s.skip(n1).take(m1)) by {
                                    assert forall|j: int|
                                        0 <= j < m1 implies t.skip(n1)[j] == s.skip(n1)[j] by {
                                        assert(t[n1 + j] == s[n1 + j]);
                                    }
                                }
                                lemma_spec_decode_prefix(s.skip(n1), t.skip(n1), v1, m1, depth);
                                assert(t.skip(n1 + m1).take(p2) =~= s.skip(n1 + m1).take(p2)) by {
                                    assert forall|j: int| 0 <= j < p2 implies #[trigger] t.skip(
                                        n1 + m1,
                                    )[j] == s.skip(n1 + m1)[j] by {
                                        assert(t[n1 + m1 + j] == s[n1 + m1 + j]);
                                    }
                                }
                                lemma_spec_decode_entries_prefix(
                                    s.skip(n1 + m1),
                                    t.skip(n1 + m1),
                                    pairs2,
                                    p2,
                                    depth,
                                );
                            },
                            Result::Err(_) => {},
                        }
                    },
                    Result::Err(_) => {},
                }
            },
            Result::Err(_) => {},
        }
    }
}

/// Idempotence: the outcome of a decode is a function of the input bytes
/// and the depth budget alone, so decoding the same bytes twice yields
/// structurally equal results.
pub proof fn lemma_decode_deterministic(
    s: Seq<u8>,
    depth: nat,
    r1: Result<(BValue, int), DecodeError>,
    r2: Result<(BValue, int), DecodeError>,
)
    requires
        r1 == spec_decode(s, depth),
        r2 == spec_decode(s, depth),
    ensures
        r1 == r2,
{
}

/// A successfully decoded dictionary carries unique keys: a repeated key on
/// the wire overwrites, so each key maps to at most one value.
pub proof fn lemma_decoded_dict_keys_unique(
    s: Seq<u8>,
    depth: nat,
    es: Seq<(Seq<u8>, BValue)>,
    n: int,
)
    requires
        spec_decode_dict(s, depth) == Result::Ok::<(BValue, int), DecodeError>(
            (BValue::Dict(es), n),
        ),
    ensures
        keys_unique(es),
{
    match spec_decode_entries(s.skip(1), depth) {
        Result::Ok((pairs, m)) => {
            lemma_dict_of_pairs_keys_unique(pairs);
            assert(es == dict_of_pairs(pairs));
        },
        Result::Err(_) => {},
    }
}

/// Round-trip sizing: a successful decode consumes a prefix of the input
/// that, decoded by itself, yields the same value and consumes exactly the
/// same number of bytes.
pub proof fn lemma_decode_roundtrip(s: Seq<u8>, v: BValue, n: int, depth: nat)
    requires
        spec_decode(s, depth) == Result::Ok::<(BValue, int), DecodeError>((v, n)),
    ensures
        1 <= n <= s.len(),
        spec_decode(s.take(n), depth) == Result::Ok::<(BValue, int), DecodeError>((v, n)),
{
    lemma_spec_decode_consumed(s, depth);
    assert(s.take(n).take(n) =~= s.take(n));
    lemma_spec_decode_prefix(s, s.take(n), v, n, depth);
}

/// Digit sequences denote non-negative values.
pub proof fn lemma_dec_value_nonneg(s: Seq<u8>)
    requires
        all_digits(s),
    ensures
        dec_value(s) >= 0,
    decreases s.len(),
{
    if s.len() > 0 {
        assert(all_digits(s.drop_last()));
        lemma_dec_value_nonneg(s.drop_last());
    }
}

/// A prefix of a digit sequence denotes at most the whole value.
pub proof fn lemma_dec_value_take(s: Seq<u8>, j: int)
    requires
        all_digits(s),
        0 <= j <= s.len(),
    ensures
        dec_value(s.take(j)) <= dec_value(s),
    decreases s.len(),
{
    if j == s.len() {
        assert(s.take(j) =~= s);
    } else {
        let t = s.drop_last();
        assert(all_digits(t));
        assert(s.take(j) =~= t.take(j));
        lemma_dec_value_take(t, j);
        lemma_dec_value_nonneg(t);
    }
}

/// One more digit multiplies the value by ten and adds the digit.
pub proof fn lemma_dec_value_step(s: Seq<u8>, j: int)
    requires
        0 <= j < s.len(),
    ensures
        dec_value(s.take(j + 1)) == dec_value(s.take(j)) * 10 + (s[j] - DIGIT_ZERO),
{
    assert(s.take(j + 1).drop_last() =~= s.take(j));
    assert(s.take(j + 1).last() == s[j]);
}

/// The byte-string decoder at a cursor: behaves as [`spec_decode_str`] does
/// on the bytes from `pos` on.
#[verifier::loop_isolation(false)]
fn decode_str_at(input: &[u8], pos: usize) -> (r: Result<(Vec<u8>, usize), DecodeError>)
    requires
        pos <= input@.len(),
    ensures
        ({
            let s = input@.skip(pos as int);
            match r {
                Result::Ok(p) => {
                    &&& spec_decode_str(s) == Result::Ok::<(Seq<u8>, int), DecodeError>(
                        (p.0@, p.1 as int),
                    )
                    &&& 1 <= p.1
                    &&& pos + p.1 <= input@.len()
                },
                Result::Err(e) => spec_decode_str(s) == Result::Err::<(Seq<u8>, int), DecodeError>(
                    e,
                ),
            }
        }),
{
    let ghost s = input@.skip(pos as int);
    let len = input.len();
    let mut i = pos;
    while i < len && input[i] != COLON
        invariant
            pos <= i <= len,
            len == input@.len(),
            forall|j: int| pos <= j < i ==> input@[j] != COLON,
        decreases len - i,
    {
        i += 1;
    }
    if i == len {
        proof {
            lemma_find_byte(s, COLON);
            match find_byte(s, COLON) {
                Option::Some(k) => {
                    assert(input@[pos + k] != COLON);
                    assert(s[k] == COLON);
                },
                Option::None => {},
            }
        }
        return Result::Err(DecodeError::MalformedInput);
    }
    let ghost c = i - pos as int;
    proof {
        assert(s[c] == input@[pos + c]);
        assert forall|j: int| 0 <= j < c implies s[j] != COLON by {
            assert(s[j] == input@[pos + j]);
        }
        lemma_find_byte_at(s, COLON, c);
    }
    let ghost prefix = s.take(c);
    if i == pos {
        return Result::Err(DecodeError::MalformedInput);
    }
    if input[pos] == DIGIT_ZERO && i - pos > 1 {
        proof {
            assert(prefix[0] == input@[pos as int]);
        }
        return Result::Err(DecodeError::MalformedInput);
    }
    let mut j = pos;
    while j < i
        invariant
            pos <= j <= i,
            i < len,
            len == input@.len(),
            forall|t: int| pos <= t < j ==> is_digit(input@[t]),
        decreases i - j,
    {
        let b = input[j];
        if b < DIGIT_ZERO || b > DIGIT_NINE {
            proof {
                assert(prefix[j - pos] == input@[j as int]);
                assert(!valid_len_prefix(prefix));
            }
            return Result::Err(DecodeError::MalformedInput);
        }
        j += 1;
    }
    proof {
        assert forall|t: int| 0 <= t < prefix.len() implies is_digit(prefix[t]) by {
            assert(prefix[t] == input@[pos + t]);
        }
        assert(valid_len_prefix(prefix));
    }
    let rem = len - (i + 1);
    let mut acc: usize = 0;
    let mut k = pos;
    proof {
        assert(prefix.take(0) =~= Seq::<u8>::empty());
    }
    while k < i
        invariant
            pos <= k <= i,
            i < len,
            len == input@.len(),
            pos <= input@.len(),
            s == input@.skip(pos as int),
            c == i - pos,
            prefix == s.take(c),
            valid_len_prefix(prefix),
            find_byte(s, COLON) == Option::Some(c),
            forall|t: int| pos <= t < i ==> is_digit(input@[t]),
            rem == len - i - 1,
            acc == dec_value(prefix.take(k - pos)),
            acc <= rem,
        decreases i - k,
    {
        let b = input[k];
        proof {
            assert(prefix[k - pos] == input@[k as int]);
            assert(is_digit(b));
        }
        let d = (b - DIGIT_ZERO) as usize;
        let ghost big = dec_value(prefix.take(k - pos + 1)) > rem;
        proof {
            lemma_dec_value_step(prefix, k - pos);
        }
        let next = match acc.checked_mul(10) {
            Option::Some(acc10) => match acc10.checked_add(d) {
                Option::Some(n) => Option::Some(n),
                Option::None => Option::None,
            },
            Option::None => Option::None,
        };
        match next {
            Option::None => {
                // The declared length already exceeds what remains.
                proof {
                    lemma_dec_value_take(prefix, k - pos + 1);
                    assert(dec_value(prefix) > rem);
                }
                return Result::Err(DecodeError::MalformedInput);
            },
            Option::Some(n) => {
                if n > rem {
                    proof {
                        lemma_dec_value_take(prefix, k - pos + 1);
                        assert(dec_value(prefix) > rem);
                    }
                    return Result::Err(DecodeError::MalformedInput);
                }
                acc = n;
            },
        }
        k += 1;
    }
    proof {
        assert(prefix.take(i - pos) =~= prefix);
        lemma_dec_value_nonneg(prefix);
    }
    let start = i + 1;
    let bytes = vstd::slice::slice_to_vec(&input[start..start + acc]);
    proof {
        assert(bytes@ =~= s.subrange(c + 1, c + 1 + acc as int));
        assert(s.len() >= c + 1 + acc as int);
    }
    Result::Ok((bytes, i - pos + 1 + acc))
}

/// One more than the largest signed 64-bit integer: the magnitude of `i64::MIN`.
pub const I64_MIN_MAGNITUDE: u64 = 9223372036854775808;

/// The integer decoder at a cursor: behaves as [`spec_decode_int`] does on
/// the bytes from `pos` on.
#[verifier::loop_isolation(false)]
fn decode_int_at(input: &[u8], pos: usize) -> (r: Result<(i64, usize), DecodeError>)
    requires
        pos <= input@.len(),
    ensures
        ({
            let s = input@.skip(pos as int);
            match r {
                Result::Ok(p) => {
                    &&& spec_decode_int(s) == Result::Ok::<(int, int), DecodeError>(
                        (p.0 as int, p.1 as int),
                    )
                    &&& 1 <= p.1
                    &&& pos + p.1 <= input@.len()
                },
                Result::Err(e) => spec_decode_int(s) == Result::Err::<(int, int), DecodeError>(e),
            }
        }),
{
    let ghost s = input@.skip(pos as int);
    let len = input.len();
    if pos == len || input[pos] != TAG_INT {
        return Result::Err(DecodeError::MalformedInput);
    }
    let mut i = pos;
    while i < len && input[i] != TERMINATOR
        invariant
            pos <= i <= len,
            forall|j: int| pos <= j < i ==> input@[j] != TERMINATOR,
        decreases len - i,
    {
        i += 1;
    }
    if i == len {
        proof {
            lemma_find_byte(s, TERMINATOR);
            match find_byte(s, TERMINATOR) {
                Option::Some(k) => {
                    assert(input@[pos + k] != TERMINATOR);
                    assert(s[k] == TERMINATOR);
                },
                Option::None => {},
            }
        }
        return Result::Err(DecodeError::MalformedInput);
    }
    let ghost e = i - pos as int;
    proof {
        assert(s[e] == input@[i as int]);
        assert forall|j: int| 0 <= j < e implies s[j] != TERMINATOR by {
            assert(s[j] == input@[pos + j]);
        }
        lemma_find_byte_at(s, TERMINATOR, e);
        assert(s[0] == input@[pos as int]);
        assert(e >= 1);
    }
    let ghost interior = s.subrange(1, e);
    if i == pos + 1 {
        proof {
            assert(interior.len() == 0);
        }
        return Result::Err(DecodeError::MalformedInput);
    }
    let neg = input[pos + 1] == MINUS;
    let dstart = if neg {
        pos + 2
    } else {
        pos + 1
    };
    proof {
        assert(interior[0] == input@[pos + 1]);
    }
    if dstart == i {
        // The interior is a bare minus sign.
        return Result::Err(DecodeError::MalformedInput);
    }
    let ghost digits = if neg {
        interior.drop_first()
    } else {
        interior
    };
    proof {
        assert forall|t: int| 0 <= t < digits.len() implies digits[t] == input@[dstart + t] by {
            assert(digits[t] == s[dstart - pos + t]);
        }
    }
    let mut j = dstart;
    while j < i
        invariant
            dstart <= j <= i,
            forall|t: int| dstart <= t < j ==> is_digit(input@[t]),
        decreases i - j,
    {
        let b = input[j];
        if b < DIGIT_ZERO || b > DIGIT_NINE {
            proof {
                assert(digits[j - dstart] == input@[j as int]);
                assert(!all_digits(digits));
                assert(!valid_int_literal(interior));
            }
            return Result::Err(DecodeError::MalformedInput);
        }
        j += 1;
    }
    proof {
        assert forall|t: int| 0 <= t < digits.len() implies is_digit(digits[t]) by {
            assert(digits[t] == input@[dstart + t]);
        }
        assert(all_digits(digits));
        assert(valid_int_literal(interior));
    }
    let mut acc: u64 = 0;
    let mut k = dstart;
    proof {
        assert(digits.take(0) =~= Seq::<u8>::empty());
    }
    while k < i
        invariant
            dstart <= k <= i,
            acc == dec_value(digits.take(k - dstart)),
            acc <= I64_MIN_MAGNITUDE,
        decreases i - k,
    {
        let b = input[k];
        proof {
            assert(digits[k - dstart] == input@[k as int]);
            assert(is_digit(b));
            lemma_dec_value_step(digits, k - dstart);
        }
        let d = (b - DIGIT_ZERO) as u64;
        let next = match acc.checked_mul(10) {
            Option::Some(a10) => match a10.checked_add(d) {
                Option::Some(n) => Option::Some(n),
                Option::None => Option::None,
            },
            Option::None => Option::None,
        };
        match next {
            Option::None => {
                // The magnitude exceeds what any i64 can hold.
                proof {
                    lemma_dec_value_take(digits, k - dstart + 1);
                }
                return Result::Err(DecodeError::MalformedInput);
            },
            Option::Some(n) => {
                if n > I64_MIN_MAGNITUDE {
                    proof {
                        lemma_dec_value_take(digits, k - dstart + 1);
                    }
                    return Result::Err(DecodeError::MalformedInput);
                }
                acc = n;
            },
        }
        k += 1;
    }
    proof {
        assert(digits.take(i - dstart) =~= digits);
    }
    if !neg && acc > i64::MAX as u64 {
        return Result::Err(DecodeError::MalformedInput);
    }
    let val: i64 = if neg {
        if acc == I64_MIN_MAGNITUDE {
            i64::MIN
        } else {
            -(acc as i64)
        }
    } else {
        acc as i64
    };
    proof {
        assert(val as int == int_literal_value(interior));
    }
    Result::Ok((val, i - pos + 1))
}

/// The dispatcher at a cursor: behaves as [`spec_decode`] does on the bytes
/// from `pos` on, with `depth` levels of nesting still allowed.
fn decode_value_at(input: &[u8], pos: usize, depth: u32) -> (r: Result<
    (Bencode, usize),
    DecodeError,
>)
    requires
        pos <= input@.len(),
    ensures
        ({
            let s = input@.skip(pos as int);
            match r {
                Result::Ok(p) => {
                    &&& spec_decode(s, depth as nat) == Result::Ok::<(BValue, int), DecodeError>(
                        (p.0@, p.1 as int),
                    )
                    &&& 1 <= p.1
                    &&& pos + p.1 <= input@.len()
                },
                Result::Err(e) => spec_decode(s, depth as nat) == Result::Err::<
                    (BValue, int),
                    DecodeError,
                >(e),
            }
        }),
    decreases input@.len() - pos, 1int,
{
    if depth == 0 {
        return Result::Err(DecodeError::DepthExceeded);
    }
    let len = input.len();
    if pos == len {
        return Result::Err(DecodeError::MalformedInput);
    }
    let b = input[pos];
    proof {
        assert(input@.skip(pos as int)[0] == input@[pos as int]);
    }
    if DIGIT_ZERO <= b && b <= DIGIT_NINE {
        match decode_str_at(input, pos) {
            Result::Ok((bytes, n)) => Result::Ok((Bencode::Bytes(bytes), n)),
            Result::Err(e) => Result::Err(e),
        }
    } else if b == TAG_INT {
        match decode_int_at(input, pos) {
            Result::Ok((v, n)) => Result::Ok((Bencode::Int(v), n)),
            Result::Err(e) => Result::Err(e),
        }
    } else if b == TAG_LIST {
        decode_list_at(input, pos, depth - 1)
    } else if b == TAG_DICT {
        decode_dict_at(input, pos, depth - 1)
    } else {
        Result::Err(DecodeError::MalformedInput)
    }
}

/// The list decoder at a cursor: behaves as [`spec_decode_list`] does on the
/// bytes from `pos` on, with `depth` the budget of each element.
#[verifier::loop_isolation(false)]
fn decode_list_at(input: &[u8], pos: usize, depth: u32) -> (r: Result<
    (Bencode, usize),
    DecodeError,
>)
    requires
        pos <= input@.len(),
    ensures
        ({
            let s = input@.skip(pos as int);
            match r {
                Result::Ok(p) => {
                    &&& spec_decode_list(s, depth as nat) == Result::Ok::<
                        (BValue, int),
                        DecodeError,
                    >((p.0@, p.1 as int))
                    &&& 1 <= p.1
                    &&& pos + p.1 <= input@.len()
                },
                Result::Err(e) => spec_decode_list(s, depth as nat) == Result::Err::<
                    (BValue, int),
                    DecodeError,
                >(e),
            }
        }),
    decreases input@.len() - pos, 0int,
{
    let ghost s = input@.skip(pos as int);
    let len = input.len();
    if pos == len || input[pos] != TAG_LIST {
        proof {
            if pos < len {
                assert(s[0] == input@[pos as int]);
            }
        }
        return Result::Err(DecodeError::MalformedInput);
    }
    let ghost s1 = input@.skip(pos + 1);
    proof {
        assert(s[0] == input@[pos as int]);
        assert(s.skip(1) =~= s1);
    }
    let mut items: Vec<Bencode> = Vec::new();
    let mut cur = pos + 1;
    proof {
        assert(vals_model(items@) =~= Seq::<BValue>::empty());
    }
    loop
        invariant
            pos + 1 <= cur <= len,
            ({
                let tail = input@.skip(cur as int);
                match spec_decode_items(tail, depth as nat) {
                    Result::Ok(q) => spec_decode_items(s1, depth as nat) == Result::Ok::<
                        (Seq<BValue>, int),
                        DecodeError,
                    >((vals_model(items@) + q.0, (cur - pos - 1) + q.1)),
                    Result::Err(e2) => spec_decode_items(s1, depth as nat) == Result::Err::<
                        (Seq<BValue>, int),
                        DecodeError,
                    >(e2),
                }
            }),
        decreases len - cur,
    {
        let ghost tail = input@.skip(cur as int);
        if cur == len {
            return Result::Err(DecodeError::MalformedInput);
        }
        proof {
            assert(tail[0] == input@[cur as int]);
        }
        if input[cur] == TERMINATOR {
            proof {
                assert(vals_model(items@) + Seq::<BValue>::empty() =~= vals_model(items@));
                lemma_vals_model_rec(items@);
            }
            return Result::Ok((Bencode::List(items), cur - pos + 1));
        }
        match decode_value_at(input, cur, depth) {
            Result::Err(e) => {
                return Result::Err(e);
            },
            Result::Ok((v, n)) => {
                proof {
                    assert(tail.skip(n as int) =~= input@.skip(cur + n));
                    let q0 = spec_decode_items(input@.skip(cur + n), depth as nat);
                    match q0 {
                        Result::Ok(q) => {
                            assert(spec_decode_items(tail, depth as nat) == Result::Ok::<
                                (Seq<BValue>, int),
                                DecodeError,
                            >((seq![value_model(v)] + q.0, n + q.1)));
                            assert(vals_model(items@.push(v)) =~= vals_model(items@).push(
                                value_model(v),
                            ));
                            assert(vals_model(items@.push(v)) + q.0 =~= vals_model(items@) + (
                            seq![value_model(v)] + q.0));
                        },
                        Result::Err(_) => {},
                    }
                }
                items.push(v);
                cur = cur + n;
            },
        }
    }
}

/// The dictionary decoder at a cursor: behaves as [`spec_decode_dict`] does
/// on the bytes from `pos` on, with `depth` the budget of each value.
#[verifier::loop_isolation(false)]
#[verifier::rlimit(60)]
fn decode_dict_at(input: &[u8], pos: usize, depth: u32) -> (r: Result<
    (Bencode, usize),
    DecodeError,
>)
    requires
        pos <= input@.len(),
    ensures
        ({
            let s = input@.skip(pos as int);
            match r {
                Result::Ok(p) => {
                    &&& spec_decode_dict(s, depth as nat) == Result::Ok::<
                        (BValue, int),
                        DecodeError,
                    >((p.0@, p.1 as int))
                    &&& 1 <= p.1
                    &&& pos + p.1 <= input@.len()
                },
                Result::Err(e) => spec_decode_dict(s, depth as nat) == Result::Err::<
                    (BValue, int),
                    DecodeError,
                >(e),
            }
        }),
    decreases input@.len() - pos, 0int,
{
    let ghost s = input@.skip(pos as int);
    let len = input.len();
    if pos == len || input[pos] != TAG_DICT {
        proof {
            if pos < len {
                assert(s[0] == input@[pos as int]);
            }
        }
        return Result::Err(DecodeError::MalformedInput);
    }
    let ghost s1 = input@.skip(pos + 1);
    proof {
        assert(s[0] == input@[pos as int]);
        assert(s.skip(1) =~= s1);
    }
    let mut entries: Vec<(Vec<u8>, Bencode)> = Vec::new();
    let ghost mut raw: Seq<(Seq<u8>, BValue)> = Seq::empty();
    let mut cur = pos + 1;
    proof {
        assert(pairs_model(entries@) =~= dict_of_pairs(raw));
    }
    loop
        invariant
            pos + 1 <= cur <= len,
            pairs_model(entries@) == dict_of_pairs(raw),
            ({
                let tail = input@.skip(cur as int);
                match spec_decode_entries(tail, depth as nat) {
                    Result::Ok(q) => spec_decode_entries(s1, depth as nat) == Result::Ok::<
                        (Seq<(Seq<u8>, BValue)>, int),
                        DecodeError,
                    >((raw + q.0, (cur - pos - 1) + q.1)),
                    Result::Err(e2) => spec_decode_entries(s1, depth as nat) == Result::Err::<
                        (Seq<(Seq<u8>, BValue)>, int),
                        DecodeError,
                    >(e2),
                }
            }),
        decreases len - cur,
    {
        let ghost tail = input@.skip(cur as int);
        if cur == len {
            return Result::Err(DecodeError::MalformedInput);
        }
        proof {
            assert(tail[0] == input@[cur as int]);
        }
        if input[cur] == TERMINATOR {
            proof {
                assert(raw + Seq::<(Seq<u8>, BValue)>::empty() =~= raw);
                lemma_pairs_model_rec(entries@);
            }
            return Result::Ok((Bencode::Dict(entries), cur - pos + 1));
        }
        let (key, n) = match decode_str_at(input, cur) {
            Result::Err(e) => {
                return Result::Err(e);
            },
            Result::Ok(p) => p,
        };
        proof {
            assert(tail.skip(n as int) =~= input@.skip(cur + n));
        }
        let (v, m) = match decode_value_at(input, cur + n, depth) {
            Result::Err(e) => {
                proof {
                    assert(spec_decode_entries(tail, depth as nat) == Result::Err::<
                        (Seq<(Seq<u8>, BValue)>, int),
                        DecodeError,
                    >(e));
                }
                return Result::Err(e);
            },
            Result::Ok(p) => p,
        };
        let ghost pr = (key@, value_model(v));
        proof {
            assert(tail.skip(n + m) =~= input@.skip(cur + n + m));
            let q0 = spec_decode_entries(input@.skip(cur + n + m), depth as nat);
            match q0 {
                Result::Ok(q) => {
                    assert(spec_decode_entries(tail, depth as nat) == Result::Ok::<
                        (Seq<(Seq<u8>, BValue)>, int),
                        DecodeError,
                    >((seq![pr] + q.0, n + m + q.1)));
                    assert(raw.push(pr) + q.0 =~= raw + (seq![pr] + q.0));
                },
                Result::Err(_) => {},
            }
            assert(raw.push(pr).drop_last() =~= raw);
            assert(raw.push(pr).last() == pr);
        }
        dict_insert_entry(&mut entries, key, v);
        proof {
            raw = raw.push(pr);
        }
        cur = cur + n + m;
    }
}

/// Decode one bencode value from the start of the buffer.
///
/// Returns the value and the exact number of bytes consumed, or the error
/// that [`spec_decode`] assigns to the input, with [`MAX_DEPTH`] levels of
/// nesting allowed.  The outcome is a function of the input bytes alone
/// ([`lemma_decode_deterministic`]), and the consumed prefix re-decodes to
/// the same value and count ([`lemma_decode_roundtrip`]).
pub fn decode(encoded_value: &[u8]) -> (r: Result<(Bencode, usize), DecodeError>)
    ensures
        match r {
            Result::Ok(p) => {
                &&& spec_decode(encoded_value@, MAX_DEPTH as nat) == Result::Ok::<
                    (BValue, int),
                    DecodeError,
                >((p.0@, p.1 as int))
                &&& 1 <= p.1 <= encoded_value@.len()
            },
            Result::Err(e) => spec_decode(encoded_value@, MAX_DEPTH as nat) == Result::Err::<
                (BValue, int),
                DecodeError,
            >(e),
        },
{
    proof {
        assert(encoded_value@.skip(0) =~= encoded_value@);
    }
    decode_value_at(encoded_value, 0, MAX_DEPTH)
}

/// Decode one byte string, `<length>:<bytes>`, from the start of the buffer.
pub fn decode_str(encoded_value: &[u8]) -> (r: Result<(Bencode, usize), DecodeError>)
    ensures
        match r {
            Result::Ok(p) => {
                &&& spec_decode_str(encoded_value@) matches Result::Ok(q) && p.0@
                    == BValue::Bytes(q.0) && p.1 as int == q.1
                &&& 1 <= p.1 <= encoded_value@.len()
            },
            Result::Err(e) => spec_decode_str(encoded_value@) == Result::Err::<
                (Seq<u8>, int),
                DecodeError,
            >(e),
        },
{
    proof {
        assert(encoded_value@.skip(0) =~= encoded_value@);
    }
    match decode_str_at(encoded_value, 0) {
        Result::Ok((bytes, n)) => Result::Ok((Bencode::Bytes(bytes), n)),
        Result::Err(e) => Result::Err(e),
    }
}

/// Decode one integer, `i<digits>e`, from the start of the buffer.
pub fn decode_int(encoded_value: &[u8]) -> (r: Result<(Bencode, usize), DecodeError>)
    ensures
        match r {
            Result::Ok(p) => {
                &&& spec_decode_int(encoded_value@) matches Result::Ok(q) && p.0@ == BValue::Int(
                    q.0,
                ) && p.1 as int == q.1
                &&& 1 <= p.1 <= encoded_value@.len()
            },
            Result::Err(e) => spec_decode_int(encoded_value@) == Result::Err::<
                (int, int),
                DecodeError,
            >(e),
        },
{
    proof {
        assert(encoded_value@.skip(0) =~= encoded_value@);
    }
    match decode_int_at(encoded_value, 0) {
        Result::Ok((v, n)) => Result::Ok((Bencode::Int(v), n)),
        Result::Err(e) => Result::Err(e),
    }
}

/// Decode one list, `l<value>*e`, from the start of the buffer.
pub fn decode_list(encoded_value: &[u8]) -> (r: Result<(Bencode, usize), DecodeError>)
    ensures
        match r {
            Result::Ok(p) => {
                &&& spec_decode_list(encoded_value@, (MAX_DEPTH - 1) as nat) == Result::Ok::<
                    (BValue, int),
                    DecodeError,
                >((p.0@, p.1 as int))
                &&& 1 <= p.1 <= encoded_value@.len()
            },
            Result::Err(e) => spec_decode_list(encoded_value@, (MAX_DEPTH - 1) as nat)
                == Result::Err::<(BValue, int), DecodeError>(e),
        },
{
    proof {
        assert(encoded_value@.skip(0) =~= encoded_value@);
    }
    decode_list_at(encoded_value, 0, MAX_DEPTH - 1)
}

/// Decode one dictionary, `d(<key><value>)*e`, from the start of the buffer.
pub fn decode_dict(encoded_value: &[u8]) -> (r: Result<(Bencode, usize), DecodeError>)
    ensures
        match r {
            Result::Ok(p) => {
                &&& spec_decode_dict(encoded_value@, (MAX_DEPTH - 1) as nat) == Result::Ok::<
                    (BValue, int),
                    DecodeError,
                >((p.0@, p.1 as int))
                &&& 1 <= p.1 <= encoded_value@.len()
            },
            Result::Err(e) => spec_decode_dict(encoded_value@, (MAX_DEPTH - 1) as nat)
                == Result::Err::<(BValue, int), DecodeError>(e),
        },
{
    proof {
        assert(encoded_value@.skip(0) =~= encoded_value@);
    }
    decode_dict_at(encoded_value, 0, MAX_DEPTH - 1)
}

/// Decode a buffer that is known to hold a well-formed value, and hand the
/// value back without its consumed-byte count.
///
/// Callers that cannot establish the precondition call [`decode`] instead
/// and handle the error.
pub fn decode_bencoded_value(encoded_value: &[u8]) -> (r: Bencode)
    requires
        spec_decode(encoded_value@, MAX_DEPTH as nat) is Ok,
    ensures
        spec_decode(encoded_value@, MAX_DEPTH as nat) matches Result::Ok(q) && r@ == q.0,
{
    match decode(encoded_value) {
        Result::Ok(p) => p.0,
        Result::Err(_) => vstd::pervasive::unreached(),
    }
}

} // verus!
