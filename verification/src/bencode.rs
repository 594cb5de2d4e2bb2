//! The bencode codec: a dynamic value tree, a recursive-descent decoder with
//! an exact grammar-level specification, and the error taxonomy of decoding.

use vstd::prelude::*;

verus! {

/// A decoded bencode value: the dynamic data model of the format.
///
/// Dictionaries keep their entries in insertion order; a repeated key
/// overwrites the earlier value in place (last write wins).
#[derive(Debug, PartialEq, Eq)]
pub enum Value {
    Integer(i64),
    ByteString(Vec<u8>),
    List(Vec<Value>),
    Dictionary(Vec<(Vec<u8>, Value)>),
}

/// The mathematical counterpart of `Value`; the contracts speak of it.
#[verifier::ext_equal]
pub enum SpecValue {
    Int(int),
    Bytes(Seq<u8>),
    List(Seq<SpecValue>),
    Dict(Seq<(Seq<u8>, SpecValue)>),
}

/// Which structural expectation of the bencode grammar a decode failed on.
#[derive(Debug, Clone, Copy, PartialEq, Eq, Structural)]
pub enum DecodeError {
    /// Empty input, or a leading byte that begins no bencode value.
    InvalidPrefix,
    /// An integer opened with 'i' but no 'e' terminator follows.
    UnterminatedInteger,
    /// The bytes between 'i' and 'e' are not a signed decimal integer in range.
    InvalidInteger,
    /// A byte-string length prefix is not digits followed by ':', or does not fit.
    InvalidStringLength,
    /// Fewer payload bytes remain than a byte-string length declared.
    TruncatedString,
    /// A list opened with 'l' but ran out of input before its 'e'.
    UnterminatedList,
    /// A dictionary opened with 'd' but ran out of input before its 'e'.
    UnterminatedDictionary,
    /// A dictionary key decoded to something other than a byte-string.
    NonStringDictionaryKey,
}

/// The value a `Value` denotes.
pub open spec fn value_view(v: Value) -> SpecValue
    decreases v,
{
    match v {
        Value::Integer(i) => SpecValue::Int(i as int),
        Value::ByteString(b) => SpecValue::Bytes(b@),
        Value::List(items) => SpecValue::List(values_view(items@)),
        Value::Dictionary(entries) => SpecValue::Dict(entries_view(entries@)),
    }
}

/// The values a sequence of `Value`s denotes, element by element.
pub open spec fn values_view(s: Seq<Value>) -> Seq<SpecValue>
    decreases s,
{
    Seq::new(
        s.len(),
        |i: int|
            if 0 <= i < s.len() {
                value_view(s[i])
            } else {
                SpecValue::Int(0)
            },
    )
}

/// The key/value pairs a sequence of dictionary entries denotes.
pub open spec fn entries_view(s: Seq<(Vec<u8>, Value)>) -> Seq<(Seq<u8>, SpecValue)>
    decreases s,
{
    Seq::new(
        s.len(),
        |i: int|
            if 0 <= i < s.len() {
                (s[i].0@, value_view(s[i].1))
            } else {
                (Seq::empty(), SpecValue::Int(0))
            },
    )
}

impl View for Value {
    type V = SpecValue;

    open spec fn view(&self) -> SpecValue {
        value_view(*self)
    }
}

/// The first index at or after `pos` holding `b`, if any.
pub open spec fn find_byte(s: Seq<u8>, pos: int, b: u8) -> Option<int>
    decreases s.len() - pos,
{
    if pos < 0 || pos >= s.len() {
        None
    } else if s[pos] == b {
        Some(pos)
    } else {
        find_byte(s, pos + 1, b)
    }
}

/// The first index at or after `pos` holding a non-digit byte, `s.len()` if none.
pub open spec fn digit_run_end(s: Seq<u8>, pos: int) -> int
    decreases s.len() - pos,
{
    if pos < 0 || pos >= s.len() {
        s.len() as int
    } else if !crate::digits::is_ascii_digit(s[pos]) {
        pos
    } else {
        digit_run_end(s, pos + 1)
    }
}

/// The integer a bencode integer body denotes: an optional minus sign
/// followed by at least one decimal digit. No other form is accepted.
pub open spec fn parse_int_body(c: Seq<u8>) -> Option<int> {
    if c.len() > 0 && c[0] == 0x2d {
        let d = c.drop_first();
        if d.len() > 0 && (forall|i: int| 0 <= i < d.len() ==> crate::digits::is_ascii_digit(#[trigger] d[i])) {
            Some(-crate::digits::digits_value(d))
        } else {
            None
        }
    } else {
        if c.len() > 0 && (forall|i: int| 0 <= i < c.len() ==> crate::digits::is_ascii_digit(#[trigger] c[i])) {
            Some(crate::digits::digits_value(c))
        } else {
            None
        }
    }
}

/// Entries after writing `v` under `k`: the first entry with key `k` keeps
/// its place and takes the new value; a new key goes to the end.
pub open spec fn dict_insert(
    entries: Seq<(Seq<u8>, SpecValue)>,
    k: Seq<u8>,
    v: SpecValue,
) -> Seq<(Seq<u8>, SpecValue)>
    decreases entries.len(),
{
    if entries.len() == 0 {
        seq![(k, v)]
    } else if entries[0].0 == k {
        seq![(k, v)] + entries.drop_first()
    } else {
        seq![entries[0]] + dict_insert(entries.drop_first(), k, v)
    }
}

/// The value stored under `k`, taking the first entry with that key.
pub open spec fn spec_lookup(entries: Seq<(Seq<u8>, SpecValue)>, k: Seq<u8>) -> Option<SpecValue>
    decreases entries.len(),
{
    if entries.len() == 0 {
        None
    } else if entries[0].0 == k {
        Some(entries[0].1)
    } else {
        spec_lookup(entries.drop_first(), k)
    }
}

/// `spec_lookup` returns the value at the first index holding the key.
pub proof fn lemma_spec_lookup_at(es: Seq<(Seq<u8>, SpecValue)>, k: Seq<u8>, i: int)
    requires
        0 <= i < es.len(),
        es[i].0 == k,
        forall|j: int| 0 <= j < i ==> (#[trigger] es[j]).0 != k,
    ensures
        spec_lookup(es, k) == Some(es[i].1),
    decreases i,
{
    if i > 0 {
        assert(forall|j: int| 0 <= j < i - 1 ==> (#[trigger] es.drop_first()[j]) == es[j + 1]);
        lemma_spec_lookup_at(es.drop_first(), k, i - 1);
    }
}

/// Without the key, `spec_lookup` finds nothing.
pub proof fn lemma_spec_lookup_none(es: Seq<(Seq<u8>, SpecValue)>, k: Seq<u8>)
    requires
        forall|j: int| 0 <= j < es.len() ==> (#[trigger] es[j]).0 != k,
    ensures
        spec_lookup(es, k) is None,
    decreases es.len(),
{
    if es.len() > 0 {
        assert(forall|j: int| 0 <= j < es.len() - 1 ==> (#[trigger] es.drop_first()[j]) == es[j
            + 1]);
        lemma_spec_lookup_none(es.drop_first(), k);
    }
}

/// What decoding one bencode value at `pos` yields: the value and the index
/// just past its consumed span, or the error the grammar assigns.
pub open spec fn spec_decode(s: Seq<u8>, pos: int) -> Result<(SpecValue, int), DecodeError>
    decreases s.len() - pos, 0int,
{
    if pos < 0 || pos >= s.len() {
        Err(DecodeError::InvalidPrefix)
    } else if s[pos] == 0x69 {  // 'i'
        match find_byte(s, pos + 1, 0x65) {
            None => Err(DecodeError::UnterminatedInteger),
            Some(e_idx) => match parse_int_body(s.subrange(pos + 1, e_idx)) {
                None => Err(DecodeError::InvalidInteger),
                Some(v) => if i64::MIN <= v <= i64::MAX {
                    Ok((SpecValue::Int(v), e_idx + 1))
                } else {
                    Err(DecodeError::InvalidInteger)
                },
            },
        }
    } else if s[pos] == 0x6c {  // 'l'
        match spec_decode_items(s, pos + 1, Seq::empty()) {
            Err(e) => Err(e),
            Ok((items, end)) => Ok((SpecValue::List(items), end)),
        }
    } else if s[pos] == 0x64 {  // 'd'
        match spec_decode_pairs(s, pos + 1, Seq::empty()) {
            Err(e) => Err(e),
            Ok((entries, end)) => Ok((SpecValue::Dict(entries), end)),
        }
    } else if crate::digits::is_ascii_digit(s[pos]) {
        let run_end = digit_run_end(s, pos);
        if run_end >= s.len() || s[run_end] != 0x3a {  // ':'
            Err(DecodeError::InvalidStringLength)
        } else {
            let len = crate::digits::digits_value(s.subrange(pos, run_end));
            if len > usize::MAX {
                Err(DecodeError::InvalidStringLength)
            } else if run_end + 1 + len > s.len() {
                Err(DecodeError::TruncatedString)
            } else {
                Ok((SpecValue::Bytes(s.subrange(run_end + 1, run_end + 1 + len)), run_end + 1 + len))
            }
        }
    } else {
        Err(DecodeError::InvalidPrefix)
    }
}

/// Decodes list items from `pos` until the closing 'e', appending to `acc`.
pub open spec fn spec_decode_items(
    s: Seq<u8>,
    pos: int,
    acc: Seq<SpecValue>,
) -> Result<(Seq<SpecValue>, int), DecodeError>
    decreases s.len() - pos, 1int,
{
    if pos < 0 || pos >= s.len() {
        Err(DecodeError::UnterminatedList)
    } else if s[pos] == 0x65 {  // 'e'
        Ok((acc, pos + 1))
    } else {
        match spec_decode(s, pos) {
            Err(e) => Err(e),
            Ok((v, p)) => if pos < p <= s.len() {
                spec_decode_items(s, p, acc.push(v))
            } else {
                Err(DecodeError::UnterminatedList)
            },
        }
    }
}

/// Decodes dictionary entries from `pos` until the closing 'e'. Every key
/// must itself decode to a byte-string; each pair is written into `acc`
/// with last-write-wins semantics.
pub open spec fn spec_decode_pairs(
    s: Seq<u8>,
    pos: int,
    acc: Seq<(Seq<u8>, SpecValue)>,
) -> Result<(Seq<(Seq<u8>, SpecValue)>, int), DecodeError>
    decreases s.len() - pos, 1int,
{
    if pos < 0 || pos >= s.len() {
        Err(DecodeError::UnterminatedDictionary)
    } else if s[pos] == 0x65 {  // 'e'
        Ok((acc, pos + 1))
    } else {
        match spec_decode(s, pos) {
            Err(e) => Err(e),
            Ok((k, p1)) => match k {
                SpecValue::Bytes(key) => if pos < p1 <= s.len() {
                    match spec_decode(s, p1) {
                        Err(e) => Err(e),
                        Ok((v, p2)) => if p1 < p2 <= s.len() {
                            spec_decode_pairs(s, p2, dict_insert(acc, key, v))
                        } else {
                            Err(DecodeError::UnterminatedDictionary)
                        },
                    }
                } else {
                    Err(DecodeError::UnterminatedDictionary)
                },
                _ => Err(DecodeError::NonStringDictionaryKey),
            },
        }
    }
}

/// The canonical bencode bytes of a non-negative integer: `i<digits>e`.
pub open spec fn spec_encode_uint(n: nat) -> Seq<u8> {
    seq![0x69u8] + crate::digits::dec_digits(n) + seq![0x65u8]
}

/// The canonical bencode bytes of a byte-string: `<length>:<bytes>`.
pub open spec fn spec_encode_bytes(b: Seq<u8>) -> Seq<u8> {
    crate::digits::dec_digits(b.len()) + seq![0x3au8] + b
}

/// Appends the canonical bencode integer encoding of `n`.
pub fn push_encoded_uint(out: &mut Vec<u8>, n: u64)
    ensures
        final(out)@ == old(out)@ + spec_encode_uint(n as nat),
{
    out.push(0x69);
    crate::digits::push_dec_bytes(out, n);
    out.push(0x65);
    proof {
        assert(out@ =~= old(out)@ + spec_encode_uint(n as nat));
    }
}

/// Appends the canonical bencode byte-string encoding of `b`.
pub fn push_encoded_bytes(out: &mut Vec<u8>, b: &[u8])
    ensures
        final(out)@ == old(out)@ + spec_encode_bytes(b@),
{
    crate::digits::push_dec_bytes(out, b.len() as u64);
    out.push(0x3a);
    crate::bytes::push_all(out, b);
    proof {
        assert(out@ =~= old(out)@ + spec_encode_bytes(b@));
    }
}

/// `find_byte` finds the first occurrence.
pub proof fn lemma_find_byte_first(s: Seq<u8>, pos: int, b: u8, q: int)
    requires
        0 <= pos <= q < s.len(),
        s[q] == b,
        forall|j: int| pos <= j < q ==> s[j] != b,
    ensures
        find_byte(s, pos, b) == Some(q),
    decreases q - pos,
{
    if pos < q {
        lemma_find_byte_first(s, pos + 1, b, q);
    }
}

/// `digit_run_end` stops at the first non-digit.
pub proof fn lemma_digit_run_end_at(s: Seq<u8>, pos: int, q: int)
    requires
        0 <= pos <= q < s.len(),
        !crate::digits::is_ascii_digit(s[q]),
        forall|j: int| pos <= j < q ==> crate::digits::is_ascii_digit(#[trigger] s[j]),
    ensures
        digit_run_end(s, pos) == q,
    decreases q - pos,
{
    if pos < q {
        lemma_digit_run_end_at(s, pos + 1, q);
    }
}

/// Decoding at a position holding a canonical integer encoding yields that
/// integer and consumes exactly the encoding.
pub proof fn lemma_decode_uint_at(s: Seq<u8>, pos: int, n: nat)
    requires
        0 <= pos,
        n <= i64::MAX,
        pos + spec_encode_uint(n).len() <= s.len(),
        s.subrange(pos, pos + spec_encode_uint(n).len() as int) == spec_encode_uint(n),
    ensures
        spec_decode(s, pos) == Ok::<(SpecValue, int), DecodeError>(
            (SpecValue::Int(n as int), pos + spec_encode_uint(n).len()),
        ),
{
    let enc = spec_encode_uint(n);
    let dd = crate::digits::dec_digits(n);
    crate::digits::lemma_dec_digits_wf(n);
    crate::digits::lemma_dec_digits_value(n);
    crate::digits::lemma_digits_value_nonneg(dd);
    assert forall|j: int| 0 <= j < enc.len() implies s[pos + j] == enc[j] by {
        assert(s.subrange(pos, pos + enc.len() as int)[j] == s[pos + j]);
    }
    let e_idx = pos + 1 + dd.len();
    assert(s[pos] == enc[0]);
    assert(enc[0] == 0x69);
    assert forall|j: int| pos + 1 <= j < e_idx implies s[j] != 0x65 by {
        assert(s[j] == enc[j - pos]);
        assert(enc[j - pos] == dd[j - pos - 1]);
        assert(crate::digits::is_ascii_digit(dd[j - pos - 1]));
    }
    assert(s[e_idx] == enc[e_idx - pos] && enc[e_idx - pos] == 0x65);
    lemma_find_byte_first(s, pos + 1, 0x65, e_idx);
    let body = s.subrange(pos + 1, e_idx);
    assert forall|j: int| 0 <= j < dd.len() implies body[j] == dd[j] by {
        assert(body[j] == s[pos + 1 + j]);
        assert(s[pos + 1 + j] == enc[1 + j]);
    }
    assert(body =~= dd);
    assert(dd[0] != 0x2d);
    assert(parse_int_body(body) == Some(n as int));
}

/// Decoding at a position holding a canonical byte-string encoding yields
/// that byte-string and consumes exactly the encoding.
pub proof fn lemma_decode_bytes_at(s: Seq<u8>, pos: int, b: Seq<u8>)
    requires
        0 <= pos,
        b.len() <= usize::MAX,
        pos + spec_encode_bytes(b).len() <= s.len(),
        s.subrange(pos, pos + spec_encode_bytes(b).len() as int) == spec_encode_bytes(b),
    ensures
        spec_decode(s, pos) == Ok::<(SpecValue, int), DecodeError>(
            (SpecValue::Bytes(b), pos + spec_encode_bytes(b).len()),
        ),
{
    let enc = spec_encode_bytes(b);
    let dd = crate::digits::dec_digits(b.len());
    crate::digits::lemma_dec_digits_wf(b.len());
    crate::digits::lemma_dec_digits_value(b.len());
    assert forall|j: int| 0 <= j < enc.len() implies s[pos + j] == enc[j] by {
        assert(s.subrange(pos, pos + enc.len() as int)[j] == s[pos + j]);
    }
    let run_end = pos + dd.len();
    assert forall|j: int| pos <= j < run_end implies crate::digits::is_ascii_digit(
        #[trigger] s[j],
    ) by {
        assert(s[j] == enc[j - pos]);
        assert(enc[j - pos] == dd[j - pos]);
    }
    assert(s[run_end] == enc[run_end - pos] && enc[run_end - pos] == 0x3a);
    assert(!crate::digits::is_ascii_digit(0x3a));
    lemma_digit_run_end_at(s, pos, run_end);
    assert(crate::digits::is_ascii_digit(s[pos]));
    assert(s.subrange(pos, run_end) =~= dd);
    assert forall|j: int| 0 <= j < b.len() implies s.subrange(
        run_end + 1,
        run_end + 1 + b.len() as int,
    )[j] == b[j] by {
        assert(s[run_end + 1 + j] == enc[dd.len() + 1 + j]);
        assert(enc[dd.len() + 1 + j] == b[j]);
    }
    assert(s.subrange(run_end + 1, run_end + 1 + b.len() as int) =~= b);
}

/// Replacing in place equals updating at the first index holding the key.
pub proof fn lemma_dict_insert_at(es: Seq<(Seq<u8>, SpecValue)>, k: Seq<u8>, v: SpecValue, i: int)
    requires
        0 <= i < es.len(),
        es[i].0 == k,
        forall|j: int| 0 <= j < i ==> (#[trigger] es[j]).0 != k,
    ensures
        dict_insert(es, k, v) == es.update(i, (k, v)),
    decreases es.len(),
{
    if i == 0 {
        assert(dict_insert(es, k, v) =~= es.update(0, (k, v)));
    } else {
        lemma_dict_insert_at(es.drop_first(), k, v, i - 1);
        assert(forall|j: int| 0 <= j < i - 1 ==> (#[trigger] es.drop_first()[j]) == es[j + 1]);
        assert(dict_insert(es, k, v) =~= es.update(i, (k, v)));
    }
}

/// Writing a fresh key appends its entry at the end.
pub proof fn lemma_dict_insert_append(es: Seq<(Seq<u8>, SpecValue)>, k: Seq<u8>, v: SpecValue)
    requires
        forall|j: int| 0 <= j < es.len() ==> (#[trigger] es[j]).0 != k,
    ensures
        dict_insert(es, k, v) == es.push((k, v)),
    decreases es.len(),
{
    if es.len() > 0 {
        lemma_dict_insert_append(es.drop_first(), k, v);
        assert(forall|j: int| 0 <= j < es.len() - 1 ==> (#[trigger] es.drop_first()[j]) == es[j + 1]);
        assert(dict_insert(es, k, v) =~= es.push((k, v)));
    } else {
        assert(dict_insert(es, k, v) =~= es.push((k, v)));
    }
}

/// Writes `v` under `k`: the first entry with key `k` keeps its place and
/// takes the new value; a new key goes to the end.
fn dict_insert_exec(entries: &mut Vec<(Vec<u8>, Value)>, k: Vec<u8>, v: Value)
    ensures
        entries_view(final(entries)@) == dict_insert(
            entries_view(old(entries)@),
            k@,
            value_view(v),
        ),
{
    let ghost es0 = entries_view(old(entries)@);
    let ghost kview = k@;
    let ghost vview = value_view(v);
    let mut i: usize = 0;
    while i < entries.len()
        invariant
            i <= entries@.len(),
            entries@ == old(entries)@,
            es0 == entries_view(entries@),
            kview == k@,
            vview == value_view(v),
            forall|j: int| 0 <= j < i ==> (#[trigger] es0[j]).0 != kview,
        decreases entries@.len() - i,
    {
        if entries[i].0 == k {
            proof {
                assert(entries@[i as int].0@ =~= kview);
                lemma_dict_insert_at(es0, kview, vview, i as int);
            }
            let _replaced = entries.remove(i);
            let ghost mid = entries@;
            let pair = (k, v);
            let ghost gpair = pair;
            entries.insert(i, pair);
            proof {
                assert(entries@ =~= old(entries)@.update(i as int, gpair));
                assert(entries_view(entries@) =~= es0.update(i as int, (kview, vview)));
            }
            return;
        }
        proof {
            if es0[i as int].0 == kview {
                assert(entries@[i as int].0@ == k@);
                assert(false);
            }
        }
        i = i + 1;
    }
    proof {
        lemma_dict_insert_append(es0, kview, vview);
    }
    let pair = (k, v);
    let ghost gpair = pair;
    entries.push(pair);
    proof {
        assert(entries@ =~= old(entries)@.push(gpair));
        assert(entries_view(entries@) =~= es0.push((kview, vview)));
    }
}

/// The first index at or after `pos` holding `b`, or `None` when it never occurs.
fn find_byte_from(s: &[u8], pos: usize, b: u8) -> (r: Option<usize>)
    requires
        pos <= s@.len(),
    ensures
        match r {
            Some(i) => find_byte(s@, pos as int, b) == Some(i as int) && pos <= i < s@.len(),
            None => find_byte(s@, pos as int, b) is None,
        },
{
    let mut i: usize = pos;
    while i < s.len()
        invariant
            pos <= i <= s@.len(),
            find_byte(s@, pos as int, b) == find_byte(s@, i as int, b),
        decreases s@.len() - i,
    {
        if s[i] == b {
            return Some(i);
        }
        i = i + 1;
    }
    None
}

/// The first index at or after `pos` holding a non-digit, `s.len()` if none.
fn digit_run_end_from(s: &[u8], pos: usize) -> (r: usize)
    requires
        pos <= s@.len(),
    ensures
        r as int == digit_run_end(s@, pos as int),
        pos <= r <= s@.len(),
        forall|j: int| pos <= j < r ==> crate::digits::is_ascii_digit(#[trigger] s@[j]),
        r < s@.len() ==> !crate::digits::is_ascii_digit(s@[r as int]),
{
    let mut i: usize = pos;
    while i < s.len()
        invariant
            pos <= i <= s@.len(),
            digit_run_end(s@, pos as int) == digit_run_end(s@, i as int),
            forall|j: int| pos <= j < i ==> crate::digits::is_ascii_digit(#[trigger] s@[j]),
        decreases s@.len() - i,
    {
        let c = s[i];
        if !(0x30 <= c && c <= 0x39) {
            return i;
        }
        i = i + 1;
    }
    i
}

/// Parses the digits `s[lo..hi]` as an unsigned number, `None` on overflow.
fn parse_digits_u64(s: &[u8], lo: usize, hi: usize) -> (r: Option<u64>)
    requires
        lo <= hi <= s@.len(),
        forall|i: int| lo <= i < hi ==> crate::digits::is_ascii_digit(#[trigger] s@[i]),
    ensures
        match r {
            Some(m) => m as int == crate::digits::digits_value(
                s@.subrange(lo as int, hi as int),
            ),
            None => crate::digits::digits_value(s@.subrange(lo as int, hi as int)) > u64::MAX,
        },
{
    let ghost whole = s@.subrange(lo as int, hi as int);
    let mut acc: u64 = 0;
    let mut i: usize = lo;
    while i < hi
        invariant
            lo <= i <= hi <= s@.len(),
            forall|j: int| lo <= j < hi ==> crate::digits::is_ascii_digit(#[trigger] s@[j]),
            whole == s@.subrange(lo as int, hi as int),
            acc as int == crate::digits::digits_value(s@.subrange(lo as int, i as int)),
        decreases hi - i,
    {
        let d = s[i] - 0x30;
        proof {
            assert(s@.subrange(lo as int, i + 1).drop_last() =~= s@.subrange(lo as int, i as int));
            assert(s@.subrange(lo as int, i + 1).last() == s@[i as int]);
        }
        let step = match acc.checked_mul(10) {
            Some(t) => t.checked_add(d as u64),
            None => None,
        };
        match step {
            Some(u) => {
                acc = u;
            },
            None => {
                proof {
                    crate::digits::lemma_digits_value_nonneg(
                        s@.subrange(lo as int, i as int),
                    );
                    assert(crate::digits::digits_value(s@.subrange(lo as int, i + 1))
                        > u64::MAX);
                    assert(whole.subrange(0, i + 1 - lo) =~= s@.subrange(lo as int, i + 1));
                    crate::digits::lemma_digits_prefix_le(whole, i + 1 - lo);
                }
                return None;
            },
        }
        i = i + 1;
    }
    proof {
        assert(s@.subrange(lo as int, i as int) =~= whole);
    }
    Some(acc)
}

/// Parses a bencode integer body `s[lo..hi]` into an `i64`.
fn parse_int_range(s: &[u8], lo: usize, hi: usize) -> (r: Result<i64, DecodeError>)
    requires
        lo <= hi <= s@.len(),
    ensures
        ({
            let c = s@.subrange(lo as int, hi as int);
            match r {
                Ok(n) => parse_int_body(c) == Some(n as int),
                Err(e) => e == DecodeError::InvalidInteger && match parse_int_body(c) {
                    Some(v) => !(i64::MIN <= v <= i64::MAX),
                    None => true,
                },
            }
        }),
{
    let ghost c = s@.subrange(lo as int, hi as int);
    if lo == hi {
        return Err(DecodeError::InvalidInteger);
    }
    let neg = s[lo] == 0x2d;
    let dlo = if neg { lo + 1 } else { lo };
    proof {
        if neg {
            assert(c.drop_first() =~= s@.subrange(dlo as int, hi as int));
        }
    }
    if dlo == hi {
        return Err(DecodeError::InvalidInteger);
    }
    let run = digit_run_end_from(s, dlo);
    if run < hi {
        proof {
            assert(!crate::digits::is_ascii_digit(s@.subrange(dlo as int, hi as int)[run - dlo]));
        }
        return Err(DecodeError::InvalidInteger);
    }
    let ghost d = s@.subrange(dlo as int, hi as int);
    proof {
        assert(forall|i: int| 0 <= i < d.len() ==> crate::digits::is_ascii_digit(#[trigger] d[i]));
    }
    match parse_digits_u64(s, dlo, hi) {
        None => {
            proof {
                crate::digits::lemma_digits_value_nonneg(d);
            }
            Err(DecodeError::InvalidInteger)
        },
        Some(m) => {
            if neg {
                if m > 9223372036854775808u64 {
                    Err(DecodeError::InvalidInteger)
                } else if m == 9223372036854775808u64 {
                    Ok(i64::MIN)
                } else {
                    Ok(-(m as i64))
                }
            } else {
                if m > i64::MAX as u64 {
                    Err(DecodeError::InvalidInteger)
                } else {
                    Ok(m as i64)
                }
            }
        },
    }
}

/// Decodes the bencode value starting at `pos`, returning it with the index
/// just past its consumed span. The result is exactly what `spec_decode`
/// assigns to the input, error cases included.
fn decode_at(s: &[u8], pos: usize) -> (r: Result<(Value, usize), DecodeError>)
    requires
        pos <= s@.len(),
    ensures
        match r {
            Ok((v, end)) => spec_decode(s@, pos as int) == Ok::<(SpecValue, int), DecodeError>(
                (value_view(v), end as int),
            ) && pos < end <= s@.len(),
            Err(e) => spec_decode(s@, pos as int) == Err::<(SpecValue, int), DecodeError>(e),
        },
    decreases s@.len() - pos, 0int,
{
    if pos >= s.len() {
        return Err(DecodeError::InvalidPrefix);
    }
    let c = s[pos];
    if c == 0x69 {
        match find_byte_from(s, pos + 1, 0x65) {
            None => Err(DecodeError::UnterminatedInteger),
            Some(e_idx) => match parse_int_range(s, pos + 1, e_idx) {
                Ok(n) => Ok((Value::Integer(n), e_idx + 1)),
                Err(e) => Err(e),
            },
        }
    } else if c == 0x6c {
        match decode_items(s, pos + 1, Vec::new()) {
            Ok((items, end)) => {
                proof {
                    assert(values_view(Seq::<Value>::empty()) =~= Seq::<SpecValue>::empty());
                }
                Ok((Value::List(items), end))
            },
            Err(e) => {
                proof {
                    assert(values_view(Seq::<Value>::empty()) =~= Seq::<SpecValue>::empty());
                }
                Err(e)
            },
        }
    } else if c == 0x64 {
        match decode_pairs(s, pos + 1, Vec::new()) {
            Ok((entries, end)) => {
                proof {
                    assert(entries_view(Seq::<(Vec<u8>, Value)>::empty())
                        =~= Seq::<(Seq<u8>, SpecValue)>::empty());
                }
                Ok((Value::Dictionary(entries), end))
            },
            Err(e) => {
                proof {
                    assert(entries_view(Seq::<(Vec<u8>, Value)>::empty())
                        =~= Seq::<(Seq<u8>, SpecValue)>::empty());
                }
                Err(e)
            },
        }
    } else if 0x30 <= c && c <= 0x39 {
        let run_end = digit_run_end_from(s, pos);
        if run_end >= s.len() || s[run_end] != 0x3a {
            Err(DecodeError::InvalidStringLength)
        } else {
            match parse_digits_u64(s, pos, run_end) {
                None => Err(DecodeError::InvalidStringLength),
                Some(m) => {
                    if m > usize::MAX as u64 {
                        Err(DecodeError::InvalidStringLength)
                    } else {
                        let len = m as usize;
                        if len > s.len() - (run_end + 1) {
                            Err(DecodeError::TruncatedString)
                        } else {
                            let start = run_end + 1;
                            let sub = vstd::slice::slice_subrange(s, start, start + len);
                            let payload = vstd::slice::slice_to_vec(sub);
                            Ok((Value::ByteString(payload), start + len))
                        }
                    }
                },
            }
        }
    } else {
        Err(DecodeError::InvalidPrefix)
    }
}

/// Decodes list items from `pos` until the closing 'e', appending to `acc`.
fn decode_items(s: &[u8], pos: usize, acc: Vec<Value>) -> (r: Result<
    (Vec<Value>, usize),
    DecodeError,
>)
    requires
        pos <= s@.len(),
    ensures
        match r {
            Ok((items, end)) => spec_decode_items(s@, pos as int, values_view(acc@)) == Ok::<
                (Seq<SpecValue>, int),
                DecodeError,
            >((values_view(items@), end as int)) && pos < end <= s@.len(),
            Err(e) => spec_decode_items(s@, pos as int, values_view(acc@)) == Err::<
                (Seq<SpecValue>, int),
                DecodeError,
            >(e),
        },
    decreases s@.len() - pos, 1int,
{
    if pos >= s.len() {
        return Err(DecodeError::UnterminatedList);
    }
    if s[pos] == 0x65 {
        return Ok((acc, pos + 1));
    }
    match decode_at(s, pos) {
        Err(e) => Err(e),
        Ok((v, p)) => {
            let ghost acc0 = values_view(acc@);
            let ghost vv = value_view(v);
            let mut acc2 = acc;
            acc2.push(v);
            proof {
                assert(values_view(acc2@) =~= acc0.push(vv));
            }
            decode_items(s, p, acc2)
        },
    }
}

/// Decodes dictionary entries from `pos` until the closing 'e', writing each
/// pair into `acc` with last-write-wins semantics.
fn decode_pairs(s: &[u8], pos: usize, acc: Vec<(Vec<u8>, Value)>) -> (r: Result<
    (Vec<(Vec<u8>, Value)>, usize),
    DecodeError,
>)
    requires
        pos <= s@.len(),
    ensures
        match r {
            Ok((entries, end)) => spec_decode_pairs(s@, pos as int, entries_view(acc@)) == Ok::<
                (Seq<(Seq<u8>, SpecValue)>, int),
                DecodeError,
            >((entries_view(entries@), end as int)) && pos < end <= s@.len(),
            Err(e) => spec_decode_pairs(s@, pos as int, entries_view(acc@)) == Err::<
                (Seq<(Seq<u8>, SpecValue)>, int),
                DecodeError,
            >(e),
        },
    decreases s@.len() - pos, 1int,
{
    if pos >= s.len() {
        return Err(DecodeError::UnterminatedDictionary);
    }
    if s[pos] == 0x65 {
        return Ok((acc, pos + 1));
    }
    match decode_at(s, pos) {
        Err(e) => Err(e),
        Ok((kv, p1)) => {
            let ghost kvview = value_view(kv);
            match kv {
                Value::ByteString(key) => match decode_at(s, p1) {
                    Err(e) => Err(e),
                    Ok((v, p2)) => {
                        let ghost acc0 = entries_view(acc@);
                        let ghost vview = value_view(v);
                        let mut acc2 = acc;
                        dict_insert_exec(&mut acc2, key, v);
                        decode_pairs(s, p2, acc2)
                    },
                },
                _ => {
                    proof {
                        assert(!(kvview is Bytes));
                    }
                    Err(DecodeError::NonStringDictionaryKey)
                },
            }
        },
    }
}

/// The first value stored under `key` in a dictionary's entries.
pub fn dict_lookup<'a>(entries: &'a Vec<(Vec<u8>, Value)>, key: &Vec<u8>) -> (r: Option<
    &'a Value,
>)
    ensures
        match r {
            Some(v) => spec_lookup(entries_view(entries@), key@) == Some(value_view(*v)),
            None => spec_lookup(entries_view(entries@), key@) is None,
        },
{
    let ghost es = entries_view(entries@);
    let mut i: usize = 0;
    while i < entries.len()
        invariant
            i <= entries@.len(),
            es == entries_view(entries@),
            forall|j: int| 0 <= j < i ==> (#[trigger] es[j]).0 != key@,
        decreases entries@.len() - i,
    {
        if entries[i].0 == *key {
            proof {
                assert(entries@[i as int].0@ =~= key@);
                lemma_spec_lookup_at(es, key@, i as int);
            }
            return Some(&entries[i].1);
        }
        proof {
            if es[i as int].0 == key@ {
                assert(entries@[i as int].0@ == key@);
                assert(false);
            }
        }
        i = i + 1;
    }
    proof {
        lemma_spec_lookup_none(es, key@);
    }
    None
}

/// Decodes the leading bencode value of `input`, returning it together with
/// the index where the unconsumed remainder begins. Succeeds exactly on the
/// inputs the grammar accepts, and returns the error the grammar assigns to
/// every other input.
pub fn decode_bencoded_value(input: &[u8]) -> (r: Result<(Value, usize), DecodeError>)
    ensures
        match r {
            Ok((v, end)) => spec_decode(input@, 0) == Ok::<(SpecValue, int), DecodeError>(
                (value_view(v), end as int),
            ) && 0 < end <= input@.len(),
            Err(e) => spec_decode(input@, 0) == Err::<(SpecValue, int), DecodeError>(e),
        },
{
    decode_at(input, 0)
}

} // verus!
