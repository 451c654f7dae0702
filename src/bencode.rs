//! Bencode: a tree of integers, byte strings, lists and dictionaries, and
//! its canonical byte encoding.
use vstd::prelude::*;

verus! {

broadcast use vstd::std_specs::vec::group_vec_axioms;

/// The mathematical model of a bencoded value.
pub enum BValue {
    Int(int),
    Bytes(Seq<u8>),
    List(Seq<BValue>),
    Dict(Seq<(Seq<u8>, BValue)>),
}

/// A decoded bencode value. Dictionary entries keep the order in which
/// they appear in the source bytes.
#[derive(Debug)]
pub enum OwnedValue {
    /// A byte string
    Str(Vec<u8>),
    /// A dictionary: byte-string keys with their values, in source order
    Dict(Vec<Vec<u8>>, Vec<OwnedValue>),
    /// A signed integer
    Integer(i64),
    /// A list of values
    List(Vec<OwnedValue>),
}

/// A dictionary pairs `keys[i]` with `values[i]`; a key or value without a
/// partner is not part of it.
pub open spec fn entry_count(keys: nat, values: nat) -> nat {
    if keys <= values {
        keys
    } else {
        values
    }
}

impl View for OwnedValue {
    type V = BValue;

    open spec fn view(&self) -> BValue
        decreases self,
    {
        match self {
            OwnedValue::Str(b) => BValue::Bytes(b@),
            OwnedValue::Integer(n) => BValue::Int(*n as int),
            OwnedValue::List(xs) => BValue::List(
                Seq::new(
                    xs.len() as nat,
                    |i: int|
                        if 0 <= i < xs.len() {
                            xs[i].view()
                        } else {
                            BValue::Int(0)
                        },
                ),
            ),
            OwnedValue::Dict(keys, values) => BValue::Dict(
                Seq::new(
                    entry_count(keys@.len(), values@.len()),
                    |i: int|
                        (
                            keys@[i]@,
                            if 0 <= i < values.len() {
                                values[i].view()
                            } else {
                                BValue::Int(0)
                            },
                        ),
                ),
            ),
        }
    }
}


pub open spec fn is_digit(b: u8) -> bool {
    48 <= b <= 57
}

/// Decimal digits of `n`, most significant first, with no leading zero.
pub open spec fn decimal(n: nat) -> Seq<u8>
    decreases n,
{
    if n < 10 {
        seq![(n + 48) as u8]
    } else {
        decimal(n / 10).push((n % 10 + 48) as u8)
    }
}

/// The text of an integer: an optional minus sign, then its decimal digits.
pub open spec fn integer_text(n: int) -> Seq<u8> {
    if n < 0 {
        seq![45u8] + decimal((-n) as nat)
    } else {
        decimal(n as nat)
    }
}

/// `<len>:<bytes>`
pub open spec fn string_encoding(b: Seq<u8>) -> Seq<u8> {
    decimal(b.len()) + seq![58u8] + b
}

/// The canonical encoding of a value. Dictionary entries are written in the
/// order in which the value holds them.
pub open spec fn encoding(v: BValue) -> Seq<u8>
    decreases v,
{
    match v {
        BValue::Int(n) => seq![105u8] + integer_text(n) + seq![101u8],
        BValue::Bytes(b) => string_encoding(b),
        BValue::List(xs) => seq![108u8] + item_encodings(xs).flatten() + seq![101u8],
        BValue::Dict(kvs) => seq![100u8] + entry_encodings(kvs).flatten() + seq![101u8],
    }
}

/// The encoding of each item of a list.
pub open spec fn item_encodings(xs: Seq<BValue>) -> Seq<Seq<u8>>
    decreases xs,
{
    Seq::new(
        xs.len(),
        |i: int|
            if 0 <= i < xs.len() {
                encoding(xs[i])
            } else {
                Seq::empty()
            },
    )
}

/// The encoding of each entry of a dictionary: its key, then its value.
pub open spec fn entry_encodings(kvs: Seq<(Seq<u8>, BValue)>) -> Seq<Seq<u8>>
    decreases kvs,
{
    Seq::new(
        kvs.len(),
        |i: int|
            if 0 <= i < kvs.len() {
                string_encoding(kvs[i].0) + encoding(kvs[i].1)
            } else {
                Seq::empty()
            },
    )
}

/// Strict byte-lexicographic order.
pub open spec fn bytes_less(a: Seq<u8>, b: Seq<u8>) -> bool
    decreases a.len(),
{
    if a.len() == 0 {
        b.len() > 0
    } else if b.len() == 0 {
        false
    } else if a[0] != b[0] {
        a[0] < b[0]
    } else {
        bytes_less(a.drop_first(), b.drop_first())
    }
}

/// A value has a canonical encoding: integers fit in `i64` and every
/// dictionary holds its keys in strictly ascending byte order.
pub open spec fn canonical(v: BValue) -> bool
    decreases v,
{
    match v {
        BValue::Int(n) => i64::MIN <= n <= i64::MAX,
        BValue::Bytes(_) => true,
        BValue::List(xs) => forall|i: int| 0 <= i < xs.len() ==> canonical(#[trigger] xs[i]),
        BValue::Dict(kvs) => (forall|i: int|
            0 < i < kvs.len() ==> bytes_less(kvs[i - 1].0, #[trigger] kvs[i].0)) && (forall|i: int|
            0 <= i < kvs.len() ==> canonical(#[trigger] kvs[i].1)),
    }
}

pub(crate) fn push_decimal(out: &mut Vec<u8>, n: u64)
    ensures
        final(out)@ == old(out)@ + decimal(n as nat),
    decreases n,
{
    if n < 10 {
        out.push((n + 48) as u8);
    } else {
        push_decimal(out, n / 10);
        out.push((n % 10 + 48) as u8);
    }
}

pub(crate) fn push_bytes(out: &mut Vec<u8>, b: &Vec<u8>)
    ensures
        final(out)@ == old(out)@ + b@,
{
    let mut i: usize = 0;
    while i < b.len()
        invariant
            i <= b.len(),
            out@ == old(out)@ + b@.subrange(0, i as int),
        decreases b.len() - i,
    {
        out.push(b[i]);
        i += 1;
        assert(b@.subrange(0, i as int) =~= b@.subrange(0, i - 1) + seq![b@[i - 1]]);
    }
    assert(b@.subrange(0, i as int) =~= b@);
}

fn push_string(out: &mut Vec<u8>, b: &Vec<u8>)
    ensures
        final(out)@ == old(out)@ + string_encoding(b@),
{
    push_decimal(out, b.len() as u64);
    out.push(58u8);
    push_bytes(out, b);
}

pub(crate) proof fn lemma_bytes_less_irreflexive(a: Seq<u8>)
    ensures
        !bytes_less(a, a),
    decreases a.len(),
{
    if a.len() > 0 {
        lemma_bytes_less_irreflexive(a.drop_first());
    }
}

pub(crate) proof fn lemma_bytes_less_total(a: Seq<u8>, b: Seq<u8>)
    ensures
        a != b ==> bytes_less(a, b) || bytes_less(b, a),
        !(bytes_less(a, b) && bytes_less(b, a)),
    decreases a.len(),
{
    if a.len() > 0 && b.len() > 0 && a[0] == b[0] {
        lemma_bytes_less_total(a.drop_first(), b.drop_first());
        if a != b {
            assert(a =~= seq![a[0]] + a.drop_first());
            assert(b =~= seq![b[0]] + b.drop_first());
        }
    } else if a.len() == 0 && b.len() == 0 {
        assert(a =~= b);
    }
}

pub(crate) proof fn lemma_bytes_less_transitive(a: Seq<u8>, b: Seq<u8>, c: Seq<u8>)
    requires
        bytes_less(a, b),
        bytes_less(b, c),
    ensures
        bytes_less(a, c),
    decreases a.len(),
{
    if a.len() > 0 && b.len() > 0 && c.len() > 0 && a[0] == b[0] && b[0] == c[0] {
        lemma_bytes_less_transitive(a.drop_first(), b.drop_first(), c.drop_first());
    }
}

/// `s` with `e` put before the first entry whose key is not smaller.
pub open spec fn insert_entry(e: (Seq<u8>, BValue), s: Seq<(Seq<u8>, BValue)>) -> Seq<(Seq<u8>, BValue)>
    decreases s.len(),
{
    if s.len() == 0 {
        seq![e]
    } else if bytes_less(s[0].0, e.0) {
        seq![s[0]] + insert_entry(e, s.drop_first())
    } else {
        seq![e] + s
    }
}

/// Dictionary entries in ascending key order.
pub open spec fn sort_entries(s: Seq<(Seq<u8>, BValue)>) -> Seq<(Seq<u8>, BValue)>
    decreases s.len(),
{
    if s.len() == 0 {
        s
    } else {
        insert_entry(s.last(), sort_entries(s.drop_last()))
    }
}

/// A value with the entries of each of its dictionaries in key order.
pub open spec fn normalized(v: BValue) -> BValue
    decreases v,
{
    match v {
        BValue::List(xs) => BValue::List(normalized_items(xs)),
        BValue::Dict(kvs) => BValue::Dict(sort_entries(normalized_entries(kvs))),
        _ => v,
    }
}

/// The items of a list, each normalized.
pub open spec fn normalized_items(xs: Seq<BValue>) -> Seq<BValue>
    decreases xs,
{
    Seq::new(
        xs.len(),
        |i: int|
            if 0 <= i < xs.len() {
                normalized(xs[i])
            } else {
                BValue::Int(0)
            },
    )
}

/// The entries of a dictionary, each value normalized.
pub open spec fn normalized_entries(kvs: Seq<(Seq<u8>, BValue)>) -> Seq<(Seq<u8>, BValue)>
    decreases kvs,
{
    Seq::new(
        kvs.len(),
        |i: int|
            if 0 <= i < kvs.len() {
                (kvs[i].0, normalized(kvs[i].1))
            } else {
                (Seq::empty(), BValue::Int(0))
            },
    )
}

/// The entries of `ents` in the order of the indices `order`.
pub open spec fn pick(ents: Seq<(Seq<u8>, BValue)>, order: Seq<usize>) -> Seq<(Seq<u8>, BValue)> {
    Seq::new(order.len(), |t: int| ents[order[t] as int])
}

/// Inserting after every smaller key and before the first key that is not
/// smaller.
pub(crate) proof fn lemma_insert_entry_at(e: (Seq<u8>, BValue), s: Seq<(Seq<u8>, BValue)>, j: int)
    requires
        0 <= j <= s.len(),
        forall|t: int| 0 <= t < j ==> bytes_less(#[trigger] s[t].0, e.0),
        j == s.len() || !bytes_less(s[j].0, e.0),
    ensures
        insert_entry(e, s) == s.insert(j, e),
    decreases s.len(),
{
    if s.len() == 0 {
        assert(s.insert(j, e) =~= seq![e]);
    } else if j == 0 {
        assert(s.insert(0, e) =~= seq![e] + s);
    } else {
        assert(bytes_less(s[0].0, e.0));
        let d = s.drop_first();
        assert forall|t: int| 0 <= t < j - 1 implies bytes_less(#[trigger] d[t].0, e.0) by {
            assert(d[t] == s[t + 1]);
        }
        lemma_insert_entry_at(e, d, j - 1);
        assert(seq![s[0]] + d.insert(j - 1, e) =~= s.insert(j, e));
    }
}

fn encode_into(v: &OwnedValue, out: &mut Vec<u8>)
    ensures
        final(out)@ == old(out)@ + encoding(normalized(v@)),
    decreases v,
{
    match v {
        OwnedValue::Integer(n) => {
            out.push(105u8);
            if *n < 0 {
                out.push(45u8);
                let m: u64 = ((-(*n + 1)) as u64) + 1;
                push_decimal(out, m);
                assert(m as int == -(*n as int));
            } else {
                push_decimal(out, *n as u64);
            }
            out.push(101u8);
            assert(out@ =~= old(out)@ + encoding(normalized(v@)));
        },
        OwnedValue::Str(b) => {
            push_string(out, b);
        },
        OwnedValue::List(xs) => {
            out.push(108u8);
            let ghost start = out@;
            let ghost items = Seq::new(xs.len() as nat, |i: int| encoding(normalized(xs[i]@)));
            let mut i: usize = 0;
            while i < xs.len()
                invariant
                    i <= xs.len(),
                    *v == OwnedValue::List(*xs),
                    items == Seq::new(xs.len() as nat, |i: int| encoding(normalized(xs[i]@))),
                    out@ == start + items.subrange(0, i as int).flatten(),
                decreases xs.len() - i,
            {
                proof {
                    assert(decreases_to!(*v => (*v)->List_0));
                    assert(decreases_to!(*xs => xs@));
                    assert(decreases_to!(xs@ => xs@[i as int]));
                }
                encode_into(&xs[i], out);
                proof {
                    assert(items.subrange(0, i + 1) =~= items.subrange(0, i as int).push(items[i as int]));
                    items.subrange(0, i as int).lemma_flatten_push(items[i as int]);
                }
                i += 1;
            }
            out.push(101u8);
            proof {
                assert(items.subrange(0, i as int) =~= items);
                lemma_list_view(*xs);
                let ws = views(xs@);
                assert(items =~= item_encodings(normalized_items(ws)));
                assert(out@ =~= old(out)@ + encoding(normalized(v@)));
            }
        },
        OwnedValue::Dict(keys, values) => {
            out.push(100u8);
            let ghost start = out@;
            let n: usize = if keys.len() <= values.len() { keys.len() } else { values.len() };
            let ghost ents = Seq::new(n as nat, |k: int| (keys[k]@, normalized(values[k]@)));
            let mut order: Vec<usize> = Vec::new();
            let mut i: usize = 0;
            assert(ents.subrange(0, 0) =~= Seq::<(Seq<u8>, BValue)>::empty());
            assert(pick(ents, order@) =~= Seq::<(Seq<u8>, BValue)>::empty());
            while i < n
                invariant
                    i <= n,
                    n == entry_count(keys@.len(), values@.len()),
                    ents == Seq::new(n as nat, |k: int| (keys[k]@, normalized(values[k]@))),
                    order@.len() == i,
                    forall|t: int| 0 <= t < i ==> #[trigger] order@[t] < i,
                    pick(ents, order@) == sort_entries(ents.subrange(0, i as int)),
                decreases n - i,
            {
                let ghost sorted = pick(ents, order@);
                let mut j: usize = 0;
                while j < order.len() && bytes_less_exec(keys[order[j]].as_slice(), keys[i].as_slice())
                    invariant
                        i < n,
                        n == entry_count(keys@.len(), values@.len()),
                        ents == Seq::new(n as nat, |k: int| (keys[k]@, normalized(values[k]@))),
                        order@.len() == i,
                        forall|t: int| 0 <= t < i ==> #[trigger] order@[t] < i,
                        sorted == pick(ents, order@),
                        j <= order@.len(),
                        forall|t: int| 0 <= t < j ==> bytes_less(#[trigger] sorted[t].0, ents[i as int].0),
                    decreases order@.len() - j,
                {
                    assert(sorted[j as int] == ents[order@[j as int] as int]);
                    j += 1;
                }
                proof {
                    if j < order@.len() {
                        assert(sorted[j as int] == ents[order@[j as int] as int]);
                    }
                    lemma_insert_entry_at(ents[i as int], sorted, j as int);
                    let p = ents.subrange(0, i + 1);
                    assert(p.drop_last() =~= ents.subrange(0, i as int));
                    assert(p.last() == ents[i as int]);
                }
                let ghost old_order = order@;
                order.insert(j, i);
                proof {
                    assert(pick(ents, order@) =~= sorted.insert(j as int, ents[i as int]));
                    assert forall|t: int| 0 <= t < i + 1 implies #[trigger] order@[t] < i + 1 by {
                        if t < j {
                            assert(order@[t] == old_order[t]);
                        } else if t > j {
                            assert(order@[t] == old_order[t - 1]);
                        }
                    }
                }
                i += 1;
            }
            assert(ents.subrange(0, n as int) =~= ents);
            let ghost sorted = sort_entries(ents);
            let ghost items = entry_encodings(sorted);
            let mut t: usize = 0;
            while t < n
                invariant
                    t <= n,
                    n == entry_count(keys@.len(), values@.len()),
                    *v == OwnedValue::Dict(*keys, *values),
                    ents == Seq::new(n as nat, |k: int| (keys[k]@, normalized(values[k]@))),
                    order@.len() == n,
                    forall|k: int| 0 <= k < n ==> #[trigger] order@[k] < n,
                    sorted == pick(ents, order@),
                    items == entry_encodings(sorted),
                    out@ == start + items.subrange(0, t as int).flatten(),
                decreases n - t,
            {
                let k = order[t];
                assert(order@[t as int] < n);
                push_string(out, &keys[k]);
                proof {
                    assert(decreases_to!(*v => (*v)->Dict_1));
                    assert(decreases_to!(*values => values@));
                    assert(decreases_to!(values@ => values@[k as int]));
                }
                encode_into(&values[k], out);
                proof {
                    assert(sorted[t as int] == ents[k as int]);
                    assert(items[t as int] == string_encoding(keys@[k as int]@) + encoding(normalized(values@[k as int]@)));
                    assert(items.subrange(0, t + 1) =~= items.subrange(0, t as int).push(items[t as int]));
                    items.subrange(0, t as int).lemma_flatten_push(items[t as int]);
                    assert(out@ =~= start + items.subrange(0, t + 1).flatten());
                }
                t += 1;
            }
            out.push(101u8);
            proof {
                assert(items.subrange(0, n as int) =~= items);
                lemma_dict_view(*keys, *values);
                let ws = entries(keys@, values@);
                assert(normalized_entries(ws) =~= ents);
                assert(out@ =~= old(out)@ + encoding(normalized(v@)));
            }
        },
    }
}

/// Encodes a value canonically: integers without leading zeros, dictionary
/// keys in ascending byte order.
pub fn encode(v: &OwnedValue) -> (r: Vec<u8>)
    ensures
        r@ == encoding(normalized(v@)),
        canonical(v@) ==> r@ == encoding(v@),
{
    proof {
        if canonical(v@) {
            crate::bencode_laws::lemma_normalized_canonical(v@);
        }
    }
    let mut out: Vec<u8> = Vec::new();
    encode_into(v, &mut out);
    assert(out@ =~= encoding(normalized(v@)));
    out
}


/// Index of the first byte at or after `pos` that is not a decimal digit.
pub open spec fn digits_end(s: Seq<u8>, pos: int) -> int
    decreases s.len() - pos,
{
    if 0 <= pos < s.len() && is_digit(s[pos]) {
        digits_end(s, pos + 1)
    } else {
        pos
    }
}

/// The number that a run of decimal digits denotes.
pub open spec fn digits_value(d: Seq<u8>) -> nat
    decreases d.len(),
{
    if d.len() == 0 {
        0
    } else {
        digits_value(d.drop_last()) * 10 + ((d.last() as int - 48) as nat)
    }
}

/// A natural number without leading zeros at `pos`: its value and the index after it.
pub open spec fn parse_natural(s: Seq<u8>, pos: int) -> Option<(nat, int)> {
    let end = digits_end(s, pos);
    if 0 <= pos && end > pos && (s[pos] != 48 || end == pos + 1) {
        Some((digits_value(s.subrange(pos, end)), end))
    } else {
        None
    }
}

/// A byte string `<len>:<bytes>` at `pos`.
pub open spec fn parse_string(s: Seq<u8>, pos: int) -> Option<(Seq<u8>, int)> {
    match parse_natural(s, pos) {
        Some((n, e)) => if e < s.len() && s[e] == 58 && e + 1 + n <= s.len() {
            Some((s.subrange(e + 1, e + 1 + n), e + 1 + n))
        } else {
            None
        },
        None => None,
    }
}

/// The body of an integer `[-]<digits>e`, starting just after the `i`.
/// Rejects `-0` and values outside `i64`.
pub open spec fn parse_integer(s: Seq<u8>, pos: int) -> Option<(int, int)> {
    let neg = 0 <= pos < s.len() && s[pos] == 45;
    let start = if neg {
        pos + 1
    } else {
        pos
    };
    match parse_natural(s, start) {
        Some((n, e)) => {
            let value = if neg {
                -n
            } else {
                n as int
            };
            if e < s.len() && s[e] == 101 && !(neg && n == 0) && i64::MIN <= value <= i64::MAX {
                Some((value, e + 1))
            } else {
                None
            }
        },
        None => None,
    }
}

/// The value encoded at `pos`, and the index just after it.
pub open spec fn parse_value(s: Seq<u8>, pos: int) -> Option<(BValue, int)>
    decreases s.len() - pos, 0int,
{
    if pos < 0 || pos >= s.len() {
        None
    } else if s[pos] == 105 {
        match parse_integer(s, pos + 1) {
            Some((n, e)) => Some((BValue::Int(n), e)),
            None => None,
        }
    } else if s[pos] == 108 {
        match parse_items(s, pos + 1) {
            Some((xs, e)) => Some((BValue::List(xs), e)),
            None => None,
        }
    } else if s[pos] == 100 {
        match parse_entries(s, pos + 1, None) {
            Some((kvs, e)) => Some((BValue::Dict(kvs), e)),
            None => None,
        }
    } else {
        match parse_string(s, pos) {
            Some((b, e)) => Some((BValue::Bytes(b), e)),
            None => None,
        }
    }
}

/// The items of a list up to and including its closing `e`.
pub open spec fn parse_items(s: Seq<u8>, pos: int) -> Option<(Seq<BValue>, int)>
    decreases s.len() - pos, 1int,
{
    if pos < 0 || pos >= s.len() {
        None
    } else if s[pos] == 101 {
        Some((Seq::empty(), pos + 1))
    } else {
        match parse_value(s, pos) {
            Some((v, p)) => if pos < p <= s.len() {
                match parse_items(s, p) {
                    Some((vs, q)) => Some((seq![v] + vs, q)),
                    None => None,
                }
            } else {
                None
            },
            None => None,
        }
    }
}

/// The entries of a dictionary up to and including its closing `e`; each
/// key must be greater than the one before it (`prev`).
pub open spec fn parse_entries(s: Seq<u8>, pos: int, prev: Option<Seq<u8>>) -> Option<
    (Seq<(Seq<u8>, BValue)>, int),
>
    decreases s.len() - pos, 1int,
{
    if pos < 0 || pos >= s.len() {
        None
    } else if s[pos] == 101 {
        Some((Seq::empty(), pos + 1))
    } else {
        match parse_string(s, pos) {
            Some((k, p)) => if pos < p <= s.len() && (prev is Some ==> bytes_less(prev->0, k)) {
                match parse_value(s, p) {
                    Some((v, q)) => if p < q <= s.len() {
                        match parse_entries(s, q, Some(k)) {
                            Some((kvs, r)) => Some((seq![(k, v)] + kvs, r)),
                            None => None,
                        }
                    } else {
                        None
                    },
                    None => None,
                }
            } else {
                None
            },
            None => None,
        }
    }
}

/// Why bytes are not the encoding of one value.
#[derive(Debug, PartialEq, Eq, Structural)]
pub enum BencodeError {
    /// The bytes do not start with a well-formed canonical value.
    Syntax,
    /// A value is followed by further bytes.
    TrailingBytes,
    /// A metainfo file whose top-level value is not a dictionary.
    NotADictionary,
}

/// What decoding `s` gives.
pub open spec fn decode_result(s: Seq<u8>) -> Result<BValue, BencodeError> {
    match parse_value(s, 0) {
        Some((v, e)) => if e == s.len() {
            Ok(v)
        } else {
            Err(BencodeError::TrailingBytes)
        },
        None => Err(BencodeError::Syntax),
    }
}


/// The models of a sequence of values.
pub open spec fn views(xs: Seq<OwnedValue>) -> Seq<BValue> {
    Seq::new(xs.len(), |i: int| xs[i]@)
}

/// The model entries of a dictionary held as keys and values.
pub open spec fn entries(keys: Seq<Vec<u8>>, values: Seq<OwnedValue>) -> Seq<(Seq<u8>, BValue)> {
    Seq::new(entry_count(keys.len(), values.len()), |i: int| (keys[i]@, values[i]@))
}

pub(crate) proof fn lemma_list_view(xs: Vec<OwnedValue>)
    ensures
        OwnedValue::List(xs)@ == BValue::List(views(xs@)),
{
    let v = OwnedValue::List(xs);
    if let BValue::List(ws) = v@ {
        assert(ws =~= views(xs@));
    }
}

pub(crate) proof fn lemma_dict_view(keys: Vec<Vec<u8>>, values: Vec<OwnedValue>)
    ensures
        OwnedValue::Dict(keys, values)@ == BValue::Dict(entries(keys@, values@)),
{
    let v = OwnedValue::Dict(keys, values);
    if let BValue::Dict(ws) = v@ {
        assert(ws =~= entries(keys@, values@));
    }
}

fn is_digit_byte(b: u8) -> (r: bool)
    ensures
        r == is_digit(b),
{
    48 <= b && b <= 57
}

proof fn lemma_digits_value_grows(s: Seq<u8>, pos: int, i: int, j: int)
    requires
        0 <= pos <= i <= j <= s.len(),
        forall|k: int| pos <= k < j ==> is_digit(#[trigger] s[k]),
    ensures
        digits_value(s.subrange(pos, i)) <= digits_value(s.subrange(pos, j)),
    decreases j - i,
{
    if i < j {
        lemma_digits_value_grows(s, pos, i, j - 1);
        assert(s.subrange(pos, j).drop_last() =~= s.subrange(pos, j - 1));
    }
}

/// Reads a natural number without leading zeros at `pos`; `None` also when
/// it exceeds `limit`.
fn read_natural(s: &Vec<u8>, pos: usize, limit: u64) -> (r: Option<(u64, usize)>)
    ensures
        match r {
            Some((n, e)) => parse_natural(s@, pos as int) == Some((n as nat, e as int)) && n <= limit,
            None => match parse_natural(s@, pos as int) {
                Some((n, _)) => n > limit,
                None => true,
            },
        },
{
    let mut i: usize = pos;
    let mut acc: u128 = 0;
    if pos >= s.len() {
        return None;
    }
    while i < s.len() && is_digit_byte(s[i])
        invariant
            pos <= i <= s.len(),
            pos < s.len(),
            acc <= limit,
            acc == digits_value(s@.subrange(pos as int, i as int)),
            forall|k: int| pos <= k < i ==> is_digit(#[trigger] s@[k]),
            digits_end(s@, pos as int) == digits_end(s@, i as int),
        decreases s.len() - i,
    {
        acc = acc * 10 + (s[i] - 48) as u128;
        i += 1;
        assert(s@.subrange(pos as int, i as int).drop_last() =~= s@.subrange(pos as int, i - 1));
        if acc > limit as u128 {
            proof {
                let e = digits_end(s@, pos as int);
                lemma_digits_end_facts(s@, i as int);
                lemma_digits_value_grows(s@, pos as int, i as int, e);
            }
            return None;
        }
    }
    if i > pos && (s[pos] != 48 || i == pos + 1) {
        Some((acc as u64, i))
    } else {
        None
    }
}

pub(crate) proof fn lemma_digits_end_facts(s: Seq<u8>, pos: int)
    requires
        0 <= pos <= s.len(),
    ensures
        pos <= digits_end(s, pos) <= s.len(),
        forall|k: int| pos <= k < digits_end(s, pos) ==> is_digit(#[trigger] s[k]),
        digits_end(s, pos) < s.len() ==> !is_digit(s[digits_end(s, pos)]),
    decreases s.len() - pos,
{
    if pos < s.len() && is_digit(s[pos]) {
        lemma_digits_end_facts(s, pos + 1);
    }
}

fn copy_range(s: &Vec<u8>, from: usize, to: usize) -> (r: Vec<u8>)
    requires
        from <= to <= s.len(),
    ensures
        r@ == s@.subrange(from as int, to as int),
{
    let mut out: Vec<u8> = Vec::new();
    let mut i: usize = from;
    while i < to
        invariant
            from <= i <= to <= s.len(),
            out@ == s@.subrange(from as int, i as int),
        decreases to - i,
    {
        out.push(s[i]);
        i += 1;
        assert(out@ =~= s@.subrange(from as int, i as int));
    }
    out
}

fn read_string(s: &Vec<u8>, pos: usize) -> (r: Option<(Vec<u8>, usize)>)
    ensures
        match r {
            Some((b, e)) => parse_string(s@, pos as int) == Some((b@, e as int)),
            None => parse_string(s@, pos as int) is None,
        },
{
    match read_natural(s, pos, s.len() as u64) {
        None => None,
        Some((n, e)) => {
            if e < s.len() && s[e] == 58 && n as usize <= s.len() - e - 1 {
                let b = copy_range(s, e + 1, e + 1 + n as usize);
                Some((b, e + 1 + n as usize))
            } else {
                None
            }
        },
    }
}

fn read_integer(s: &Vec<u8>, pos: usize) -> (r: Option<(i64, usize)>)
    ensures
        match r {
            Some((n, e)) => parse_integer(s@, pos as int) == Some((n as int, e as int)),
            None => parse_integer(s@, pos as int) is None,
        },
{
    let neg = pos < s.len() && s[pos] == 45;
    let start: usize = if neg {
        pos + 1
    } else {
        pos
    };
    match read_natural(s, start, 9223372036854775808u64) {
        None => None,
        Some((n, e)) => {
            if e < s.len() && s[e] == 101 && !(neg && n == 0) && (neg || n <= 9223372036854775807u64) {
                let value: i64 = if neg {
                    if n == 9223372036854775808u64 {
                        i64::MIN
                    } else {
                        -(n as i64)
                    }
                } else {
                    n as i64
                };
                Some((value, e + 1))
            } else {
                None
            }
        },
    }
}

pub(crate) fn bytes_less_exec(a: &[u8], b: &[u8]) -> (r: bool)
    ensures
        r == bytes_less(a@, b@),
{
    let mut i: usize = 0;
    assert(a@.skip(0) =~= a@);
    assert(b@.skip(0) =~= b@);
    while i < a.len() && i < b.len() && a[i] == b[i]
        invariant
            i <= a.len(),
            i <= b.len(),
            bytes_less(a@, b@) == bytes_less(a@.skip(i as int), b@.skip(i as int)),
        decreases a.len() - i,
    {
        assert(a@.skip(i as int).drop_first() =~= a@.skip(i + 1));
        assert(b@.skip(i as int).drop_first() =~= b@.skip(i + 1));
        i += 1;
    }
    if i == a.len() {
        i < b.len()
    } else if i == b.len() {
        false
    } else {
        a[i] < b[i]
    }
}

fn read_value(s: &Vec<u8>, pos: usize) -> (r: Option<(OwnedValue, usize)>)
    ensures
        match r {
            Some((v, e)) => parse_value(s@, pos as int) == Some((v@, e as int)),
            None => parse_value(s@, pos as int) is None,
        },
    decreases s@.len() - pos, 0int,
{
    if pos >= s.len() {
        None
    } else if s[pos] == 105 {
        match read_integer(s, pos + 1) {
            Some((n, e)) => Some((OwnedValue::Integer(n), e)),
            None => None,
        }
    } else if s[pos] == 108 {
        match read_items(s, pos + 1) {
            Some((xs, e)) => {
                proof {
                    lemma_list_view(xs);
                }
                Some((OwnedValue::List(xs), e))
            },
            None => None,
        }
    } else if s[pos] == 100 {
        match read_entries(s, pos + 1) {
            Some((keys, values, e)) => {
                proof {
                    lemma_dict_view(keys, values);
                }
                Some((OwnedValue::Dict(keys, values), e))
            },
            None => None,
        }
    } else {
        match read_string(s, pos) {
            Some((b, e)) => Some((OwnedValue::Str(b), e)),
            None => None,
        }
    }
}

fn read_items(s: &Vec<u8>, pos: usize) -> (r: Option<(Vec<OwnedValue>, usize)>)
    ensures
        match r {
            Some((xs, e)) => parse_items(s@, pos as int) == Some((views(xs@), e as int)),
            None => parse_items(s@, pos as int) is None,
        },
    decreases s@.len() - pos, 1int,
{
    let mut acc: Vec<OwnedValue> = Vec::new();
    let mut p: usize = pos;
    if pos > s.len() {
        return None;
    }
    loop
        invariant
            pos <= p <= s.len(),
            parse_items(s@, pos as int) == match parse_items(s@, p as int) {
                Some((vs, q)) => Some((views(acc@) + vs, q)),
                None => None,
            },
        decreases s.len() - p,
    {
        if p >= s.len() {
            return None;
        }
        if s[p] == 101 {
            assert(views(acc@) + Seq::<BValue>::empty() =~= views(acc@));
            return Some((acc, p + 1));
        }
        match read_value(s, p) {
            None => {
                return None;
            },
            Some((v, q)) => {
                if !(p < q && q <= s.len()) {
                    return None;
                }
                let ghost old_acc = acc@;
                acc.push(v);
                proof {
                    assert forall|vs: Seq<BValue>| views(acc@) + vs =~= views(old_acc) + (seq![v@] + vs) by {}
                }
                p = q;
            },
        }
    }
}

fn read_entries(s: &Vec<u8>, pos: usize) -> (r: Option<(Vec<Vec<u8>>, Vec<OwnedValue>, usize)>)
    ensures
        match r {
            Some((keys, values, e)) => parse_entries(s@, pos as int, None) == Some((entries(keys@, values@), e as int)),
            None => parse_entries(s@, pos as int, None) is None,
        },
    decreases s@.len() - pos, 1int,
{
    let mut keys: Vec<Vec<u8>> = Vec::new();
    let mut values: Vec<OwnedValue> = Vec::new();
    let mut p: usize = pos;
    if pos > s.len() {
        return None;
    }
    loop
        invariant
            pos <= p <= s.len(),
            keys.len() == values.len(),
            parse_entries(s@, pos as int, None) == match parse_entries(
                s@,
                p as int,
                if keys.len() == 0 { None } else { Some(keys@.last()@) },
            ) {
                Some((es, q)) => Some((entries(keys@, values@) + es, q)),
                None => None,
            },
        decreases s.len() - p,
    {
        if p >= s.len() {
            return None;
        }
        if s[p] == 101 {
            assert(entries(keys@, values@) + Seq::<(Seq<u8>, BValue)>::empty() =~= entries(keys@, values@));
            return Some((keys, values, p + 1));
        }
        match read_string(s, p) {
            None => {
                return None;
            },
            Some((k, q)) => {
                if !(p < q && q <= s.len()) {
                    return None;
                }
                if keys.len() > 0 && !bytes_less_exec(keys[keys.len() - 1].as_slice(), k.as_slice()) {
                    return None;
                }
                match read_value(s, q) {
                    None => {
                        return None;
                    },
                    Some((v, e)) => {
                        if !(q < e && e <= s.len()) {
                            return None;
                        }
                        let ghost old_keys = keys@;
                        let ghost old_values = values@;
                        let ghost kv = k@;
                        keys.push(k);
                        values.push(v);
                        proof {
                            assert(keys@.last()@ == kv);
                            assert forall|es: Seq<(Seq<u8>, BValue)>|
                                entries(keys@, values@) + es =~= entries(old_keys, old_values) + (seq![(kv, v@)] + es) by {}
                        }
                        p = e;
                    },
                }
            },
        }
    }
}

/// Decodes exactly one value from `bytes`.
pub fn decode(bytes: &Vec<u8>) -> (r: Result<OwnedValue, BencodeError>)
    ensures
        match r {
            Ok(v) => decode_result(bytes@) == Ok::<BValue, BencodeError>(v@),
            Err(e) => decode_result(bytes@) == Err::<BValue, BencodeError>(e),
        },
        r is Ok ==> canonical(r->Ok_0@) && encoding(r->Ok_0@) == bytes@,
        forall|m: BValue| canonical(m) && encoding(m) == bytes@ ==> r is Ok && r->Ok_0@ == m,
{
    proof {
        if decode_result(bytes@) is Ok {
            crate::bencode_laws::lemma_encoding_of_decode(bytes@);
        }
        assert forall|m: BValue| canonical(m) && encoding(m) == bytes@ implies decode_result(bytes@) == Ok::<BValue, BencodeError>(m) by {
            crate::bencode_laws::lemma_decode_of_encoding(m);
        }
    }
    match read_value(bytes, 0) {
        None => Err(BencodeError::Syntax),
        Some((v, e)) => {
            if e == bytes.len() {
                Ok(v)
            } else {
                Err(BencodeError::TrailingBytes)
            }
        },
    }
}


/// The value under `key` in a dictionary's entries (the first such entry).
pub open spec fn lookup(kvs: Seq<(Seq<u8>, BValue)>, key: Seq<u8>) -> Option<BValue>
    decreases kvs.len(),
{
    if kvs.len() == 0 {
        None
    } else if kvs[0].0 == key {
        Some(kvs[0].1)
    } else {
        lookup(kvs.drop_first(), key)
    }
}

/// The value under `key` when `d` is a dictionary.
pub open spec fn field(d: BValue, key: Seq<u8>) -> Option<BValue> {
    match d {
        BValue::Dict(kvs) => lookup(kvs, key),
        _ => None,
    }
}

impl OwnedValue {
    /// The value under `key` when this is a dictionary.
    pub fn get(&self, key: &Vec<u8>) -> (r: Option<&OwnedValue>)
        ensures
            match r {
                Some(x) => field(self@, key@) == Some(x@),
                None => field(self@, key@) is None,
            },
    {
        match self {
            OwnedValue::Dict(keys, values) => {
                proof {
                    lemma_dict_view(*keys, *values);
                }
                let ghost kvs = entries(keys@, values@);
                let n: usize = if keys.len() <= values.len() { keys.len() } else { values.len() };
                let mut i: usize = 0;
                assert(kvs.skip(0) =~= kvs);
                while i < n
                    invariant
                        i <= n,
                        n == kvs.len(),
                        kvs == entries(keys@, values@),
                        *self == OwnedValue::Dict(*keys, *values),
                        self@ == BValue::Dict(kvs),
                        n == entry_count(keys@.len(), values@.len()),
                        lookup(kvs, key@) == lookup(kvs.skip(i as int), key@),
                    decreases n - i,
                {
                    assert(kvs.skip(i as int)[0] == kvs[i as int]);
                    if bytes_equal(&keys[i], key) {
                        assert(kvs[i as int] == (keys@[i as int]@, values@[i as int]@));
                        return Some(&values[i]);
                    }
                    assert(kvs.skip(i as int).drop_first() =~= kvs.skip(i + 1));
                    i += 1;
                }
                None
            },
            _ => None,
        }
    }
}

fn bytes_equal(a: &Vec<u8>, b: &Vec<u8>) -> (r: bool)
    ensures
        r == (a@ == b@),
{
    if a.len() != b.len() {
        return false;
    }
    let mut i: usize = 0;
    while i < a.len()
        invariant
            i <= a.len(),
            a.len() == b.len(),
            forall|k: int| 0 <= k < i ==> a@[k] == b@[k],
        decreases a.len() - i,
    {
        if a[i] != b[i] {
            return false;
        }
        i += 1;
    }
    assert(a@ =~= b@);
    true
}


/// A copy of a byte vector.
pub fn copy_bytes(b: &Vec<u8>) -> (r: Vec<u8>)
    ensures
        r@ == b@,
{
    let r = copy_range(b, 0, b.len());
    assert(b@.subrange(0, b@.len() as int) =~= b@);
    r
}


/// Decodes a metainfo file: exactly one value, which must be a dictionary.
pub fn decode_bencoded_string(contents: &Vec<u8>) -> (r: Result<OwnedValue, BencodeError>)
    ensures
        match decode_result(contents@) {
            Ok(v) => if v is Dict {
                r is Ok && r->Ok_0@ == v
            } else {
                r == Err::<OwnedValue, BencodeError>(BencodeError::NotADictionary)
            },
            Err(e) => r == Err::<OwnedValue, BencodeError>(e),
        },
{
    let v = decode(contents)?;
    if matches!(v, OwnedValue::Dict(_, _)) {
        Ok(v)
    } else {
        Err(BencodeError::NotADictionary)
    }
}

/// How a byte is shown in readable text: printable ASCII as itself, any
/// other byte as `\u00xx`.
pub open spec fn shown_byte(b: u8) -> Seq<u8> {
    if 0x20 <= b <= 0x7e {
        seq![b]
    } else {
        seq![92u8, 117u8, 48u8, 48u8, hex_lower(b / 16), hex_lower(b % 16)]
    }
}

/// A lowercase hexadecimal digit.
pub open spec fn hex_lower(d: u8) -> u8 {
    if d < 10 {
        (48 + d) as u8
    } else {
        (87 + d) as u8
    }
}

/// The readable text of a byte string.
pub open spec fn shown_bytes(b: Seq<u8>) -> Seq<u8>
    decreases b.len(),
{
    if b.len() == 0 {
        Seq::empty()
    } else {
        shown_bytes(b.drop_last()) + shown_byte(b.last())
    }
}

/// Renders a byte string as printable ASCII, escaping every other byte.
pub fn safe_utf8_string(bytes: &[u8]) -> (r: Vec<u8>)
    ensures
        r@ == shown_bytes(bytes@),
{
    let mut out: Vec<u8> = Vec::new();
    let mut i: usize = 0;
    assert(bytes@.subrange(0, 0) =~= Seq::<u8>::empty());
    while i < bytes.len()
        invariant
            i <= bytes@.len(),
            out@ == shown_bytes(bytes@.subrange(0, i as int)),
        decreases bytes@.len() - i,
    {
        let b = bytes[i];
        if 0x20 <= b && b <= 0x7e {
            out.push(b);
        } else {
            out.push(92u8);
            out.push(117u8);
            out.push(48u8);
            out.push(48u8);
            let hi = b / 16;
            let lo = b % 16;
            out.push(if hi < 10 { 48 + hi } else { 87 + hi });
            out.push(if lo < 10 { 48 + lo } else { 87 + lo });
        }
        proof {
            let p = bytes@.subrange(0, i + 1);
            assert(p.drop_last() =~= bytes@.subrange(0, i as int));
            assert(out@ =~= shown_bytes(p));
        }
        i += 1;
    }
    assert(bytes@.subrange(0, i as int) =~= bytes@);
    out
}

} // verus!





