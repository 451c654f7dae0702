//! The bencode round-trip laws: the parser accepts exactly the canonical
//! encodings, and reads back the value that was encoded.
use vstd::prelude::*;
use crate::bencode::{BValue, normalized, normalized_items, normalized_entries, sort_entries, lemma_insert_entry_at, lemma_bytes_less_transitive, lemma_digits_end_facts, integer_text, field, lookup, bytes_less, canonical, decimal, digits_end, digits_value, encoding, entry_encodings, is_digit, item_encodings, parse_entries, parse_items, parse_natural, parse_string, parse_value, string_encoding, decode_result, BencodeError};

verus! {

proof fn lemma_decimal_facts(n: nat)
    ensures
        decimal(n).len() >= 1,
        forall|i: int| 0 <= i < decimal(n).len() ==> is_digit(#[trigger] decimal(n)[i]),
        n > 0 ==> decimal(n)[0] != 48,
        n == 0 ==> decimal(n).len() == 1,
        digits_value(decimal(n)) == n,
    decreases n,
{
    if n >= 10 {
        lemma_decimal_facts(n / 10);
        let d = decimal(n / 10);
        assert(decimal(n).drop_last() =~= d);
        assert(n == (n / 10) * 10 + n % 10) by (nonlinear_arith);
        assert(decimal(n).last() as int - 48 == n % 10);
        assert(digits_value(decimal(n)) == digits_value(d) * 10 + (n % 10));
    } else {
        assert(decimal(n).drop_last() =~= Seq::<u8>::empty());
        assert(digits_value(Seq::<u8>::empty()) == 0);
        assert(digits_value(decimal(n)) == digits_value(decimal(n).drop_last()) * 10 + (decimal(n).last() as int - 48));
    }
}

proof fn lemma_digits_value_positive(d: Seq<u8>)
    requires
        d.len() >= 1,
        forall|i: int| 0 <= i < d.len() ==> is_digit(#[trigger] d[i]),
        d[0] != 48,
    ensures
        digits_value(d) >= 1,
    decreases d.len(),
{
    if d.len() > 1 {
        let p = d.drop_last();
        assert(p[0] == d[0]);
        lemma_digits_value_positive(p);
    } else {
        assert(d.drop_last() =~= Seq::<u8>::empty());
    }
}

proof fn lemma_decimal_of_digits(d: Seq<u8>)
    requires
        d.len() >= 1,
        forall|i: int| 0 <= i < d.len() ==> is_digit(#[trigger] d[i]),
        d[0] != 48 || d.len() == 1,
    ensures
        decimal(digits_value(d)) == d,
    decreases d.len(),
{
    let p = d.drop_last();
    if d.len() == 1 {
        assert(p =~= Seq::<u8>::empty());
        assert(decimal(digits_value(d)) =~= d);
    } else {
        assert(p[0] == d[0]);
        lemma_decimal_of_digits(p);
        lemma_digits_value_positive(p);
        let n = digits_value(d);
        let m = digits_value(p);
        let x = (d.last() as int - 48) as nat;
        assert(n == m * 10 + x);
        assert(n / 10 == m && n % 10 == x) by (nonlinear_arith)
            requires
                n == m * 10 + x,
                0 <= x < 10,
        ;
        assert(d =~= p.push(d.last()));
    }
}

proof fn lemma_digits_end_at(s: Seq<u8>, pos: int, len: int)
    requires
        0 <= pos,
        0 <= len,
        pos + len <= s.len(),
        forall|i: int| pos <= i < pos + len ==> is_digit(#[trigger] s[i]),
        pos + len == s.len() || !is_digit(s[pos + len]),
    ensures
        digits_end(s, pos) == pos + len,
    decreases len,
{
    if len > 0 {
        lemma_digits_end_at(s, pos + 1, len - 1);
    }
}

/// A number written out in decimal is read back.
proof fn lemma_natural_complete(s: Seq<u8>, pos: int, n: nat)
    requires
        0 <= pos,
        pos + decimal(n).len() <= s.len(),
        s.subrange(pos, pos + decimal(n).len()) == decimal(n),
        pos + decimal(n).len() == s.len() || !is_digit(s[pos + decimal(n).len()]),
    ensures
        parse_natural(s, pos) == Some((n, pos + decimal(n).len())),
{
    let d = decimal(n);
    lemma_decimal_facts(n);
    assert forall|i: int| pos <= i < pos + d.len() implies is_digit(#[trigger] s[i]) by {
        assert(s[i] == s.subrange(pos, pos + d.len())[i - pos]);
    }
    lemma_digits_end_at(s, pos, d.len() as int);
    assert(s[pos] == d[0]);
}

proof fn lemma_natural_sound(s: Seq<u8>, pos: int)
    requires
        parse_natural(s, pos) is Some,
    ensures
        ({
            let (n, e) = parse_natural(s, pos)->0;
            pos < e <= s.len() && s.subrange(pos, e) == decimal(n) && (e == s.len() || !is_digit(s[e]))
        }),
{
    lemma_digits_end_facts(s, pos);
    let e = digits_end(s, pos);
    let d = s.subrange(pos, e);
    assert forall|i: int| 0 <= i < d.len() implies is_digit(#[trigger] d[i]) by {
        assert(d[i] == s[pos + i]);
    }
    lemma_decimal_of_digits(d);
}

proof fn lemma_string_complete(s: Seq<u8>, pos: int, b: Seq<u8>)
    requires
        0 <= pos,
        pos + string_encoding(b).len() <= s.len(),
        s.subrange(pos, pos + string_encoding(b).len()) == string_encoding(b),
    ensures
        parse_string(s, pos) == Some((b, pos + string_encoding(b).len())),
{
    let d = decimal(b.len());
    let enc = string_encoding(b);
    assert(s.subrange(pos, pos + d.len()) =~= enc.subrange(0, d.len() as int));
    assert(enc.subrange(0, d.len() as int) =~= d);
    assert(s[pos + d.len()] == enc[d.len() as int]);
    lemma_natural_complete(s, pos, b.len());
    assert(s.subrange(pos + d.len() + 1, pos + d.len() + 1 + b.len()) =~= b) by {
        assert forall|i: int| 0 <= i < b.len() implies s[pos + d.len() + 1 + i] == b[i] by {
            assert(s[pos + d.len() + 1 + i] == enc[d.len() + 1 + i]);
        }
    }
}

proof fn lemma_string_sound(s: Seq<u8>, pos: int)
    requires
        parse_string(s, pos) is Some,
    ensures
        ({
            let (b, e) = parse_string(s, pos)->0;
            pos < e <= s.len() && s.subrange(pos, e) == string_encoding(b)
        }),
{
    lemma_natural_sound(s, pos);
    let (n, e) = parse_natural(s, pos)->0;
    let (b, e2) = parse_string(s, pos)->0;
    assert(s.subrange(pos, e2) =~= s.subrange(pos, e) + seq![58u8] + b);
}

proof fn lemma_encoding_first(v: BValue)
    ensures
        encoding(v).len() >= 1,
        encoding(v)[0] == 105 || encoding(v)[0] == 108 || encoding(v)[0] == 100 || is_digit(encoding(v)[0]),
        encoding(v)[0] != 101,
{
    match v {
        BValue::Bytes(b) => {
            lemma_decimal_facts(b.len());
            assert(encoding(v)[0] == decimal(b.len())[0]);
        },
        _ => {},
    }
}

proof fn lemma_items_split(xs: Seq<BValue>)
    requires
        xs.len() > 0,
    ensures
        item_encodings(xs).flatten() == encoding(xs[0]) + item_encodings(xs.drop_first()).flatten(),
{
    assert(item_encodings(xs).drop_first() =~= item_encodings(xs.drop_first()));
}

proof fn lemma_entries_split(kvs: Seq<(Seq<u8>, BValue)>)
    requires
        kvs.len() > 0,
    ensures
        entry_encodings(kvs).flatten() == string_encoding(kvs[0].0) + encoding(kvs[0].1) + entry_encodings(
            kvs.drop_first(),
        ).flatten(),
{
    assert(entry_encodings(kvs).drop_first() =~= entry_encodings(kvs.drop_first()));
}

/// What the parser reads at `pos` is a canonical value whose encoding the
/// bytes from `pos` to the end index are.
proof fn lemma_value_sound(s: Seq<u8>, pos: int)
    requires
        parse_value(s, pos) is Some,
    ensures
        ({
            let (v, e) = parse_value(s, pos)->0;
            canonical(v) && pos < e <= s.len() && s.subrange(pos, e) == encoding(v)
        }),
    decreases s.len() - pos, 0int,
{
    let (v, e) = parse_value(s, pos)->0;
    if s[pos] == 105 {
        let neg = pos + 1 < s.len() && s[pos + 1] == 45;
        let start = if neg { pos + 2 } else { pos + 1 };
        lemma_natural_sound(s, start);
        let (n, ne) = parse_natural(s, start)->0;
        if neg {
            assert(s.subrange(pos, e) =~= seq![105u8] + (seq![45u8] + s.subrange(start, ne)) + seq![101u8]);
        } else {
            assert(s.subrange(pos, e) =~= seq![105u8] + s.subrange(start, ne) + seq![101u8]);
        }
    } else if s[pos] == 108 {
        lemma_items_sound(s, pos + 1);
        let (xs, e2) = parse_items(s, pos + 1)->0;
        assert(s.subrange(pos, e) =~= seq![108u8] + s.subrange(pos + 1, e));
    } else if s[pos] == 100 {
        lemma_entries_sound(s, pos + 1, None);
        assert(s.subrange(pos, e) =~= seq![100u8] + s.subrange(pos + 1, e));
    } else {
        lemma_string_sound(s, pos);
    }
}

proof fn lemma_items_sound(s: Seq<u8>, pos: int)
    requires
        parse_items(s, pos) is Some,
    ensures
        ({
            let (xs, e) = parse_items(s, pos)->0;
            (forall|i: int| 0 <= i < xs.len() ==> canonical(#[trigger] xs[i])) && pos < e <= s.len()
                && s.subrange(pos, e) == item_encodings(xs).flatten() + seq![101u8]
        }),
    decreases s.len() - pos, 1int,
{
    let (xs, e) = parse_items(s, pos)->0;
    if s[pos] == 101 {
        assert(s.subrange(pos, e) =~= item_encodings(xs).flatten() + seq![101u8]);
    } else {
        lemma_value_sound(s, pos);
        let (v, p) = parse_value(s, pos)->0;
        lemma_items_sound(s, p);
        let (vs, q) = parse_items(s, p)->0;
        assert(xs.drop_first() =~= vs);
        assert(xs[0] == v);
        lemma_items_split(xs);
        assert(s.subrange(pos, e) =~= s.subrange(pos, p) + s.subrange(p, e));
        assert forall|i: int| 0 <= i < xs.len() implies canonical(#[trigger] xs[i]) by {
            if i > 0 {
                assert(xs[i] == vs[i - 1]);
            }
        }
    }
}

proof fn lemma_entries_sound(s: Seq<u8>, pos: int, prev: Option<Seq<u8>>)
    requires
        parse_entries(s, pos, prev) is Some,
    ensures
        ({
            let (kvs, e) = parse_entries(s, pos, prev)->0;
            &&& forall|i: int| 0 <= i < kvs.len() ==> canonical(#[trigger] kvs[i].1)
            &&& forall|i: int| 0 < i < kvs.len() ==> bytes_less(kvs[i - 1].0, #[trigger] kvs[i].0)
            &&& (prev is Some && kvs.len() > 0) ==> bytes_less(prev->0, kvs[0].0)
            &&& pos < e <= s.len()
            &&& s.subrange(pos, e) == entry_encodings(kvs).flatten() + seq![101u8]
        }),
    decreases s.len() - pos, 1int,
{
    let (kvs, e) = parse_entries(s, pos, prev)->0;
    if s[pos] == 101 {
        assert(s.subrange(pos, e) =~= entry_encodings(kvs).flatten() + seq![101u8]);
    } else {
        lemma_string_sound(s, pos);
        let (k, p) = parse_string(s, pos)->0;
        lemma_value_sound(s, p);
        let (v, q) = parse_value(s, p)->0;
        lemma_entries_sound(s, q, Some(k));
        let (rest, r) = parse_entries(s, q, Some(k))->0;
        assert(kvs.drop_first() =~= rest);
        assert(kvs[0] == (k, v));
        lemma_entries_split(kvs);
        assert(s.subrange(pos, e) =~= s.subrange(pos, p) + s.subrange(p, q) + s.subrange(q, e));
        assert forall|i: int| 0 <= i < kvs.len() implies canonical(#[trigger] kvs[i].1) by {
            if i > 0 {
                assert(kvs[i] == rest[i - 1]);
            }
        }
        assert forall|i: int| 0 < i < kvs.len() implies bytes_less(kvs[i - 1].0, #[trigger] kvs[i].0) by {
            assert(kvs[i] == rest[i - 1]);
            if i > 1 {
                assert(kvs[i - 1] == rest[i - 2]);
            }
        }
    }
}


/// The parser reads a canonical value back from its encoding, whatever
/// follows it.
proof fn lemma_value_complete(v: BValue, s: Seq<u8>, pos: int)
    requires
        canonical(v),
        0 <= pos,
        pos + encoding(v).len() <= s.len(),
        s.subrange(pos, pos + encoding(v).len()) == encoding(v),
    ensures
        parse_value(s, pos) == Some((v, pos + encoding(v).len())),
    decreases v, 0int,
{
    let ev = encoding(v);
    lemma_encoding_first(v);
    assert(s[pos] == s.subrange(pos, pos + ev.len())[0]);
    match v {
        BValue::Int(n) => {
            let t = integer_text(n);
            if n < 0 {
                let m = (-n) as nat;
                let d = decimal(m);
                lemma_decimal_facts(m);
                assert(s[pos + 1] == ev[1]);
                assert(s.subrange(pos + 2, pos + 2 + d.len()) =~= d) by {
                    assert forall|i: int| 0 <= i < d.len() implies s[pos + 2 + i] == d[i] by {
                        assert(s[pos + 2 + i] == ev[2 + i]);
                    }
                }
                assert(s[pos + 2 + d.len()] == ev[2 + d.len() as int]);
                lemma_natural_complete(s, pos + 2, m);
            } else {
                let d = decimal(n as nat);
                lemma_decimal_facts(n as nat);
                assert(s[pos + 1] == ev[1]);
                assert(s.subrange(pos + 1, pos + 1 + d.len()) =~= d) by {
                    assert forall|i: int| 0 <= i < d.len() implies s[pos + 1 + i] == d[i] by {
                        assert(s[pos + 1 + i] == ev[1 + i]);
                    }
                }
                assert(s[pos + 1 + d.len()] == ev[1 + d.len() as int]);
                lemma_natural_complete(s, pos + 1, n as nat);
            }
        },
        BValue::Bytes(b) => {
            lemma_string_complete(s, pos, b);
        },
        BValue::List(xs) => {
            let body = item_encodings(xs).flatten() + seq![101u8];
            assert(ev =~= seq![108u8] + body);
            assert(s.subrange(pos + 1, pos + 1 + body.len()) =~= body) by {
                assert forall|i: int| 0 <= i < body.len() implies s[pos + 1 + i] == body[i] by {
                    assert(s[pos + 1 + i] == ev[1 + i]);
                }
            }
            assert(xs.skip(0) =~= xs);
            lemma_items_complete(xs, 0, s, pos + 1);
        },
        BValue::Dict(kvs) => {
            let body = entry_encodings(kvs).flatten() + seq![101u8];
            assert(ev =~= seq![100u8] + body);
            assert(s.subrange(pos + 1, pos + 1 + body.len()) =~= body) by {
                assert forall|i: int| 0 <= i < body.len() implies s[pos + 1 + i] == body[i] by {
                    assert(s[pos + 1 + i] == ev[1 + i]);
                }
            }
            assert(kvs.skip(0) =~= kvs);
            lemma_entries_complete(kvs, 0, s, pos + 1);
        },
    }
}

proof fn lemma_items_complete(xs: Seq<BValue>, k: int, s: Seq<u8>, pos: int)
    requires
        0 <= k <= xs.len(),
        forall|i: int| 0 <= i < xs.len() ==> canonical(#[trigger] xs[i]),
        0 <= pos,
        pos + item_encodings(xs.skip(k)).flatten().len() + 1 <= s.len(),
        s.subrange(pos, pos + item_encodings(xs.skip(k)).flatten().len() + 1) == item_encodings(xs.skip(k)).flatten()
            + seq![101u8],
    ensures
        parse_items(s, pos) == Some((xs.skip(k), pos + item_encodings(xs.skip(k)).flatten().len() + 1)),
    decreases xs, xs.len() - k,
{
    let ys = xs.skip(k);
    let t = item_encodings(ys).flatten() + seq![101u8];
    if k == xs.len() {
        assert(ys =~= Seq::<BValue>::empty());
        assert(item_encodings(ys) =~= Seq::<Seq<u8>>::empty());
        assert(s[pos] == t[0]);
    } else {
        lemma_items_split(ys);
        assert(ys[0] == xs[k]);
        assert(ys.drop_first() =~= xs.skip(k + 1));
        let ev = encoding(xs[k]);
        let rest = item_encodings(xs.skip(k + 1)).flatten() + seq![101u8];
        assert(t =~= ev + rest);
        lemma_encoding_first(xs[k]);
        assert(s[pos] == t[0]);
        assert(s.subrange(pos, pos + ev.len()) =~= ev) by {
            assert forall|i: int| 0 <= i < ev.len() implies s[pos + i] == ev[i] by {
                assert(s[pos + i] == t[i]);
            }
        }
        assert(s.subrange(pos + ev.len(), pos + ev.len() + rest.len()) =~= rest) by {
            assert forall|i: int| 0 <= i < rest.len() implies s[pos + ev.len() + i] == rest[i] by {
                assert(s[pos + ev.len() + i] == t[ev.len() + i]);
            }
        }
        assert(decreases_to!(xs => xs[k]));
        lemma_value_complete(xs[k], s, pos);
        lemma_items_complete(xs, k + 1, s, pos + ev.len());
        assert(seq![xs[k]] + xs.skip(k + 1) =~= ys);
    }
}

proof fn lemma_entries_complete(kvs: Seq<(Seq<u8>, BValue)>, k: int, s: Seq<u8>, pos: int)
    requires
        0 <= k <= kvs.len(),
        forall|i: int| 0 <= i < kvs.len() ==> canonical(#[trigger] kvs[i].1),
        forall|i: int| 0 < i < kvs.len() ==> bytes_less(kvs[i - 1].0, #[trigger] kvs[i].0),
        0 <= pos,
        pos + entry_encodings(kvs.skip(k)).flatten().len() + 1 <= s.len(),
        s.subrange(pos, pos + entry_encodings(kvs.skip(k)).flatten().len() + 1) == entry_encodings(
            kvs.skip(k),
        ).flatten() + seq![101u8],
    ensures
        parse_entries(s, pos, if k == 0 { None } else { Some(kvs[k - 1].0) }) == Some(
            (kvs.skip(k), pos + entry_encodings(kvs.skip(k)).flatten().len() + 1),
        ),
    decreases kvs, kvs.len() - k,
{
    let ys = kvs.skip(k);
    let t = entry_encodings(ys).flatten() + seq![101u8];
    if k == kvs.len() {
        assert(ys =~= Seq::<(Seq<u8>, BValue)>::empty());
        assert(entry_encodings(ys) =~= Seq::<Seq<u8>>::empty());
        assert(s[pos] == t[0]);
    } else {
        lemma_entries_split(ys);
        assert(ys[0] == kvs[k]);
        assert(ys.drop_first() =~= kvs.skip(k + 1));
        let ek = string_encoding(kvs[k].0);
        let ev = encoding(kvs[k].1);
        let rest = entry_encodings(kvs.skip(k + 1)).flatten() + seq![101u8];
        assert(t =~= ek + ev + rest);
        lemma_decimal_facts(kvs[k].0.len());
        assert(s[pos] == t[0]);
        assert(t[0] == decimal(kvs[k].0.len())[0]);
        assert(s.subrange(pos, pos + ek.len()) =~= ek) by {
            assert forall|i: int| 0 <= i < ek.len() implies s[pos + i] == ek[i] by {
                assert(s[pos + i] == t[i]);
            }
        }
        assert(s.subrange(pos + ek.len(), pos + ek.len() + ev.len()) =~= ev) by {
            assert forall|i: int| 0 <= i < ev.len() implies s[pos + ek.len() + i] == ev[i] by {
                assert(s[pos + ek.len() + i] == t[ek.len() + i]);
            }
        }
        assert(s.subrange(pos + ek.len() + ev.len(), pos + ek.len() + ev.len() + rest.len()) =~= rest) by {
            assert forall|i: int| 0 <= i < rest.len() implies s[pos + ek.len() + ev.len() + i] == rest[i] by {
                assert(s[pos + ek.len() + ev.len() + i] == t[ek.len() + ev.len() + i]);
            }
        }
        lemma_string_complete(s, pos, kvs[k].0);
        lemma_encoding_first(kvs[k].1);
        assert(decreases_to!(kvs => kvs[k]));
        assert(decreases_to!(kvs[k] => kvs[k].1));
        lemma_value_complete(kvs[k].1, s, pos + ek.len());
        lemma_entries_complete(kvs, k + 1, s, pos + ek.len() + ev.len());
        assert(seq![kvs[k]] + kvs.skip(k + 1) =~= ys);
    }
}

/// Decoding the encoding of a canonical value gives the value back.
pub proof fn lemma_decode_of_encoding(v: BValue)
    requires
        canonical(v),
    ensures
        decode_result(encoding(v)) == Ok::<BValue, BencodeError>(v),
{
    let s = encoding(v);
    assert(s.subrange(0, s.len() as int) =~= s);
    lemma_value_complete(v, s, 0);
}

/// Bytes that decode are exactly the canonical encoding of the value they
/// decode to.
pub proof fn lemma_encoding_of_decode(b: Seq<u8>)
    requires
        decode_result(b) is Ok,
    ensures
        canonical(decode_result(b)->Ok_0),
        encoding(decode_result(b)->Ok_0) == b,
{
    lemma_value_sound(b, 0);
    assert(b.subrange(0, b.len() as int) =~= b);
}


proof fn lemma_lookup_index(kvs: Seq<(Seq<u8>, BValue)>, key: Seq<u8>)
    requires
        lookup(kvs, key) is Some,
    ensures
        exists|k: int| 0 <= k < kvs.len() && kvs[k].0 == key && kvs[k].1 == lookup(kvs, key)->0,
    decreases kvs.len(),
{
    if kvs[0].0 != key {
        lemma_lookup_index(kvs.drop_first(), key);
        let k = choose|k: int|
            0 <= k < kvs.drop_first().len() && kvs.drop_first()[k].0 == key && kvs.drop_first()[k].1 == lookup(
                kvs.drop_first(),
                key,
            )->0;
        assert(kvs[k + 1] == kvs.drop_first()[k]);
    }
}

/// The value under a key of a decoded dictionary is re-encoded, canonically,
/// to exactly the bytes it occupied in the source, so a digest over its
/// re-encoding is a digest over those source bytes.
pub proof fn lemma_field_bytes_in_source(b: Seq<u8>, key: Seq<u8>)
    requires
        decode_result(b) is Ok,
        field(decode_result(b)->Ok_0, key) is Some,
    ensures
        exists|i: int, j: int|
            0 <= i <= j <= b.len() && b.subrange(i, j) == encoding(field(decode_result(b)->Ok_0, key)->0)
                && b.subrange(i, j) == encoding(normalized(field(decode_result(b)->Ok_0, key)->0)),
{
    lemma_encoding_of_decode(b);
    let v = decode_result(b)->Ok_0;
    let kvs = v->Dict_0;
    lemma_lookup_index(kvs, key);
    let k = choose|k: int| 0 <= k < kvs.len() && kvs[k].0 == key && kvs[k].1 == lookup(kvs, key)->0;
    let es = entry_encodings(kvs);
    let front = es.subrange(0, k);
    let back = es.subrange(k + 1, es.len() as int);
    assert(es =~= front + seq![es[k]] + back);
    vstd::seq_lib::lemma_flatten_concat(front + seq![es[k]], back);
    vstd::seq_lib::lemma_flatten_concat(front, seq![es[k]]);
    seq![es[k]].lemma_flatten_one_element();
    let x = kvs[k].1;
    let i: int = 1 + front.flatten().len() as int + string_encoding(key).len() as int;
    let j: int = i + encoding(x).len() as int;
    assert(b =~= seq![100u8] + front.flatten() + string_encoding(key) + encoding(x) + back.flatten() + seq![101u8]);
    assert(b.subrange(i, j) =~= encoding(x));
    lemma_normalized_canonical(x);
}


proof fn lemma_sorted_chain(kvs: Seq<(Seq<u8>, BValue)>, a: int, b: int)
    requires
        forall|i: int| 0 < i < kvs.len() ==> bytes_less(kvs[i - 1].0, #[trigger] kvs[i].0),
        0 <= a < b < kvs.len(),
    ensures
        bytes_less(kvs[a].0, kvs[b].0),
    decreases b - a,
{
    if b > a + 1 {
        lemma_sorted_chain(kvs, a, b - 1);
        lemma_bytes_less_transitive(kvs[a].0, kvs[b - 1].0, kvs[b].0);
    }
}

proof fn lemma_sorted_entries_fixed(kvs: Seq<(Seq<u8>, BValue)>)
    requires
        forall|i: int| 0 < i < kvs.len() ==> bytes_less(kvs[i - 1].0, #[trigger] kvs[i].0),
    ensures
        sort_entries(kvs) == kvs,
    decreases kvs.len(),
{
    if kvs.len() > 0 {
        let p = kvs.drop_last();
        assert forall|i: int| 0 < i < p.len() implies bytes_less(p[i - 1].0, #[trigger] p[i].0) by {
            assert(p[i] == kvs[i] && p[i - 1] == kvs[i - 1]);
        }
        lemma_sorted_entries_fixed(p);
        assert forall|t: int| 0 <= t < p.len() implies bytes_less(#[trigger] p[t].0, kvs.last().0) by {
            lemma_sorted_chain(kvs, t, kvs.len() - 1);
        }
        lemma_insert_entry_at(kvs.last(), p, p.len() as int);
        assert(p.insert(p.len() as int, kvs.last()) =~= kvs);
    }
}

/// Normalizing a canonical value changes nothing: its dictionaries are
/// already in key order.
pub proof fn lemma_normalized_canonical(v: BValue)
    requires
        canonical(v),
    ensures
        normalized(v) == v,
    decreases v,
{
    match v {
        BValue::List(xs) => {
            assert forall|i: int| 0 <= i < xs.len() implies normalized(xs[i]) == xs[i] by {
                assert(decreases_to!(v => xs[i]));
                lemma_normalized_canonical(xs[i]);
            }
            assert(normalized_items(xs) =~= xs);
        },
        BValue::Dict(kvs) => {
            assert forall|i: int| 0 <= i < kvs.len() implies normalized(kvs[i].1) == kvs[i].1 by {
                assert(decreases_to!(v => kvs[i].1));
                lemma_normalized_canonical(kvs[i].1);
            }
            assert(normalized_entries(kvs) =~= kvs);
            lemma_sorted_entries_fixed(kvs);
        },
        _ => {},
    }
}

} // verus!



