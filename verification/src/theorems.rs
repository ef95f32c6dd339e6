//! What holds of the codec as a whole: decoding undoes encoding, static types
//! have encodings of one length, a buffer shorter than the head of the types
//! does not decode, whatever decodes has the shape of the types, and a
//! buffer cut short decodes to what the whole buffer decodes to or not at all.

use vstd::prelude::*;
use vstd::utf8::{encode_utf8, encode_utf8_decode_utf8, encode_utf8_valid_utf8};
use crate::decoder::{
    bytes_behind,
    decode_group,
    decode_kind,
    decode_list,
    decoding,
    lemma_decode_list_next,
    lemma_rank_repeat,
    list_rank,
    rank,
    repeat,
};
use crate::encoder::{
    body,
    encoding,
    fixed_width,
    head_size,
    heads,
    lemma_heads_len,
    lemma_take_next,
    packed,
    slot_len,
    tails,
};
use crate::param_type::{Kind, all_valid, any_dynamic};
use crate::token::{Value, all_conform, all_wf, any_value_dynamic, each_conforms};
use crate::word::{
    lemma_be_bytes_len,
    lemma_size_at_word,
    size_at,
    word,
    word_at,
    zeros,
};

verus! {

/// Whether `value` has the shape of `kind` and loses nothing on the way
/// through the encoding: as [`Value::conforms`], but fixed bytes fill the
/// declared length, and a fixed array without elements has a static element
/// type.
pub open spec fn exact(value: Value, kind: Kind) -> bool
    decreases value,
{
    match value {
        Value::FixedBytes(bytes) => kind matches Kind::FixedBytes(len) && bytes.len() == len,
        Value::FixedArray(items) => kind matches Kind::FixedArray(elem, len) && items.len() == len
            && all_exact(items, *elem) && (len == 0 ==> !elem.is_dynamic()),
        Value::Array(items) => kind matches Kind::Array(elem) && all_exact(items, *elem),
        Value::Tuple(items) => kind matches Kind::Tuple(members) && each_exact(items, members),
        Value::Bool(_) => kind is Bool,
        Value::Address(_) => kind is Address,
        Value::Uint(_) => kind is Uint,
        Value::Int(_) => kind is Int,
        Value::Bytes(_) => kind is Bytes,
        Value::String(_) => kind is String,
    }
}

/// Whether every value of the sequence is exactly of `kind`.
pub open spec fn all_exact(values: Seq<Value>, kind: Kind) -> bool
    decreases values,
{
    forall|i: int| 0 <= i < values.len() ==> exact(#[trigger] values[i], kind)
}

/// Whether the values are exactly of the kinds, one to one.
pub open spec fn each_exact(values: Seq<Value>, kinds: Seq<Kind>) -> bool
    decreases values,
{
    &&& values.len() == kinds.len()
    &&& forall|i: int| 0 <= i < values.len() ==> exact(#[trigger] values[i], kinds[i])
}

/// Whether `block` stands in `region` from byte `at` on.
pub open spec fn holds_at(region: Seq<u8>, at: nat, block: Seq<u8>) -> bool {
    at + block.len() <= region.len() && region.subrange(at as int, at as int + block.len())
        == block
}

proof fn lemma_holds_part(region: Seq<u8>, at: nat, block: Seq<u8>, from: nat, to: nat)
    requires
        holds_at(region, at, block),
        from <= to <= block.len(),
    ensures
        holds_at(region, at + from, block.subrange(from as int, to as int)),
{
    let part = block.subrange(from as int, to as int);
    assert(region.subrange(at as int + from, at as int + from + part.len()) =~= part) by {
        assert forall|i: int| 0 <= i < part.len() implies region.subrange(
            at as int + from,
            at as int + from + part.len(),
        )[i] == part[i] by {
            assert(region.subrange(at as int, at as int + block.len())[from + i] == block[from
                + i]);
        }
    }
}

proof fn lemma_holds_skip(region: Seq<u8>, at: nat, block: Seq<u8>, cut: nat)
    requires
        holds_at(region, at, block),
        cut <= at,
    ensures
        holds_at(region.skip(cut as int), (at - cut) as nat, block),
{
    let inner = region.skip(cut as int);
    assert(inner.subrange(at - cut, at - cut + block.len()) =~= region.subrange(
        at as int,
        at as int + block.len(),
    ));
}

/// An exact value is dynamic just when its kind is.
pub proof fn lemma_exact_dynamic(value: Value, kind: Kind)
    requires
        exact(value, kind),
    ensures
        value.is_dynamic() == kind.is_dynamic(),
    decreases value,
{
    match value {
        Value::FixedArray(items) => {
            let elem = *kind->FixedArray_0;
            assert forall|i: int| 0 <= i < items.len() implies (#[trigger] items[i]).is_dynamic()
                == elem.is_dynamic() by {
                lemma_exact_dynamic(items[i], elem);
            }
            if items.len() > 0 {
                assert(items[0].is_dynamic() == elem.is_dynamic());
            }
            assert(any_value_dynamic(items) == elem.is_dynamic());
        },
        Value::Tuple(items) => {
            let members = kind->Tuple_0;
            assert forall|i: int| 0 <= i < items.len() implies (#[trigger] items[i]).is_dynamic()
                == members[i].is_dynamic() by {
                lemma_exact_dynamic(items[i], members[i]);
            }
            if any_value_dynamic(items) {
                let i = choose|i: int| 0 <= i < items.len() && (#[trigger] items[i]).is_dynamic();
                assert(members[i].is_dynamic());
            }
            if any_dynamic(members) {
                let i = choose|i: int|
                    0 <= i < members.len() && (#[trigger] members[i]).is_dynamic();
                assert(items[i].is_dynamic());
            }
            assert(any_value_dynamic(items) == any_dynamic(members));
        },
        _ => {},
    }
}

/// The head and the tail of the first values are the first bytes of the
/// head and of the tail of all of them.
proof fn lemma_prefix_layout(values: Seq<Value>, base: nat, i: int)
    requires
        0 <= i <= values.len(),
    ensures
        heads(values.take(i), base).len() <= heads(values, base).len(),
        tails(values.take(i)).len() <= tails(values).len(),
        heads(values.take(i), base) == heads(values, base).subrange(
            0,
            heads(values.take(i), base).len() as int,
        ),
        tails(values.take(i)) == tails(values).subrange(0, tails(values.take(i)).len() as int),
    decreases values.len() - i,
{
    if i == values.len() {
        assert(values.take(i) =~= values);
        assert(heads(values, base) =~= heads(values, base).subrange(
            0,
            heads(values, base).len() as int,
        ));
        assert(tails(values) =~= tails(values).subrange(0, tails(values).len() as int));
    } else {
        lemma_take_next(values, i, base);
        lemma_prefix_layout(values, base, i + 1);
        let h0 = heads(values.take(i), base);
        let h1 = heads(values.take(i + 1), base);
        let t0 = tails(values.take(i));
        let t1 = tails(values.take(i + 1));
        assert(h0 =~= h1.subrange(0, h0.len() as int));
        assert(t0 =~= t1.subrange(0, t0.len() as int));
        assert(h0 =~= heads(values, base).subrange(0, h0.len() as int));
        assert(t0 =~= tails(values).subrange(0, t0.len() as int));
    }
}

/// Where value `i` stands in the head and in the tail of its sequence.
proof fn lemma_layout(values: Seq<Value>, base: nat, i: int)
    requires
        0 <= i < values.len(),
    ensures
        head_size(values.take(i)) + slot_len(values[i]) <= heads(values, base).len(),
        values[i].is_dynamic() ==> {
            &&& heads(values, base).subrange(
                head_size(values.take(i)) as int,
                head_size(values.take(i)) as int + 32,
            ) == word(base + tails(values.take(i)).len())
            &&& tails(values.take(i)).len() + body(values[i]).len() <= tails(values).len()
            &&& tails(values).subrange(
                tails(values.take(i)).len() as int,
                tails(values.take(i)).len() as int + body(values[i]).len(),
            ) == body(values[i])
        },
        !values[i].is_dynamic() ==> heads(values, base).subrange(
            head_size(values.take(i)) as int,
            head_size(values.take(i)) as int + body(values[i]).len(),
        ) == body(values[i]),
{
    lemma_take_next(values, i, base);
    lemma_prefix_layout(values, base, i + 1);
    lemma_heads_len(values.take(i), base);
    lemma_heads_len(values.take(i + 1), base);
    lemma_heads_len(values, base);
    let h1 = heads(values.take(i + 1), base);
    let t1 = tails(values.take(i + 1));
    let hs = head_size(values.take(i)) as int;
    let ts = tails(values.take(i)).len() as int;
    if values[i].is_dynamic() {
        let offset = word(base + tails(values.take(i)).len());
        lemma_be_bytes_len(base + tails(values.take(i)).len(), 32);
        assert(h1.subrange(hs, hs + 32) =~= offset);
        assert(heads(values, base).subrange(hs, hs + 32) =~= h1.subrange(hs, hs + 32));
        let block = body(values[i]);
        assert(t1.subrange(ts, ts + block.len()) =~= block);
        assert(tails(values).subrange(ts, ts + block.len()) =~= t1.subrange(
            ts,
            ts + block.len(),
        ));
    } else {
        let block = body(values[i]);
        assert(h1.subrange(hs, hs + block.len()) =~= block);
        assert(heads(values, base).subrange(hs, hs + block.len()) =~= h1.subrange(
            hs,
            hs + block.len(),
        ));
    }
}

/// Static values have no tail, and their head does not depend on where a
/// tail would start.
proof fn lemma_static_layout(values: Seq<Value>, base: nat, other: nat)
    requires
        !any_value_dynamic(values),
    ensures
        tails(values) == Seq::<u8>::empty(),
        heads(values, base) == heads(values, other),
    decreases values.len(),
{
    if values.len() > 0 {
        let front = values.drop_last();
        assert(!values[values.len() - 1].is_dynamic());
        assert forall|i: int| 0 <= i < front.len() implies !(#[trigger] front[i]).is_dynamic() by {
            assert(front[i] == values[i]);
        }
        lemma_static_layout(front, base, other);
    }
}

/// A static value that stands at byte `at` decodes to itself.
proof fn lemma_decode_static(kind: Kind, value: Value, region: Seq<u8>, at: nat)
    requires
        value.wf(),
        exact(value, kind),
        !value.is_dynamic(),
        holds_at(region, at, body(value)),
    ensures
        decode_kind(kind, region, at) == Some((value, at + body(value).len())),
    decreases value, 0nat,
{
    lemma_exact_dynamic(value, kind);
    match value {
        Value::Bool(flag) => {
            let n: nat = if flag {
                1
            } else {
                0
            };
            lemma_be_bytes_len(n, 32);
            lemma_size_at_word(region, at, n);
            assert(word_at(region, at) == word(n));
        },
        Value::Address(bytes) => {
            assert(word_at(region, at) == zeros(12) + bytes);
            assert(word_at(region, at).skip(12) =~= bytes);
        },
        Value::Uint(bytes) => {
            assert(word_at(region, at) == bytes);
        },
        Value::Int(bytes) => {
            assert(word_at(region, at) == bytes);
        },
        Value::FixedBytes(bytes) => {
            let len = bytes.len();
            assert(body(value).len() == fixed_width(len));
            assert(region.subrange(at as int, at as int + len) =~= bytes) by {
                lemma_holds_part(region, at, body(value), 0, len);
                assert(body(value).subrange(0, len as int) =~= bytes);
            }
        },
        Value::FixedArray(items) => {
            let elem = *kind->FixedArray_0;
            let kinds = repeat(elem, items.len());
            lemma_decode_static_items(kinds, items, region, at);
            assert(decode_group(false, kinds, region, at) == decode_list(kinds, region, at));
        },
        Value::Tuple(items) => {
            let members = kind->Tuple_0;
            lemma_decode_static_items(members, items, region, at);
            assert(decode_group(false, members, region, at) == decode_list(members, region, at));
        },
        _ => {},
    }
}

/// Static values that stand one after another from byte `at` decode to
/// themselves.
proof fn lemma_decode_static_items(kinds: Seq<Kind>, values: Seq<Value>, region: Seq<u8>, at: nat)
    requires
        all_wf(values),
        each_exact(values, kinds),
        !any_value_dynamic(values),
        holds_at(region, at, encoding(values)),
    ensures
        decode_list(kinds, region, at) == Some((values, at + encoding(values).len())),
    decreases values, values.len() + 1,
{
    let size = head_size(values);
    lemma_static_layout(values, size, 0);
    lemma_heads_len(values, size);
    assert(encoding(values) =~= heads(values, 0));
    assert(holds_at(region, 0, tails(values))) by {
        assert(region.subrange(0, 0) =~= Seq::<u8>::empty());
    }
    lemma_decode_items(kinds, values, region, at, 0, values.len());
    assert(kinds.take(values.len() as int) =~= kinds);
    assert(values.take(values.len() as int) =~= values);
}

/// A dynamic value whose offset word stands at byte `at` and whose block
/// stands at that offset decodes to itself.
proof fn lemma_decode_dynamic(kind: Kind, value: Value, region: Seq<u8>, at: nat, start: nat)
    requires
        value.wf(),
        exact(value, kind),
        value.is_dynamic(),
        holds_at(region, at, word(start)),
        holds_at(region, start, body(value)),
        start + body(value).len() <= usize::MAX,
    ensures
        decode_kind(kind, region, at) == Some((value, at + 32)),
    decreases value, 0nat,
{
    lemma_exact_dynamic(value, kind);
    lemma_be_bytes_len(start, 32);
    lemma_size_at_word(region, at, start);
    assert(size_at(region, at) == Some(start));
    match value {
        Value::Bytes(bytes) => {
            lemma_packed_behind(region, at, start, bytes);
        },
        Value::String(text) => {
            lemma_packed_behind(region, at, start, encode_utf8(text));
            encode_utf8_valid_utf8(text);
            encode_utf8_decode_utf8(text);
        },
        Value::Array(items) => {
            let elem = *kind->Array_0;
            let count = items.len();
            let kinds = repeat(elem, count);
            lemma_be_bytes_len(count, 32);
            lemma_holds_part(region, start, body(value), 0, 32);
            assert(body(value).subrange(0, 32) =~= word(count));
            lemma_size_at_word(region, start, count);
            lemma_holds_part(region, start, body(value), 32, body(value).len());
            assert(body(value).subrange(32, body(value).len() as int) =~= encoding(items));
            lemma_holds_skip(region, start + 32, encoding(items), start + 32);
            lemma_decode_region(kinds, items, region.skip(start as int + 32));
        },
        Value::FixedArray(items) => {
            let elem = *kind->FixedArray_0;
            let kinds = repeat(elem, items.len());
            lemma_holds_skip(region, start, encoding(items), start);
            lemma_decode_region(kinds, items, region.skip(start as int));
        },
        Value::Tuple(items) => {
            let members = kind->Tuple_0;
            lemma_holds_skip(region, start, encoding(items), start);
            lemma_decode_region(members, items, region.skip(start as int));
        },
        _ => {},
    }
}

/// A packed byte string that stands behind its offset word is found there.
proof fn lemma_packed_behind(region: Seq<u8>, at: nat, start: nat, bytes: Seq<u8>)
    requires
        size_at(region, at) == Some(start),
        holds_at(region, start, packed(bytes)),
        start + packed(bytes).len() <= usize::MAX,
    ensures
        bytes_behind(region, at) == Some(bytes),
{
    let len = bytes.len();
    lemma_be_bytes_len(len, 32);
    lemma_holds_part(region, start, packed(bytes), 0, 32);
    assert(packed(bytes).subrange(0, 32) =~= word(len));
    lemma_size_at_word(region, start, len);
    lemma_holds_part(region, start, packed(bytes), 32, 32 + len);
    assert(packed(bytes).subrange(32, 32 + len as int) =~= bytes);
}

/// Values whose encoding stands at the start of `region` decode to
/// themselves.
proof fn lemma_decode_region(kinds: Seq<Kind>, values: Seq<Value>, region: Seq<u8>)
    requires
        all_wf(values),
        each_exact(values, kinds),
        holds_at(region, 0, encoding(values)),
        encoding(values).len() <= usize::MAX,
    ensures
        decode_list(kinds, region, 0) == Some((values, head_size(values))),
    decreases values, values.len() + 1,
{
    let size = head_size(values);
    lemma_heads_len(values, size);
    lemma_holds_part(region, 0, encoding(values), 0, size);
    assert(encoding(values).subrange(0, size as int) =~= heads(values, size));
    lemma_holds_part(region, 0, encoding(values), size, encoding(values).len());
    assert(encoding(values).subrange(size as int, encoding(values).len() as int) =~= tails(
        values,
    ));
    lemma_decode_items(kinds, values, region, 0, size, values.len());
    assert(kinds.take(values.len() as int) =~= kinds);
    assert(values.take(values.len() as int) =~= values);
}

/// The first `i` of the values whose head stands at byte `at` and whose
/// tail stands at byte `base` decode to themselves.
proof fn lemma_decode_items(
    kinds: Seq<Kind>,
    values: Seq<Value>,
    region: Seq<u8>,
    at: nat,
    base: nat,
    i: nat,
)
    requires
        all_wf(values),
        each_exact(values, kinds),
        holds_at(region, at, heads(values, base)),
        holds_at(region, base, tails(values)),
        base + tails(values).len() <= usize::MAX,
        i <= values.len(),
    ensures
        decode_list(kinds.take(i as int), region, at) == Some(
            (values.take(i as int), at + head_size(values.take(i as int))),
        ),
    decreases values, i,
{
    if i == 0 {
        assert(kinds.take(0) =~= Seq::<Kind>::empty());
        assert(values.take(0) =~= Seq::<Value>::empty());
    } else {
        let j = (i - 1) as nat;
        let value = values[j as int];
        let kind = kinds[j as int];
        let slot = at + head_size(values.take(j as int));
        lemma_decode_items(kinds, values, region, at, base, j);
        lemma_decode_list_next(kinds, region, at, j as int);
        lemma_take_next(values, j as int, base);
        lemma_layout(values, base, j as int);
        let hs = head_size(values.take(j as int));
        let ts = tails(values.take(j as int)).len();
        assert(value.wf());
        assert(exact(value, kind));
        if value.is_dynamic() {
            let start = base + ts;
            lemma_holds_part(region, at, heads(values, base), hs, hs + 32);
            lemma_holds_part(region, base, tails(values), ts, ts + body(value).len());
            lemma_decode_dynamic(kind, value, region, slot, start);
        } else {
            lemma_holds_part(region, at, heads(values, base), hs, hs + body(value).len());
            lemma_decode_static(kind, value, region, slot);
        }
        assert(values.take(j as int).push(value) =~= values.take(i as int));
    }
}

/// Decoding undoes encoding: values that are well formed and exactly of the
/// kinds, and whose encoding the machine can address, come back from their
/// encoding unchanged.
pub proof fn lemma_round_trip(kinds: Seq<Kind>, values: Seq<Value>)
    requires
        all_wf(values),
        each_exact(values, kinds),
        encoding(values).len() <= usize::MAX,
    ensures
        decoding(kinds, encoding(values)) == Some(values),
{
    let region = encoding(values);
    assert(region.subrange(0, region.len() as int) =~= region);
    lemma_decode_region(kinds, values, region);
}

/// Two well-formed values of one static, valid kind take the same number of
/// bytes.
proof fn lemma_same_body_len(kind: Kind, a: Value, b: Value)
    requires
        a.wf(),
        b.wf(),
        a.conforms(kind),
        b.conforms(kind),
        !kind.is_dynamic(),
        kind.valid(),
    ensures
        body(a).len() == body(b).len(),
        !a.is_dynamic(),
        !b.is_dynamic(),
    decreases a,
{
    match a {
        Value::Bool(flag) => {
            lemma_be_bytes_len(
                if flag {
                    1
                } else {
                    0
                },
                32,
            );
            lemma_be_bytes_len(
                if b->Bool_0 {
                    1
                } else {
                    0
                },
                32,
            );
        },
        Value::FixedArray(items) => {
            let elem = *kind->FixedArray_0;
            let others = b->FixedArray_0;
            let kinds = repeat(elem, items.len());
            assert(each_conforms(items, kinds));
            assert(each_conforms(others, kinds));
            lemma_same_len(kinds, items, others);
            lemma_heads_len(items, head_size(items));
            lemma_heads_len(others, head_size(others));
        },
        Value::Tuple(items) => {
            let others = b->Tuple_0;
            lemma_same_len(kind->Tuple_0, items, others);
            lemma_heads_len(items, head_size(items));
            lemma_heads_len(others, head_size(others));
        },
        _ => {},
    }
}

/// Two sequences of well-formed values of the same static, valid kinds have
/// heads of one length and no tails.
proof fn lemma_same_len(kinds: Seq<Kind>, a: Seq<Value>, b: Seq<Value>)
    requires
        all_wf(a),
        all_wf(b),
        each_conforms(a, kinds),
        each_conforms(b, kinds),
        !any_dynamic(kinds),
        all_valid(kinds),
    ensures
        head_size(a) == head_size(b),
        tails(a).len() == 0,
        tails(b).len() == 0,
        !any_value_dynamic(a),
        !any_value_dynamic(b),
    decreases a,
{
    if a.len() > 0 {
        let last = a.len() - 1;
        let front = kinds.drop_last();
        assert(!kinds[last].is_dynamic());
        assert(kinds[last].valid());
        assert(a[last].wf() && b[last].wf());
        assert(a[last].conforms(kinds[last]) && b[last].conforms(kinds[last]));
        lemma_same_body_len(kinds[last], a[last], b[last]);
        assert forall|i: int| 0 <= i < front.len() implies !(#[trigger] front[i]).is_dynamic()
            && front[i].valid() by {
            assert(front[i] == kinds[i]);
        }
        assert forall|i: int| 0 <= i < front.len() implies (#[trigger] a.drop_last()[i]).wf()
            && a.drop_last()[i].conforms(front[i]) by {
            assert(a.drop_last()[i] == a[i]);
        }
        assert forall|i: int| 0 <= i < front.len() implies (#[trigger] b.drop_last()[i]).wf()
            && b.drop_last()[i].conforms(front[i]) by {
            assert(b.drop_last()[i] == b[i]);
        }
        lemma_same_len(front, a.drop_last(), b.drop_last());
        assert(a.last() == a[last] && b.last() == b[last]);
        assert(b.len() == a.len());
        assert(slot_len(a[last]) == body(a[last]).len());
        assert(slot_len(b[last]) == body(b[last]).len());
        assert(head_size(a) == head_size(a.drop_last()) + slot_len(a.last()));
        assert(head_size(b) == head_size(b.drop_last()) + slot_len(b.last()));
        assert(tails(a) == tails(a.drop_last()));
        assert(tails(b) == tails(b.drop_last()));
        assert forall|i: int| 0 <= i < a.len() implies !(#[trigger] a[i]).is_dynamic() by {
            if i < last {
                assert(a.drop_last()[i] == a[i]);
            }
        }
        assert forall|i: int| 0 <= i < b.len() implies !(#[trigger] b[i]).is_dynamic() by {
            if i < last {
                assert(b.drop_last()[i] == b[i]);
            }
        }
    }
}

/// Two sequences of well-formed values that conform to the same static,
/// valid kinds have encodings of the same length.
pub proof fn lemma_static_size(kinds: Seq<Kind>, a: Seq<Value>, b: Seq<Value>)
    requires
        all_wf(a),
        all_wf(b),
        each_conforms(a, kinds),
        each_conforms(b, kinds),
        !any_dynamic(kinds),
        all_valid(kinds),
    ensures
        encoding(a).len() == encoding(b).len(),
{
    lemma_same_len(kinds, a, b);
    lemma_heads_len(a, head_size(a));
    lemma_heads_len(b, head_size(b));
}

/// An exact value conforms.
pub proof fn lemma_exact_conforms(value: Value, kind: Kind)
    requires
        exact(value, kind),
    ensures
        value.conforms(kind),
    decreases value,
{
    match value {
        Value::FixedArray(items) => {
            let elem = *kind->FixedArray_0;
            assert forall|i: int| 0 <= i < items.len() implies (#[trigger] items[i]).conforms(
                elem,
            ) by {
                lemma_exact_conforms(items[i], elem);
            }
            assert(all_conform(items, elem));
        },
        Value::Array(items) => {
            let elem = *kind->Array_0;
            assert forall|i: int| 0 <= i < items.len() implies (#[trigger] items[i]).conforms(
                elem,
            ) by {
                lemma_exact_conforms(items[i], elem);
            }
            assert(all_conform(items, elem));
        },
        Value::Tuple(items) => {
            let members = kind->Tuple_0;
            assert forall|i: int| 0 <= i < items.len() implies (#[trigger] items[i]).conforms(
                members[i],
            ) by {
                lemma_exact_conforms(items[i], members[i]);
            }
            assert(each_conforms(items, members));
        },
        _ => {},
    }
}

/// The bytes that the slot of a value of type `kind` takes in a head: one
/// word for a dynamic type and for the simple static types, whole words for
/// fixed bytes, and the slots of the elements or members for a static fixed
/// array or tuple.
pub open spec fn slot_width(kind: Kind) -> nat
    decreases kind,
{
    match kind {
        Kind::FixedBytes(len) => fixed_width(len),
        Kind::FixedArray(elem, len) => if elem.is_dynamic() {
            32
        } else {
            len * slot_width(*elem)
        },
        Kind::Tuple(members) => if any_dynamic(members) {
            32
        } else {
            slots_width(members)
        },
        _ => 32,
    }
}

/// The bytes that the slots of values of the types `kinds` take in a head.
pub open spec fn slots_width(kinds: Seq<Kind>) -> nat
    decreases kinds,
{
    if kinds.len() == 0 {
        0
    } else {
        slots_width(kinds.drop_last()) + slot_width(kinds.last())
    }
}

proof fn lemma_repeat_width(kind: Kind, count: nat)
    ensures
        slots_width(repeat(kind, count)) == count * slot_width(kind),
    decreases count,
{
    let width = slot_width(kind);
    if count > 0 {
        let less = (count - 1) as nat;
        let kinds = repeat(kind, count);
        lemma_repeat_width(kind, less);
        assert(kinds.drop_last() =~= repeat(kind, less));
        assert(kinds.last() == kind);
        assert(slots_width(kinds) == slots_width(kinds.drop_last()) + slot_width(kinds.last()));
        assert(less * width + width == count * width) by (nonlinear_arith)
            requires
                less + 1 == count,
        ;
    } else {
        assert(repeat(kind, count).len() == 0);
        assert(count * width == 0) by (nonlinear_arith)
            requires
                count == 0,
        ;
    }
}

/// A type that decodes at byte `at` has its slot within the region, and
/// the next slot starts right behind it.
pub proof fn lemma_slot_within(kind: Kind, region: Seq<u8>, at: nat)
    requires
        at <= region.len(),
        decode_kind(kind, region, at) is Some,
    ensures
        decode_kind(kind, region, at).unwrap().1 == at + slot_width(kind),
        at + slot_width(kind) <= region.len(),
    decreases rank(kind), 0nat,
{
    match kind {
        Kind::FixedArray(elem, len) => {
            if !elem.is_dynamic() {
                let kinds = repeat(*elem, len);
                lemma_rank_repeat(*elem, len);
                lemma_repeat_width(*elem, len);
                assert(decode_group(false, kinds, region, at) == decode_list(kinds, region, at));
                lemma_slots_within(kinds, region, at);
            }
        },
        Kind::Tuple(members) => {
            if !any_dynamic(members) {
                assert(decode_group(false, members, region, at) == decode_list(
                    members,
                    region,
                    at,
                ));
                lemma_slots_within(members, region, at);
            }
        },
        _ => {},
    }
}

/// Types that decode from byte `at` on have their slots within the region,
/// one value is found for each, and decoding ends right behind the slots.
pub proof fn lemma_slots_within(kinds: Seq<Kind>, region: Seq<u8>, at: nat)
    requires
        at <= region.len(),
        decode_list(kinds, region, at) is Some,
    ensures
        decode_list(kinds, region, at).unwrap().0.len() == kinds.len(),
        decode_list(kinds, region, at).unwrap().1 == at + slots_width(kinds),
        at + slots_width(kinds) <= region.len(),
    decreases list_rank(kinds), kinds.len(),
{
    if kinds.len() > 0 {
        let front = kinds.drop_last();
        lemma_slots_within(front, region, at);
        let next = decode_list(front, region, at).unwrap().1;
        lemma_slot_within(kinds.last(), region, next);
    }
}

/// A buffer shorter than the head of the types does not decode.
pub proof fn lemma_short_buffer_fails(kinds: Seq<Kind>, data: Seq<u8>)
    requires
        data.len() < slots_width(kinds),
    ensures
        decoding(kinds, data) is None,
{
    if decode_list(kinds, data, 0) is Some {
        lemma_slots_within(kinds, data, 0);
    }
}

/// A value that decodes for a type has the shape of the type.
pub proof fn lemma_decoded_conforms(kind: Kind, region: Seq<u8>, at: nat)
    requires
        decode_kind(kind, region, at) is Some,
    ensures
        decode_kind(kind, region, at).unwrap().0.conforms(kind),
    decreases rank(kind), 0nat,
{
    match kind {
        Kind::FixedBytes(len) => {
            assert(fixed_width(len) >= len);
        },
        Kind::Array(elem) => {
            let start = size_at(region, at)->0;
            let count = size_at(region, start)->0;
            let kinds = repeat(*elem, count);
            let inner = region.skip(start as int + 32);
            lemma_rank_repeat(*elem, count);
            lemma_all_decoded_conform(kinds, inner, 0);
            let items = decode_list(kinds, inner, 0).unwrap().0;
            assert forall|i: int| 0 <= i < items.len() implies (#[trigger] items[i]).conforms(
                *elem,
            ) by {
                assert(kinds[i] == *elem);
            }
            assert(all_conform(items, *elem));
        },
        Kind::FixedArray(elem, len) => {
            let kinds = repeat(*elem, len);
            lemma_rank_repeat(*elem, len);
            let items = decode_group(elem.is_dynamic(), kinds, region, at).unwrap().0;
            if elem.is_dynamic() {
                let start = size_at(region, at)->0;
                lemma_all_decoded_conform(kinds, region.skip(start as int), 0);
            } else {
                lemma_all_decoded_conform(kinds, region, at);
            }
            assert forall|i: int| 0 <= i < items.len() implies (#[trigger] items[i]).conforms(
                *elem,
            ) by {
                assert(kinds[i] == *elem);
            }
            assert(all_conform(items, *elem));
        },
        Kind::Tuple(members) => {
            if kind.is_dynamic() {
                let start = size_at(region, at)->0;
                lemma_all_decoded_conform(members, region.skip(start as int), 0);
            } else {
                lemma_all_decoded_conform(members, region, at);
            }
        },
        _ => {},
    }
}

/// The values that decode for a sequence of types match the types one to
/// one.
pub proof fn lemma_all_decoded_conform(kinds: Seq<Kind>, region: Seq<u8>, at: nat)
    requires
        decode_list(kinds, region, at) is Some,
    ensures
        each_conforms(decode_list(kinds, region, at).unwrap().0, kinds),
    decreases list_rank(kinds), kinds.len(),
{
    if kinds.len() > 0 {
        let front = kinds.drop_last();
        lemma_all_decoded_conform(front, region, at);
        let items = decode_list(front, region, at).unwrap().0;
        let next = decode_list(front, region, at).unwrap().1;
        lemma_decoded_conforms(kinds.last(), region, next);
        let item = decode_kind(kinds.last(), region, next).unwrap().0;
        let all = decode_list(kinds, region, at).unwrap().0;
        assert(all == items.push(item));
        assert forall|i: int| 0 <= i < all.len() implies (#[trigger] all[i]).conforms(
            kinds[i],
        ) by {
            if i < items.len() {
                assert(all[i] == items[i]);
                assert(front[i] == kinds[i]);
            }
        }
    }
}

/// Whatever a buffer decodes to has the shape of the types asked for.
pub proof fn lemma_decoding_conforms(kinds: Seq<Kind>, data: Seq<u8>)
    requires
        decoding(kinds, data) is Some,
    ensures
        each_conforms(decoding(kinds, data)->0, kinds),
{
    lemma_all_decoded_conform(kinds, data, 0);
}

/// A size that is read from a buffer is read alike from a longer one.
proof fn lemma_size_extends(region: Seq<u8>, more: Seq<u8>, at: nat)
    requires
        size_at(region, at) is Some,
    ensures
        size_at(region + more, at) == size_at(region, at),
{
    assert(word_at(region + more, at) =~= word_at(region, at));
}

/// A byte string that is found in a buffer is found alike in a longer one.
proof fn lemma_bytes_extend(region: Seq<u8>, more: Seq<u8>, at: nat)
    requires
        bytes_behind(region, at) is Some,
    ensures
        bytes_behind(region + more, at) == bytes_behind(region, at),
{
    let start = size_at(region, at).unwrap();
    let len = size_at(region, start).unwrap();
    lemma_size_extends(region, more, at);
    lemma_size_extends(region, more, start);
    assert((region + more).subrange(start as int + 32, start as int + 32 + len)
        =~= region.subrange(start as int + 32, start as int + 32 + len));
}

/// A value that decodes from a buffer decodes alike from a longer one.
pub proof fn lemma_decode_extends(kind: Kind, region: Seq<u8>, more: Seq<u8>, at: nat)
    requires
        decode_kind(kind, region, at) is Some,
    ensures
        decode_kind(kind, region + more, at) == decode_kind(kind, region, at),
    decreases rank(kind), 0nat,
{
    let longer = region + more;
    match kind {
        Kind::Bool => {
            assert(word_at(longer, at) =~= word_at(region, at));
        },
        Kind::Address => {
            assert(word_at(longer, at) =~= word_at(region, at));
        },
        Kind::Uint(_) => {
            assert(word_at(longer, at) =~= word_at(region, at));
        },
        Kind::Int(_) => {
            assert(word_at(longer, at) =~= word_at(region, at));
        },
        Kind::FixedBytes(len) => {
            assert(fixed_width(len) >= len);
            assert(longer.subrange(at as int, at as int + len) =~= region.subrange(
                at as int,
                at as int + len,
            ));
        },
        Kind::Bytes => {
            lemma_bytes_extend(region, more, at);
        },
        Kind::String => {
            lemma_bytes_extend(region, more, at);
        },
        Kind::Array(elem) => {
            let start = size_at(region, at).unwrap();
            let count = size_at(region, start).unwrap();
            lemma_size_extends(region, more, at);
            lemma_size_extends(region, more, start);
            lemma_rank_repeat(*elem, count);
            assert(longer.skip(start as int + 32) =~= region.skip(start as int + 32) + more);
            lemma_decode_list_extends(
                repeat(*elem, count),
                region.skip(start as int + 32),
                more,
                0,
            );
        },
        Kind::FixedArray(elem, len) => {
            lemma_rank_repeat(*elem, len);
            lemma_group_extends(elem.is_dynamic(), repeat(*elem, len), region, more, at);
        },
        Kind::Tuple(members) => {
            lemma_group_extends(kind.is_dynamic(), members, region, more, at);
        },
    }
}

/// The members of a fixed array or tuple that decode from a buffer decode
/// alike from a longer one.
proof fn lemma_group_extends(
    dynamic: bool,
    kinds: Seq<Kind>,
    region: Seq<u8>,
    more: Seq<u8>,
    at: nat,
)
    requires
        decode_group(dynamic, kinds, region, at) is Some,
    ensures
        decode_group(dynamic, kinds, region + more, at) == decode_group(dynamic, kinds, region, at),
    decreases list_rank(kinds), kinds.len() + 1,
{
    if dynamic {
        let start = size_at(region, at).unwrap();
        lemma_size_extends(region, more, at);
        assert((region + more).skip(start as int) =~= region.skip(start as int) + more);
        lemma_decode_list_extends(kinds, region.skip(start as int), more, 0);
    } else {
        lemma_decode_list_extends(kinds, region, more, at);
    }
}

/// Values that decode from a buffer decode alike from a longer one.
pub proof fn lemma_decode_list_extends(
    kinds: Seq<Kind>,
    region: Seq<u8>,
    more: Seq<u8>,
    at: nat,
)
    requires
        decode_list(kinds, region, at) is Some,
    ensures
        decode_list(kinds, region + more, at) == decode_list(kinds, region, at),
    decreases list_rank(kinds), kinds.len(),
{
    if kinds.len() > 0 {
        let front = kinds.drop_last();
        lemma_decode_list_extends(front, region, more, at);
        let next = decode_list(front, region, at).unwrap().1;
        lemma_decode_extends(kinds.last(), region, more, next);
    }
}

/// A buffer cut short never decodes to anything but what the whole buffer
/// decodes to: where the first `len` bytes of `data` decode, all of `data`
/// decodes to the same values.
pub proof fn lemma_cut_short(kinds: Seq<Kind>, data: Seq<u8>, len: int)
    requires
        0 <= len <= data.len(),
        decoding(kinds, data.take(len)) is Some,
    ensures
        decoding(kinds, data) == decoding(kinds, data.take(len)),
{
    assert(data =~= data.take(len) + data.skip(len));
    lemma_decode_list_extends(kinds, data.take(len), data.skip(len), 0);
}

} // verus!
