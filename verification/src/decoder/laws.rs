//! Properties of decoding that hold for all inputs, proved over the spec
//! functions that the decoder's contracts use.
use vstd::prelude::*;

use super::model::{
    after_field, config_valid, consume_padding, dec_fields, dec_prim, dec_seq, dec_seq_elems,
    dec_type, format_annotation, frame_of, frames_of, length_field, packet_fields, packet_step,
    prepare, read_bytes, spec_decode, spec_decode_packet, u8s_of, uint_value, ErrorModel,
    FrameModel, split_dot, lemma_split_dot_len, sub_module, travel, travel_module,
    dec_array_elems, dec_type_name, find_struct, find_in, extract_frames, full_budget, next_budget, direct_struct, decode_content,
    utf16_bytes, utf16_units, StringEncoding, key_id, key_len, key_payload, PacketModel,
};
use super::value::{key_index, lemma_key_index, lookup, map_insert, ValueModel};
use super::DecoderConfig;
use crate::ast::{ContentModel, FieldModel, ModuleModel, StructModel, TypeModel};
use crate::text::{utf16_decode, utf16_encode};

verus! {

// ---------------------------------------------------------------------------
// Decoded struct fields behave as a map
// ---------------------------------------------------------------------------

/// Whether no key occurs twice among the entries.
pub open spec fn keys_distinct<V>(e: Seq<(Seq<char>, V)>) -> bool {
    forall|i: int, j: int| 0 <= i < j < e.len() ==> e[i].0 != e[j].0
}

/// The keys of the entries.
pub open spec fn keys_of<V>(e: Seq<(Seq<char>, V)>) -> Set<Seq<char>> {
    Set::new(|k: Seq<char>| exists|i: int| 0 <= i < e.len() && e[i].0 == k)
}

/// Binding a key and then reading it gives the bound value; every other
/// key keeps its value; and no key comes to occur twice.
pub proof fn law_insert_then_lookup<V>(e: Seq<(Seq<char>, V)>, k: Seq<char>, v: V, other: Seq<char>)
    ensures
        lookup(map_insert(e, k, v), k) == Some(v),
        other != k ==> lookup(map_insert(e, k, v), other) == lookup(e, other),
        keys_distinct(e) ==> keys_distinct(map_insert(e, k, v)),
        keys_of(map_insert(e, k, v)) == keys_of(e).insert(k),
{
    let r = map_insert(e, k, v);
    lemma_key_index(e, k, 0);
    lemma_key_index(e, other, 0);
    lemma_key_index(r, k, 0);
    lemma_key_index(r, other, 0);
    match key_index(e, k, 0) {
        Some(i) => {
            assert(r.len() == e.len());
            assert(r[i] == (k, v));
            assert(forall|j: int| 0 <= j < r.len() && j != i ==> r[j] == e[j]);
            assert(key_index(r, k, 0) == Some(i)) by {
                assert(forall|j: int| 0 <= j < i ==> r[j].0 != k);
                lemma_key_index_first(r, k, i);
            }
            if other != k {
                assert(forall|j: int| 0 <= j < r.len() ==> (r[j].0 == other <==> e[j].0 == other));
                lemma_key_index_same(e, r, other, 0);
                if let Some(j) = key_index(e, other, 0) {
                    assert(r[j] == e[j]);
                }
            }
            assert(keys_of(r) =~= keys_of(e).insert(k)) by {
                assert forall|kk: Seq<char>| keys_of(e).insert(k).contains(kk) implies keys_of(
                    r,
                ).contains(kk) by {
                    if kk == k {
                        assert(r[i].0 == kk);
                    } else {
                        let j = choose|j: int| 0 <= j < e.len() && e[j].0 == kk;
                        assert(r[j].0 == kk);
                    }
                }
                assert forall|kk: Seq<char>| keys_of(r).contains(kk) implies keys_of(e).insert(
                    k,
                ).contains(kk) by {
                    let j = choose|j: int| 0 <= j < r.len() && r[j].0 == kk;
                    if j != i {
                        assert(e[j].0 == kk);
                    }
                }
            }
        },
        None => {
            assert(r == e.push((k, v)));
            assert(r[e.len() as int] == (k, v));
            assert(forall|j: int| 0 <= j < e.len() ==> r[j] == e[j]);
            assert(key_index(r, k, 0) == Some(e.len() as int)) by {
                lemma_key_index_first(r, k, e.len() as int);
            }
            if other != k {
                assert(forall|j: int| 0 <= j < r.len() ==> (r[j].0 == other <==> (j < e.len()
                    && e[j].0 == other)));
                lemma_key_index_push(e, (k, v), other, 0);
                if let Some(j) = key_index(e, other, 0) {
                    assert(r[j] == e[j]);
                }
            }
            assert(keys_of(r) =~= keys_of(e).insert(k)) by {
                assert forall|kk: Seq<char>| keys_of(e).insert(k).contains(kk) implies keys_of(
                    r,
                ).contains(kk) by {
                    if kk == k {
                        assert(r[e.len() as int].0 == kk);
                    } else {
                        let j = choose|j: int| 0 <= j < e.len() && e[j].0 == kk;
                        assert(r[j].0 == kk);
                    }
                }
                assert forall|kk: Seq<char>| keys_of(r).contains(kk) implies keys_of(e).insert(
                    k,
                ).contains(kk) by {
                    let j = choose|j: int| 0 <= j < r.len() && r[j].0 == kk;
                    if j < e.len() {
                        assert(e[j].0 == kk);
                    }
                }
            }
        },
    }
}

proof fn lemma_key_index_first<V>(e: Seq<(Seq<char>, V)>, k: Seq<char>, i: int)
    requires
        0 <= i < e.len(),
        e[i].0 == k,
        forall|j: int| 0 <= j < i ==> e[j].0 != k,
    ensures
        key_index(e, k, 0) == Some(i),
{
    lemma_key_index_from(e, k, 0, i);
}

proof fn lemma_key_index_from<V>(e: Seq<(Seq<char>, V)>, k: Seq<char>, s: int, i: int)
    requires
        0 <= s <= i < e.len(),
        e[i].0 == k,
        forall|j: int| s <= j < i ==> e[j].0 != k,
    ensures
        key_index(e, k, s) == Some(i),
    decreases i - s,
{
    if s < i {
        lemma_key_index_from(e, k, s + 1, i);
    }
}

proof fn lemma_key_index_same<V>(e: Seq<(Seq<char>, V)>, r: Seq<(Seq<char>, V)>, k: Seq<char>, s: int)
    requires
        0 <= s,
        r.len() == e.len(),
        forall|j: int| 0 <= j < r.len() ==> (r[j].0 == k <==> e[j].0 == k),
        forall|j: int| 0 <= j < r.len() && e[j].0 == k ==> r[j] == e[j],
    ensures
        key_index(r, k, s) == key_index(e, k, s),
    decreases e.len() - s,
{
    if s < e.len() {
        lemma_key_index_same(e, r, k, s + 1);
    }
}

proof fn lemma_key_index_push<V>(e: Seq<(Seq<char>, V)>, x: (Seq<char>, V), k: Seq<char>, s: int)
    requires
        0 <= s,
        x.0 != k,
    ensures
        key_index(e.push(x), k, s) == key_index(e, k, s),
    decreases e.len() + 1 - s,
{
    if s <= e.len() {
        lemma_key_index_push(e, x, k, s + 1);
    }
}

// ---------------------------------------------------------------------------
// A decoded struct has one entry per field name
// ---------------------------------------------------------------------------

/// The names of `fields[i..]`.
pub open spec fn names_from(fields: Seq<FieldModel>, i: int) -> Set<Seq<char>> {
    Set::new(|n: Seq<char>| exists|j: int| i <= j < fields.len() && fields[j].name == n)
}

proof fn lemma_dec_fields_keys(
    c: DecoderConfig,
    m: ModuleModel,
    total: int,
    data: Seq<u8>,
    fields: Seq<FieldModel>,
    i: int,
    b: nat,
    acc: Seq<(Seq<char>, ValueModel)>,
)
    requires
        0 <= i <= fields.len(),
        keys_distinct(acc),
    ensures
        dec_fields(c, m, total, data, fields, i, b, acc) matches Ok((entries, _)) ==> keys_distinct(
            entries,
        ) && keys_of(entries) == keys_of(acc).union(names_from(fields, i)),
    decreases fields.len() - i,
{
    if i == fields.len() {
        assert(names_from(fields, i) =~= Set::empty());
        assert(keys_of(acc).union(names_from(fields, i)) =~= keys_of(acc));
    } else {
        let f = fields[i];
        match dec_type(c, m, total, data, f.field_type, b) {
            Ok((v, rest)) => match after_field(c, total, f.field_type, rest) {
                Ok(rest2) => if rest2.len() <= data.len() {
                    let acc2 = map_insert(acc, f.name, v);
                    law_insert_then_lookup(acc, f.name, v, f.name);
                    let nb = if rest2.len() < data.len() {
                        super::model::full_budget(m)
                    } else {
                        b
                    };
                    lemma_dec_fields_keys(c, m, total, rest2, fields, i + 1, nb, acc2);
                    assert(names_from(fields, i) =~= names_from(fields, i + 1).insert(f.name));
                    assert(keys_of(acc).union(names_from(fields, i)) =~= keys_of(acc2).union(
                        names_from(fields, i + 1),
                    ));
                },
                Err(_) => {},
            },
            Err(_) => {},
        }
    }
}

/// A successful decode has exactly one entry for each distinct field name
/// of the struct that the schema id names, and no key twice.
pub proof fn law_decoded_keys_are_field_names(
    c: DecoderConfig,
    m: ModuleModel,
    id: Seq<char>,
    data: Seq<u8>,
)
    ensures
        spec_decode(c, m, id, data) matches Ok(entries) ==> {
            &&& keys_distinct(entries)
            &&& super::model::travel_module(m, id) matches Ok(st)
            &&& keys_of(entries) == names_from(st.fields, 0)
        },
{
    match prepare(c, data) {
        Ok(d) => match super::model::travel_module(m, id) {
            Ok(st) => {
                let acc = Seq::<(Seq<char>, ValueModel)>::empty();
                lemma_dec_fields_keys(
                    c,
                    m,
                    data.len() as int,
                    d,
                    st.fields,
                    0,
                    super::model::full_budget(m),
                    acc,
                );
                assert(keys_of(acc) =~= Set::empty());
                assert(keys_of(acc).union(names_from(st.fields, 0)) =~= names_from(st.fields, 0));
            },
            Err(_) => {},
        },
        Err(_) => {},
    }
}

/// Whether no two of the fields share a name.
pub open spec fn names_distinct(fields: Seq<FieldModel>) -> bool {
    forall|i: int, j: int| 0 <= i < j < fields.len() ==> fields[i].name != fields[j].name
}

/// The keys of the entries, in order.
pub open spec fn key_list<V>(e: Seq<(Seq<char>, V)>) -> Seq<Seq<char>> {
    e.map_values(|x: (Seq<char>, V)| x.0)
}

/// The names of the fields, in order.
pub open spec fn name_list(fields: Seq<FieldModel>) -> Seq<Seq<char>> {
    fields.map_values(|f: FieldModel| f.name)
}

proof fn lemma_dec_fields_order(
    c: DecoderConfig,
    m: ModuleModel,
    total: int,
    data: Seq<u8>,
    fields: Seq<FieldModel>,
    i: int,
    b: nat,
    acc: Seq<(Seq<char>, ValueModel)>,
)
    requires
        0 <= i <= fields.len(),
        names_distinct(fields),
        key_list(acc) == name_list(fields).take(i),
    ensures
        dec_fields(c, m, total, data, fields, i, b, acc) matches Ok((entries, _)) ==> key_list(
            entries,
        ) == name_list(fields),
    decreases fields.len() - i,
{
    if i == fields.len() {
        assert(name_list(fields).take(i) =~= name_list(fields));
    } else {
        let f = fields[i];
        match dec_type(c, m, total, data, f.field_type, b) {
            Ok((v, rest)) => match after_field(c, total, f.field_type, rest) {
                Ok(rest2) => if rest2.len() <= data.len() {
                    lemma_key_index(acc, f.name, 0);
                    assert(key_list(acc).len() == acc.len());
                    assert(acc.len() == i);
                    assert forall|j: int| 0 <= j < acc.len() implies acc[j].0 != f.name by {
                        assert(key_list(acc)[j] == acc[j].0);
                        assert(name_list(fields).take(i)[j] == fields[j].name);
                    }
                    assert(key_index(acc, f.name, 0) is None);
                    let acc2 = map_insert(acc, f.name, v);
                    assert(acc2 == acc.push((f.name, v)));
                    assert(key_list(acc2) =~= name_list(fields).take(i + 1));
                    let nb = if rest2.len() < data.len() {
                        super::model::full_budget(m)
                    } else {
                        b
                    };
                    lemma_dec_fields_order(c, m, total, rest2, fields, i + 1, nb, acc2);
                },
                Err(_) => {},
            },
            Err(_) => {},
        }
    }
}

/// Fields are decoded in declaration order: when the struct's field names
/// are distinct, the entries of a successful decode are its fields, in the
/// order in which the struct declares them.
pub proof fn law_decoded_in_declaration_order(
    c: DecoderConfig,
    m: ModuleModel,
    id: Seq<char>,
    data: Seq<u8>,
)
    ensures
        ({
            &&& spec_decode(c, m, id, data) matches Ok(entries)
            &&& super::model::travel_module(m, id) matches Ok(st)
            &&& names_distinct(st.fields)
        }) ==> key_list(spec_decode(c, m, id, data)->Ok_0) == name_list(
            super::model::travel_module(m, id)->Ok_0.fields,
        ),
{
    match prepare(c, data) {
        Ok(d) => match super::model::travel_module(m, id) {
            Ok(st) => {
                if names_distinct(st.fields) {
                    let acc = Seq::<(Seq<char>, ValueModel)>::empty();
                    assert(key_list(acc) =~= name_list(st.fields).take(0));
                    lemma_dec_fields_order(
                        c,
                        m,
                        data.len() as int,
                        d,
                        st.fields,
                        0,
                        super::model::full_budget(m),
                        acc,
                    );
                }
            },
            Err(_) => {},
        },
        Err(_) => {},
    }
}

// ---------------------------------------------------------------------------
// Byte order
// ---------------------------------------------------------------------------

/// Reading bytes least significant first gives the value that reading them
/// in reverse order most significant first gives.
pub proof fn law_little_endian_is_reversed_big_endian(b: Seq<u8>)
    ensures
        uint_value(true, b.reverse()) == uint_value(false, b),
    decreases b.len(),
{
    if b.len() > 0 {
        law_little_endian_is_reversed_big_endian(b.drop_last());
        assert(b.reverse().drop_first() =~= b.drop_last().reverse());
        assert(b.reverse()[0] == b.last());
    } else {
        assert(b.reverse().len() == 0);
    }
}

/// The input with its first `n` bytes in reverse order.
pub open spec fn reverse_front(data: Seq<u8>, n: int) -> Seq<u8> {
    data.take(n).reverse() + data.skip(n)
}

/// A primitive value read little-endian from bytes whose order was reversed
/// is the value read big-endian from the unreversed bytes, with the same
/// bytes left over.
pub proof fn law_primitive_byte_order(
    big: DecoderConfig,
    little: DecoderConfig,
    data: Seq<u8>,
    t: TypeModel,
)
    requires
        !big.is_little_endian,
        little.is_little_endian,
        data.len() >= super::model::prim_width(t),
        t != TypeModel::Octet,
        t != TypeModel::Boolean,
    ensures
        dec_prim(little, reverse_front(data, super::model::prim_width(t) as int), t) == dec_prim(
            big,
            data,
            t,
        ),
{
    let w = super::model::prim_width(t) as int;
    let r = reverse_front(data, w);
    assert(r.take(w) =~= data.take(w).reverse());
    assert(r.skip(w) =~= data.skip(w));
    law_little_endian_is_reversed_big_endian(data.take(w));
}

/// A length prefix is the unsigned number its bytes spell in the configured
/// byte order: read big-endian it is the bytes' value most significant
/// first, and read little-endian from the reversed bytes it is the same
/// number, with the same bytes left over.
pub proof fn law_length_prefix_byte_order(big: DecoderConfig, little: DecoderConfig, data: Seq<u8>)
    requires
        !big.is_little_endian,
        little.is_little_endian,
        big.length_field_length == little.length_field_length,
        super::model::valid_length_field_length(big.length_field_length),
        data.len() >= big.length_field_length,
    ensures
        length_field(big, data) == Ok::<(nat, Seq<u8>), ErrorModel>(
            (
                super::model::be_value(data.take(big.length_field_length as int)),
                data.skip(big.length_field_length as int),
            ),
        ),
        length_field(little, reverse_front(data, big.length_field_length as int)) == length_field(
            big,
            data,
        ),
{
    let w = big.length_field_length as int;
    let r = reverse_front(data, w);
    assert(r.take(w) =~= data.take(w).reverse());
    assert(r.skip(w) =~= data.skip(w));
    law_little_endian_is_reversed_big_endian(data.take(w));
}

// ---------------------------------------------------------------------------
// Octet sequences are raw bytes
// ---------------------------------------------------------------------------

/// `U8` values for the bytes of `d`.
pub open spec fn octets(d: Seq<u8>) -> Seq<ValueModel> {
    Seq::new(d.len(), |i: int| ValueModel::U8(d[i]))
}

proof fn lemma_u8s_of_append(vs: Seq<ValueModel>, d: Seq<u8>)
    ensures
        u8s_of(vs + octets(d)) == u8s_of(vs) + d,
    decreases d.len(),
{
    if d.len() == 0 {
        assert(vs + octets(d) =~= vs);
        assert(u8s_of(vs) + d =~= u8s_of(vs));
    } else {
        let d0 = d.drop_last();
        lemma_u8s_of_append(vs, d0);
        assert((vs + octets(d)).drop_last() =~= vs + octets(d0));
        assert((vs + octets(d)).last() == ValueModel::U8(d.last()));
        assert(u8s_of(vs) + d =~= (u8s_of(vs) + d0) + seq![d.last()]);
    }
}

proof fn lemma_octet_elems(
    c: DecoderConfig,
    m: ModuleModel,
    total: int,
    d: Seq<u8>,
    acc: Seq<ValueModel>,
)
    ensures
        dec_seq_elems(c, m, total, d, TypeModel::Octet, acc) == Ok::<Seq<ValueModel>, ErrorModel>(
            acc + octets(d),
        ),
    decreases d.len(),
{
    if d.len() == 0 {
        assert(acc + octets(d) =~= acc);
    } else {
        let b = super::model::full_budget(m);
        assert(read_bytes(d, 1) == Ok::<(Seq<u8>, Seq<u8>), ErrorModel>((d.take(1), d.skip(1))));
        assert(dec_type(c, m, total, d, TypeModel::Octet, b) == Ok::<
            (ValueModel, Seq<u8>),
            ErrorModel,
        >((ValueModel::U8(d[0]), d.skip(1))));
        lemma_octet_elems(c, m, total, d.skip(1), acc.push(ValueModel::U8(d[0])));
        assert(acc.push(ValueModel::U8(d[0])) + octets(d.skip(1)) =~= acc + octets(d));
    }
}

/// A `sequence<octet>` decodes to exactly the bytes that its length prefix
/// announces, as raw bytes, and leaves the input after them.
pub proof fn law_octet_sequence_is_raw_bytes(
    c: DecoderConfig,
    m: ModuleModel,
    total: int,
    data: Seq<u8>,
)
    requires
        config_valid(c),
    ensures
        dec_seq(c, m, total, data, TypeModel::Octet) == match length_field(c, data) {
            Ok((n, rem)) => if rem.len() < n {
                Err(ErrorModel::UnexpectedEndOfInput { expected: n as int, got: rem.len() as int })
            } else {
                Ok((ValueModel::Bytes(rem.take(n as int)), rem.skip(n as int)))
            },
            Err(e) => Err(e),
        },
{
    match length_field(c, data) {
        Ok((n, rem)) => {
            if rem.len() >= n {
                let d = rem.take(n as int);
                lemma_octet_elems(c, m, total, d, Seq::empty());
                lemma_u8s_of_append(Seq::empty(), d);
                assert(Seq::<ValueModel>::empty() + octets(d) =~= octets(d));
                assert(Seq::<u8>::empty() + d =~= d);
            }
        },
        Err(_) => {},
    }
}

// ---------------------------------------------------------------------------
// Padding
// ---------------------------------------------------------------------------

/// After padding, the bytes consumed from the start of the input are a
/// multiple of the padding length, and fewer than that many bytes were
/// skipped.
pub proof fn law_padding_aligns(c: DecoderConfig, total: int, data: Seq<u8>)
    requires
        config_valid(c),
        data.len() <= total,
    ensures
        consume_padding(c, total, data) matches Ok(rest) ==> (total - rest.len()) % (
        c.padding_length as int) == 0 && data.len() - (c.padding_length as int) < rest.len()
            <= data.len() && rest == data.skip(data.len() - rest.len()),
{
    let p = c.padding_length as int;
    let consumed = total - data.len();
    let rem = consumed % p;
    let q = consumed / p;
    vstd::arithmetic::div_mod::lemma_fundamental_div_mod(consumed, p);
    if rem != 0 {
        let need = p - rem;
        if need <= data.len() {
            assert(consumed + need == (q + 1) * p) by (nonlinear_arith)
                requires
                    consumed == p * q + rem,
                    need == p - rem,
            ;
            vstd::arithmetic::div_mod::lemma_mod_multiples_basic(q + 1, p);
            assert(data.skip(need).len() == data.len() - need);
            assert(data.skip(data.len() - data.skip(need).len()) =~= data.skip(need));
        }
    } else {
        assert(data.skip(0) =~= data);
    }
}

/// Padding is idempotent: the rest that padding leaves is aligned, so
/// padding it again skips nothing.
pub proof fn law_padding_is_idempotent(c: DecoderConfig, total: int, data: Seq<u8>)
    requires
        config_valid(c),
        data.len() <= total,
    ensures
        consume_padding(c, total, data) matches Ok(rest) ==> consume_padding(c, total, rest)
            == Ok::<Seq<u8>, ErrorModel>(rest),
{
    law_padding_aligns(c, total, data);
}

// ---------------------------------------------------------------------------
// Schema ids
// ---------------------------------------------------------------------------

proof fn lemma_split_dot_no_dot(s: Seq<char>)
    requires
        !s.contains('.'),
    ensures
        split_dot(s) == seq![s],
    decreases s.len(),
{
    if s.len() > 0 {
        assert(!s.drop_last().contains('.')) by {
            if s.drop_last().contains('.') {
                let k = choose|k: int| 0 <= k < s.drop_last().len() && s.drop_last()[k] == '.';
                assert(s[k] == '.');
            }
        }
        lemma_split_dot_no_dot(s.drop_last());
        assert(s[s.len() - 1] != '.');
        assert(s.drop_last().push(s.last()) =~= s);
    } else {
        assert(s =~= Seq::<char>::empty());
    }
}

proof fn lemma_split_dot_concat(a: Seq<char>, b: Seq<char>)
    ensures
        split_dot(a + seq!['.'] + b) == split_dot(a) + split_dot(b),
    decreases b.len(),
{
    let s = a + seq!['.'] + b;
    lemma_split_dot_len(a);
    lemma_split_dot_len(b);
    if b.len() == 0 {
        assert(s.drop_last() =~= a);
        assert(split_dot(b) =~= seq![Seq::<char>::empty()]);
        assert(split_dot(a).push(Seq::empty()) =~= split_dot(a) + split_dot(b));
    } else {
        assert(s.drop_last() =~= a + seq!['.'] + b.drop_last());
        lemma_split_dot_concat(a, b.drop_last());
        lemma_split_dot_len(b.drop_last());
        let pa = split_dot(a);
        let pb = split_dot(b.drop_last());
        let prev = pa + pb;
        assert(s.last() == b.last());
        if b.last() == '.' {
            assert(prev.push(Seq::empty()) =~= pa + pb.push(Seq::empty()));
        } else {
            assert(prev.last() == pb.last());
            assert(prev.update(prev.len() - 1, prev.last().push(s.last())) =~= pa + pb.update(
                pb.len() - 1,
                pb.last().push(b.last()),
            ));
        }
    }
}

proof fn lemma_travel_shift(x: Seq<Seq<char>>, parts: Seq<Seq<char>>, k: int, m: ModuleModel)
    requires
        0 <= k < parts.len(),
    ensures
        travel(x + parts, k + x.len(), m) == travel(parts, k, m),
    decreases parts.len() - k,
{
    let all = x + parts;
    assert(all[k + x.len()] == parts[k]);
    if k < parts.len() - 1 {
        match sub_module(m.content, parts[k], 0) {
            Some(sub) => {
                lemma_travel_shift(x, parts, k + 1, sub);
            },
            None => {},
        }
    }
}

/// A leading segment that names the root module may be left out of a schema
/// id: `root.path` finds what `path` finds (or fails with the same message),
/// unless `path` itself has several segments and starts with the root's
/// name, where the first segment is then read as the root again.
pub proof fn law_leading_root_segment_is_optional(m: ModuleModel, path: Seq<char>)
    requires
        !m.name.contains('.'),
        split_dot(path).len() == 1 || split_dot(path)[0] != m.name,
    ensures
        travel_module(m, m.name + seq!['.'] + path) == travel_module(m, path),
{
    lemma_split_dot_no_dot(m.name);
    lemma_split_dot_concat(m.name, path);
    lemma_split_dot_len(path);
    let ps = split_dot(path);
    let all = split_dot(m.name + seq!['.'] + path);
    assert(all == seq![m.name] + ps);
    assert(all.len() >= 2);
    assert(all[0] == m.name);
    if ps.len() == 1 {
        assert(all[1] == ps[0]);
    } else {
        lemma_travel_shift(seq![m.name], ps, 0, m);
    }
}

// ---------------------------------------------------------------------------
// UTF-16
// ---------------------------------------------------------------------------

proof fn lemma_units_of_bytes(u: Seq<u16>, big_endian: bool)
    ensures
        utf16_units(utf16_bytes(u, big_endian), big_endian) == u,
{
    let d = utf16_bytes(u, big_endian);
    let w = utf16_units(d, big_endian);
    assert forall|i: int| 0 <= i < u.len() implies w[i] == u[i] by {
        let x = u[i] as int;
        assert((2 * i) / 2 == i && (2 * i + 1) / 2 == i);
        assert((2 * i) % 2 == 0 && (2 * i + 1) % 2 == 1);
        vstd::arithmetic::div_mod::lemma_fundamental_div_mod(x, 256);
        assert(0 <= x / 256 < 256 && 0 <= x % 256 < 256) by {
            vstd::arithmetic::div_mod::lemma_div_pos_is_pos(x, 256);
            vstd::arithmetic::div_mod::lemma_div_is_ordered(x, 65535, 256);
        }
        assert(d[2 * i] as int == if big_endian { x / 256 } else { x % 256 });
        assert(d[2 * i + 1] as int == if big_endian { x % 256 } else { x / 256 });
    }
    assert(w =~= u);
}

proof fn lemma_decode_encode(s: Seq<char>)
    ensures
        utf16_decode(utf16_encode(s)) == Some(s),
    decreases s.len(),
{
    if s.len() > 0 {
        let c = s[0] as int;
        let rest = utf16_encode(s.drop_first());
        let u = utf16_encode(s);
        lemma_decode_encode(s.drop_first());
        vstd::utf8::char_is_scalar(s[0]);
        vstd::utf8::char_u32_cast(s[0], s[0] as u32);
        assert(c == (s[0] as u32) as int);
        assert(0 <= c <= 0x10FFFF);
        assert(c < 0xD800 || c >= 0xE000);
        if c < 0x10000 {
            assert((c as u16) as int == c);
            assert(u =~= seq![c as u16] + rest);
            assert(u.drop_first() =~= rest);
            assert(u[0] as int == c);
            assert((u[0] as char) == s[0]);
        } else {
            let v = c - 0x10000;
            vstd::arithmetic::div_mod::lemma_fundamental_div_mod(v, 0x400);
            assert(0 <= v / 0x400 < 0x400 && 0 <= v % 0x400 < 0x400) by {
                vstd::arithmetic::div_mod::lemma_div_pos_is_pos(v, 0x400);
                vstd::arithmetic::div_mod::lemma_div_is_ordered(v, 0xFFFFF, 0x400);
            }
            let hi = (0xD800 + v / 0x400) as u16;
            let lo = (0xDC00 + v % 0x400) as u16;
            assert(u =~= seq![hi, lo] + rest);
            assert(u.skip(2) =~= rest);
            let cp: int = 0x10000 + (u[0] - 0xD800) * 0x400 + (u[1] - 0xDC00);
            assert(cp == c);
            assert((cp as char) == s[0]);
        }
        assert(seq![s[0]] + s.drop_first() =~= s);
    }
}

/// UTF-16 text round-trips: the bytes of a text's UTF-16 code units, in
/// either byte order, decode to the text again.
pub proof fn law_utf16_round_trip(s: Seq<char>, big_endian: bool)
    ensures
        utf16_units(utf16_bytes(utf16_encode(s), big_endian), big_endian) == utf16_encode(s),
        utf16_decode(utf16_encode(s)) == Some(s),
        decode_content(
            utf16_bytes(utf16_encode(s), big_endian),
            if big_endian {
                StringEncoding::Utf16Be
            } else {
                StringEncoding::Utf16Le
            },
        ) == Ok::<Seq<char>, ErrorModel>(s),
{
    lemma_units_of_bytes(utf16_encode(s), big_endian);
    lemma_decode_encode(s);
    assert(utf16_bytes(utf16_encode(s), big_endian).len() % 2 == 0);
}

/// The module reached from `m` in `k` steps along `parts[idx..]`: the
/// first sub-module named `parts[idx]`, inside it the first sub-module
/// named `parts[idx + 1]`, and so on; `None` once a step finds no such
/// sub-module.
pub open spec fn module_at(parts: Seq<Seq<char>>, idx: int, m: ModuleModel, k: nat) -> Option<
    ModuleModel,
>
    decreases k,
{
    if k == 0 {
        Some(m)
    } else {
        match module_at(parts, idx, m, (k - 1) as nat) {
            Some(x) => sub_module(x.content, parts[idx + k - 1], 0),
            None => None,
        }
    }
}

proof fn lemma_module_at_first_step(parts: Seq<Seq<char>>, idx: int, m: ModuleModel, k: nat)
    ensures
        module_at(parts, idx, m, k + 1) == match sub_module(m.content, parts[idx], 0) {
            Some(sub) => module_at(parts, idx + 1, sub, k),
            None => None,
        },
    decreases k,
{
    let k1 = (k + 1) as nat;
    assert(((k1 - 1) as nat) == k);
    assert(module_at(parts, idx, m, k1) == match module_at(parts, idx, m, k) {
        Some(x) => sub_module(x.content, parts[idx + k], 0),
        None => None,
    });
    if k > 0 {
        lemma_module_at_first_step(parts, idx, m, (k - 1) as nat);
        assert((((k - 1) as nat) + 1) as nat == k);
        if let Some(sub) = sub_module(m.content, parts[idx], 0) {
            assert(module_at(parts, idx + 1, sub, k) == match module_at(
                parts,
                idx + 1,
                sub,
                (k - 1) as nat,
            ) {
                Some(x) => sub_module(x.content, parts[idx + 1 + k - 1], 0),
                None => None,
            });
        }
    } else {
        assert(module_at(parts, idx, m, 0) == Some(m));
    }
}

proof fn lemma_travel_steps(parts: Seq<Seq<char>>, idx: int, m: ModuleModel)
    requires
        0 <= idx < parts.len(),
    ensures
        ({
            let target = match module_at(parts, idx, m, (parts.len() - 1 - idx) as nat) {
                Some(x) => direct_struct(x.content, parts[parts.len() - 1], 0),
                None => None,
            };
            &&& (travel(parts, idx, m) is Ok) == (target is Some)
            &&& travel(parts, idx, m) matches Ok(s) ==> target == Some(s)
        }),
    decreases parts.len() - idx,
{
    if idx < parts.len() - 1 {
        lemma_module_at_first_step(parts, idx, m, (parts.len() - 2 - idx) as nat);
        if let Some(sub) = sub_module(m.content, parts[idx], 0) {
            lemma_travel_steps(parts, idx + 1, sub);
        }
    }
}

/// A dotted schema path is followed segment by segment: the path
/// `parts[idx..]` names a struct exactly when stepping from `m` into the
/// first sub-module named by each segment but the last reaches a module
/// that directly holds a struct named by the last segment, and then it
/// names that struct.
pub proof fn law_schema_path_steps_through_every_module(
    parts: Seq<Seq<char>>,
    idx: int,
    m: ModuleModel,
)
    requires
        0 <= idx < parts.len(),
    ensures
        (travel(parts, idx, m) is Ok) == (module_at(parts, idx, m, (parts.len() - 1 - idx) as nat)
            matches Some(x) && direct_struct(x.content, parts[parts.len() - 1], 0) is Some),
        travel(parts, idx, m) matches Ok(s) ==> module_at(
            parts,
            idx,
            m,
            (parts.len() - 1 - idx) as nat,
        ) matches Some(x) && direct_struct(x.content, parts[parts.len() - 1], 0) == Some(s),
{
    lemma_travel_steps(parts, idx, m);
}

// ---------------------------------------------------------------------------
// Struct lookup by type name
// ---------------------------------------------------------------------------

/// Every struct definition of the module tree in depth-first pre-order: the
/// module's contents in declaration order, each sub-module's structs where
/// the sub-module stands.
pub open spec fn all_structs(m: ModuleModel) -> Seq<StructModel>
    decreases m, 0int,
{
    structs_from(m.content, 0)
}

/// The structs of the contents `cs[i..]`, in depth-first pre-order.
pub open spec fn structs_from(cs: Seq<ContentModel>, i: int) -> Seq<StructModel>
    decreases cs, cs.len() - i,
{
    if i < 0 || i >= cs.len() {
        Seq::empty()
    } else {
        let here = match cs[i] {
            ContentModel::Struct(s) => seq![s],
            ContentModel::Module(b) => all_structs(*b),
            ContentModel::BitSet(_) => Seq::empty(),
        };
        here + structs_from(cs, i + 1)
    }
}

/// The first struct in `ss` named `n`.
pub open spec fn first_named(ss: Seq<StructModel>, n: Seq<char>) -> Option<StructModel>
    decreases ss.len(),
{
    if ss.len() == 0 {
        None
    } else if ss[0].name == n {
        Some(ss[0])
    } else {
        first_named(ss.drop_first(), n)
    }
}

proof fn lemma_first_named_concat(a: Seq<StructModel>, b: Seq<StructModel>, n: Seq<char>)
    ensures
        first_named(a + b, n) == match first_named(a, n) {
            Some(s) => Some(s),
            None => first_named(b, n),
        },
    decreases a.len(),
{
    if a.len() > 0 {
        assert((a + b).drop_first() =~= a.drop_first() + b);
        lemma_first_named_concat(a.drop_first(), b, n);
    } else {
        assert(a + b =~= b);
    }
}

proof fn lemma_first_named_exists(ss: Seq<StructModel>, n: Seq<char>)
    ensures
        first_named(ss, n) is Some <==> exists|k: int| 0 <= k < ss.len() && ss[k].name == n,
        first_named(ss, n) matches Some(s) ==> s.name == n && exists|k: int|
            0 <= k < ss.len() && ss[k] == s && forall|j: int| 0 <= j < k ==> ss[j].name != n,
    decreases ss.len(),
{
    if ss.len() > 0 {
        lemma_first_named_exists(ss.drop_first(), n);
        if ss[0].name == n {
            assert(forall|j: int| 0 <= j < 0 ==> ss[j].name != n);
        } else {
            if exists|k: int| 0 <= k < ss.len() && ss[k].name == n {
                let k = choose|k: int| 0 <= k < ss.len() && ss[k].name == n;
                assert(ss.drop_first()[k - 1].name == n);
            }
            if let Some(s) = first_named(ss, n) {
                let k = choose|k: int|
                    0 <= k < ss.drop_first().len() && ss.drop_first()[k] == s && forall|j: int|
                        0 <= j < k ==> ss.drop_first()[j].name != n;
                assert(ss[k + 1] == s);
                assert forall|j: int| 0 <= j < k + 1 implies ss[j].name != n by {
                    if j > 0 {
                        assert(ss[j] == ss.drop_first()[j - 1]);
                    }
                }
            }
        }
    }
}

proof fn lemma_find_struct_pre_order(m: ModuleModel, n: Seq<char>)
    ensures
        find_struct(m, n) == first_named(all_structs(m), n),
    decreases m, 0int,
{
    lemma_find_in_pre_order(m.content, 0, n);
}

proof fn lemma_find_in_pre_order(cs: Seq<ContentModel>, i: int, n: Seq<char>)
    ensures
        find_in(cs, i, n) == first_named(structs_from(cs, i), n),
    decreases cs, cs.len() - i,
{
    if 0 <= i < cs.len() {
        lemma_find_in_pre_order(cs, i + 1, n);
        let rest = structs_from(cs, i + 1);
        match cs[i] {
            ContentModel::Struct(s) => {
                lemma_first_named_concat(seq![s], rest, n);
                assert(seq![s].drop_first() =~= Seq::<StructModel>::empty());
                assert(first_named(Seq::<StructModel>::empty(), n) is None);
                assert(structs_from(cs, i) == seq![s] + rest);
            },
            ContentModel::Module(b) => {
                assert(decreases_to!(cs => cs[i]));
                lemma_find_struct_pre_order(*b, n);
                lemma_first_named_concat(all_structs(*b), rest, n);
                assert(structs_from(cs, i) == all_structs(*b) + rest);
            },
            ContentModel::BitSet(_) => {
                assert(Seq::<StructModel>::empty() + rest =~= rest);
            },
        }
    } else {
        assert(first_named(Seq::<StructModel>::empty(), n) is None);
    }
}

/// A type name is looked up in the whole module tree, at any depth: it
/// resolves exactly when some struct of that name occurs in the tree, and
/// then to the first such struct in depth-first pre-order.
pub proof fn law_type_names_resolve_depth_first(m: ModuleModel, n: Seq<char>)
    ensures
        find_struct(m, n) == first_named(all_structs(m), n),
        find_struct(m, n) is Some <==> exists|k: int|
            0 <= k < all_structs(m).len() && all_structs(m)[k].name == n,
        find_struct(m, n) matches Some(s) ==> s.name == n && exists|k: int|
            0 <= k < all_structs(m).len() && all_structs(m)[k] == s && forall|j: int|
                0 <= j < k ==> all_structs(m)[j].name != n,
{
    lemma_find_struct_pre_order(m, n);
    lemma_first_named_exists(all_structs(m), n);
}

// ---------------------------------------------------------------------------
// A valid configuration is never refused later
// ---------------------------------------------------------------------------

/// Whether `r` is not an `InvalidConfig` error.
pub open spec fn not_config_error<T>(r: Result<T, ErrorModel>) -> bool {
    !(r matches Err(ErrorModel::InvalidConfig(_)))
}

proof fn lemma_array_elems_no_config(
    c: DecoderConfig,
    m: ModuleModel,
    total: int,
    data: Seq<u8>,
    inner: TypeModel,
    k: nat,
    b: nat,
    acc: Seq<ValueModel>,
)
    ensures
        not_config_error(dec_array_elems(c, m, total, data, inner, k, b, acc)),
    decreases k,
{
    if k > 0 {
        if let Ok((v, rest)) = dec_type(c, m, total, data, inner, b) {
            if rest.len() <= data.len() {
                lemma_array_elems_no_config(
                    c,
                    m,
                    total,
                    rest,
                    inner,
                    (k - 1) as nat,
                    next_budget(m, data, rest, b),
                    acc.push(v),
                );
            }
        }
    }
}

proof fn lemma_seq_elems_no_config(
    c: DecoderConfig,
    m: ModuleModel,
    total: int,
    data: Seq<u8>,
    inner: TypeModel,
    acc: Seq<ValueModel>,
)
    ensures
        not_config_error(dec_seq_elems(c, m, total, data, inner, acc)),
    decreases data.len(),
{
    if data.len() > 0 {
        if let Ok((v, rest)) = dec_type(c, m, total, data, inner, full_budget(m)) {
            if rest.len() < data.len() {
                lemma_seq_elems_no_config(c, m, total, rest, inner, acc.push(v));
            }
        }
    }
}

proof fn lemma_seq_no_config(
    c: DecoderConfig,
    m: ModuleModel,
    total: int,
    data: Seq<u8>,
    inner: TypeModel,
)
    requires
        config_valid(c),
    ensures
        not_config_error(dec_seq(c, m, total, data, inner)),
{
    if let Ok((n, rem)) = length_field(c, data) {
        lemma_seq_elems_no_config(c, m, total, rem.take(n as int), inner, Seq::empty());
    }
}

proof fn lemma_type_no_config(
    c: DecoderConfig,
    m: ModuleModel,
    total: int,
    data: Seq<u8>,
    t: TypeModel,
    b: nat,
)
    requires
        config_valid(c),
    ensures
        not_config_error(dec_type(c, m, total, data, t, b)),
    decreases data.len(), b, 1int, t, 0int,
{
    match t {
        TypeModel::TypeName(name) => lemma_type_name_no_config(c, m, total, data, name, b),
        TypeModel::Array(inner, size) => {
            let start = if c.enable_array_length_header {
                match length_field(c, data) {
                    Ok((n, rest)) => if n != size as nat {
                        Err(ErrorModel::InvalidData(Seq::empty()))
                    } else {
                        Ok(rest)
                    },
                    Err(e) => Err(e),
                }
            } else {
                Ok(data)
            };
            if let Ok(d) = start {
                lemma_array_elems_no_config(
                    c,
                    m,
                    total,
                    d,
                    *inner,
                    size as nat,
                    next_budget(m, data, d, b),
                    Seq::empty(),
                );
            }
        },
        TypeModel::Sequence(inner) => lemma_seq_no_config(c, m, total, data, *inner),
        _ => {},
    }
}

proof fn lemma_type_name_no_config(
    c: DecoderConfig,
    m: ModuleModel,
    total: int,
    data: Seq<u8>,
    name: Seq<char>,
    b: nat,
)
    requires
        config_valid(c),
    ensures
        not_config_error(dec_type_name(c, m, total, data, name, b)),
    decreases data.len(), b, 0int, TypeModel::Octet, 0int,
{
    if let Some(st) = find_struct(m, name) {
        if b > 0 {
            lemma_fields_no_config(c, m, total, data, st.fields, 0, (b - 1) as nat, Seq::empty());
        }
    }
}

proof fn lemma_fields_no_config(
    c: DecoderConfig,
    m: ModuleModel,
    total: int,
    data: Seq<u8>,
    fields: Seq<FieldModel>,
    i: int,
    b: nat,
    acc: Seq<(Seq<char>, ValueModel)>,
)
    requires
        config_valid(c),
    ensures
        not_config_error(dec_fields(c, m, total, data, fields, i, b, acc)),
    decreases data.len(), b, 2int, TypeModel::Octet, fields.len() - i,
{
    if 0 <= i < fields.len() {
        let f = fields[i];
        lemma_type_no_config(c, m, total, data, f.field_type, b);
        if let Ok((v, rest)) = dec_type(c, m, total, data, f.field_type, b) {
            if let Ok(rest2) = after_field(c, total, f.field_type, rest) {
                if rest2.len() <= data.len() {
                    lemma_fields_no_config(
                        c,
                        m,
                        total,
                        rest2,
                        fields,
                        i + 1,
                        next_budget(m, data, rest2, b),
                        map_insert(acc, f.name, v),
                    );
                }
            }
        }
    }
}

proof fn lemma_frames_of_no_config(
    items: Seq<ValueModel>,
    i: int,
    fmt: Option<Seq<char>>,
    acc: Seq<FrameModel>,
)
    ensures
        not_config_error(frames_of(items, i, fmt, acc)),
    decreases items.len() - i,
{
    if 0 <= i < items.len() {
        if let Ok(f) = frame_of(items[i], fmt) {
            lemma_frames_of_no_config(items, i + 1, fmt, acc.push(f));
        }
    }
}

proof fn lemma_packet_fields_no_config(
    c: DecoderConfig,
    m: ModuleModel,
    total: int,
    data: Seq<u8>,
    fields: Seq<FieldModel>,
    i: int,
    ts: Option<u64>,
    frames: Option<Seq<FrameModel>>,
    fmt: Option<Seq<char>>,
)
    requires
        config_valid(c),
    ensures
        not_config_error(packet_fields(c, m, total, data, fields, i, ts, frames, fmt)),
    decreases fields.len() - i,
{
    if 0 <= i < fields.len() {
        let t = fields[i].field_type;
        match t {
            TypeModel::Sequence(inner) => {
                lemma_seq_no_config(c, m, total, data, *inner);
                if let Ok((ValueModel::List(items), _)) = dec_seq(c, m, total, data, *inner) {
                    lemma_frames_of_no_config(items, 0, fmt, Seq::empty());
                }
            },
            TypeModel::UnsignedLongLong => {},
            TypeModel::UnsignedShort => {},
            _ => lemma_type_no_config(c, m, total, data, t, full_budget(m)),
        }
        if let Ok((ts2, frames2, rest)) = packet_step(c, m, total, data, t, ts, frames, fmt) {
            lemma_packet_fields_no_config(c, m, total, rest, fields, i + 1, ts2, frames2, fmt);
        }
    }
}

/// A valid configuration is never refused later: decoding with it, as a
/// struct or as a packet, never fails with `InvalidConfig`. (`Decoder::new`
/// accepts only valid configurations, and decoding keeps the one it has.)
pub proof fn law_valid_config_is_never_refused(
    c: DecoderConfig,
    m: ModuleModel,
    id: Seq<char>,
    data: Seq<u8>,
)
    requires
        config_valid(c),
    ensures
        not_config_error(spec_decode(c, m, id, data)),
        not_config_error(spec_decode_packet(c, m, id, data)),
{
    if let Ok(d) = prepare(c, data) {
        if let Ok(st) = travel_module(m, id) {
            lemma_fields_no_config(
                c,
                m,
                data.len() as int,
                d,
                st.fields,
                0,
                full_budget(m),
                Seq::empty(),
            );
            lemma_packet_fields_no_config(
                c,
                m,
                data.len() as int,
                d,
                st.fields,
                0,
                None,
                None,
                format_annotation(st.fields, 0),
            );
        }
    }
}

// ---------------------------------------------------------------------------
// Packets
// ---------------------------------------------------------------------------

/// Whether every frame carries the annotation `fmt`.
pub open spec fn all_carry(frames: Seq<FrameModel>, fmt: Option<Seq<char>>) -> bool {
    forall|j: int| 0 <= j < frames.len() ==> #[trigger] frames[j].format_annotation == fmt
}

proof fn lemma_frames_of_carry(
    items: Seq<ValueModel>,
    i: int,
    fmt: Option<Seq<char>>,
    acc: Seq<FrameModel>,
)
    requires
        all_carry(acc, fmt),
    ensures
        frames_of(items, i, fmt, acc) matches Ok(fs) ==> all_carry(fs, fmt),
    decreases items.len() - i,
{
    if 0 <= i < items.len() {
        if let Ok(f) = frame_of(items[i], fmt) {
            assert(f.format_annotation == fmt);
            assert(all_carry(acc.push(f), fmt)) by {
                assert forall|j: int| 0 <= j < acc.push(f).len() implies #[trigger] acc.push(
                    f,
                )[j].format_annotation == fmt by {
                    if j < acc.len() {
                        assert(acc.push(f)[j] == acc[j]);
                    }
                }
            }
            lemma_frames_of_carry(items, i + 1, fmt, acc.push(f));
        }
    }
}

proof fn lemma_packet_fields_carry(
    c: DecoderConfig,
    m: ModuleModel,
    total: int,
    data: Seq<u8>,
    fields: Seq<FieldModel>,
    i: int,
    ts: Option<u64>,
    frames: Option<Seq<FrameModel>>,
    fmt: Option<Seq<char>>,
)
    requires
        frames matches Some(fs) ==> all_carry(fs, fmt),
    ensures
        packet_fields(c, m, total, data, fields, i, ts, frames, fmt) matches Ok((_, Some(fs)))
            ==> all_carry(fs, fmt),
    decreases fields.len() - i,
{
    if 0 <= i < fields.len() {
        let t = fields[i].field_type;
        if let TypeModel::Sequence(inner) = t {
            if let Ok((v, _)) = dec_seq(c, m, total, data, *inner) {
                if let ValueModel::List(items) = v {
                    lemma_frames_of_carry(items, 0, fmt, Seq::empty());
                }
            }
        }
        if let Ok((ts2, frames2, rest)) = packet_step(c, m, total, data, t, ts, frames, fmt) {
            lemma_packet_fields_carry(c, m, total, rest, fields, i + 1, ts2, frames2, fmt);
        }
    }
}

/// Every frame of a decoded packet carries the `dbc` value of the
/// `@format` annotation on the packet's first sequence field.
pub proof fn law_frames_carry_the_format_annotation(
    c: DecoderConfig,
    m: ModuleModel,
    id: Seq<char>,
    data: Seq<u8>,
)
    ensures
        spec_decode_packet(c, m, id, data) matches Ok(p) ==> super::model::travel_module(
            m,
            id,
        ) is Ok && all_carry(
            p.frames,
            format_annotation(super::model::travel_module(m, id)->Ok_0.fields, 0),
        ),
{
    if let Ok(d) = prepare(c, data) {
        if let Ok(st) = super::model::travel_module(m, id) {
            let fmt = format_annotation(st.fields, 0);
            lemma_packet_fields_carry(c, m, data.len() as int, d, st.fields, 0, None, None, fmt);
        }
    }
}

// ---------------------------------------------------------------------------
// The header is skipped unread
// ---------------------------------------------------------------------------

/// Decoding never reads the header: inputs that differ only in their first
/// `header_length` bytes decode alike, as structs and as packets.
pub proof fn law_header_is_not_read(
    c: DecoderConfig,
    m: ModuleModel,
    id: Seq<char>,
    h1: Seq<u8>,
    h2: Seq<u8>,
    body: Seq<u8>,
)
    requires
        h1.len() == c.header_length,
        h2.len() == c.header_length,
    ensures
        spec_decode(c, m, id, h1 + body) == spec_decode(c, m, id, h2 + body),
        spec_decode_packet(c, m, id, h1 + body) == spec_decode_packet(c, m, id, h2 + body),
{
    assert((h1 + body).skip(c.header_length as int) =~= body);
    assert((h2 + body).skip(c.header_length as int) =~= body);
    assert(prepare(c, h1 + body) == prepare(c, h2 + body));
}


// ---------------------------------------------------------------------------
// Packets and structs agree
// ---------------------------------------------------------------------------

pub open spec fn key_ts() -> Seq<char> {
    seq!['t', 's']
}

pub open spec fn key_frames() -> Seq<char> {
    seq!['f', 'r', 'a', 'm', 'e', 's']
}

/// Whether `fields` are the packet layout `unsigned long long ts;
/// unsigned short len; sequence<frame> frames;`.
pub open spec fn packet_layout(fields: Seq<FieldModel>, frame: Seq<char>) -> bool {
    &&& fields.len() == 3
    &&& fields[0].name == key_ts() && fields[0].field_type == TypeModel::UnsignedLongLong
    &&& fields[1].name == key_len() && fields[1].field_type == TypeModel::UnsignedShort
    &&& fields[2].name == key_frames() && fields[2].field_type == TypeModel::Sequence(
        Box::new(TypeModel::TypeName(frame)),
    )
}

/// Whether `fields` are the frame layout `unsigned long id; unsigned long
/// len; sequence<octet> payload;`.
pub open spec fn frame_layout(fields: Seq<FieldModel>) -> bool {
    &&& fields.len() == 3
    &&& fields[0].name == key_id() && fields[0].field_type == TypeModel::UnsignedLong
    &&& fields[1].name == key_len() && fields[1].field_type == TypeModel::UnsignedLong
    &&& fields[2].name == key_payload() && fields[2].field_type == TypeModel::Sequence(
        Box::new(TypeModel::Octet),
    )
}

/// Whether the decoded struct `v` holds the `id`, `len` and `payload` of `f`.
pub open spec fn frame_matches(v: ValueModel, f: FrameModel) -> bool {
    &&& v matches ValueModel::Struct(e)
    &&& lookup(e, key_id()) == Some(ValueModel::U32(f.can_id))
    &&& lookup(e, key_len()) == Some(ValueModel::U32(f.len))
    &&& lookup(e, key_payload()) == Some(ValueModel::Bytes(f.payload))
}

/// Whether the decoded struct `entries` holds the timestamp and the frames
/// of `p`.
pub open spec fn packet_matches(entries: Seq<(Seq<char>, ValueModel)>, p: PacketModel) -> bool {
    &&& lookup(entries, key_ts()) == Some(ValueModel::U64(p.ts))
    &&& lookup(entries, key_frames()) matches Some(ValueModel::List(xs))
    &&& xs.len() == p.frames.len()
    &&& forall|i: int| 0 <= i < xs.len() ==> frame_matches(xs[i], p.frames[i])
}

proof fn lemma_three_lookups(
    k1: Seq<char>,
    v1: ValueModel,
    k2: Seq<char>,
    v2: ValueModel,
    k3: Seq<char>,
    v3: ValueModel,
)
    requires
        k1 != k2,
        k1 != k3,
        k2 != k3,
    ensures
        ({
            let e = map_insert(
                map_insert(map_insert(Seq::<(Seq<char>, ValueModel)>::empty(), k1, v1), k2, v2),
                k3,
                v3,
            );
            &&& lookup(e, k1) == Some(v1)
            &&& lookup(e, k2) == Some(v2)
            &&& lookup(e, k3) == Some(v3)
        }),
{
    let e1 = map_insert(Seq::<(Seq<char>, ValueModel)>::empty(), k1, v1);
    let e2 = map_insert(e1, k2, v2);
    law_insert_then_lookup(Seq::<(Seq<char>, ValueModel)>::empty(), k1, v1, k2);
    law_insert_then_lookup(e1, k2, v2, k1);
    law_insert_then_lookup(e2, k3, v3, k1);
    law_insert_then_lookup(e2, k3, v3, k2);
}

/// Whether `v` is a struct value that `frame_of` accepts.
pub open spec fn frame_shaped(v: ValueModel) -> bool {
    frame_of(v, None) is Ok
}

proof fn lemma_frame_entries(
    c: DecoderConfig,
    m: ModuleModel,
    total: int,
    data: Seq<u8>,
    fields: Seq<FieldModel>,
    b: nat,
)
    requires
        frame_layout(fields),
        dec_fields(c, m, total, data, fields, 0, b, Seq::empty()) is Ok,
    ensures
        frame_shaped(ValueModel::Struct(dec_fields(c, m, total, data, fields, 0, b, Seq::empty())->Ok_0.0)),
{
    let e0 = Seq::<(Seq<char>, ValueModel)>::empty();
    let (v0, r0) = dec_type(c, m, total, data, fields[0].field_type, b)->Ok_0;
    assert(v0 is U32);
    let b1 = next_budget(m, data, r0, b);
    let e1 = map_insert(e0, key_id(), v0);
    assert(dec_fields(c, m, total, data, fields, 0, b, e0) == dec_fields(c, m, total, r0, fields, 1, b1, e1));
    let (v1, r1) = dec_type(c, m, total, r0, fields[1].field_type, b1)->Ok_0;
    assert(v1 is U32);
    let b2 = next_budget(m, r0, r1, b1);
    let e2 = map_insert(e1, key_len(), v1);
    assert(dec_fields(c, m, total, r0, fields, 1, b1, e1) == dec_fields(c, m, total, r1, fields, 2, b2, e2));
    let (v2, r2) = dec_type(c, m, total, r1, fields[2].field_type, b2)->Ok_0;
    assert(v2 is Bytes);
    let r3 = after_field(c, total, fields[2].field_type, r2)->Ok_0;
    let b3 = next_budget(m, r1, r3, b2);
    let e3 = map_insert(e2, key_payload(), v2);
    assert(dec_fields(c, m, total, r1, fields, 2, b2, e2) == dec_fields(c, m, total, r3, fields, 3, b3, e3));
    assert(dec_fields(c, m, total, r3, fields, 3, b3, e3) == Ok::<(Seq<(Seq<char>, ValueModel)>, Seq<u8>), ErrorModel>((e3, r3)));
    lemma_three_lookups(key_id(), v0, key_len(), v1, key_payload(), v2);
}

proof fn lemma_seq_elems_frames(
    c: DecoderConfig,
    m: ModuleModel,
    total: int,
    data: Seq<u8>,
    frame: Seq<char>,
    acc: Seq<ValueModel>,
)
    requires
        find_struct(m, frame) matches Some(f) && frame_layout(f.fields),
        forall|k: int| 0 <= k < acc.len() ==> frame_shaped(#[trigger] acc[k]),
        dec_seq_elems(c, m, total, data, TypeModel::TypeName(frame), acc) is Ok,
    ensures
        ({
            let vs = dec_seq_elems(c, m, total, data, TypeModel::TypeName(frame), acc)->Ok_0;
            forall|k: int| 0 <= k < vs.len() ==> frame_shaped(#[trigger] vs[k])
        }),
    decreases data.len(),
{
    if data.len() > 0 {
        let t = TypeModel::TypeName(frame);
        let (v, rest) = dec_type(c, m, total, data, t, full_budget(m))->Ok_0;
        let f = find_struct(m, frame)->Some_0;
        let b = full_budget(m);
        assert(b > 0);
        lemma_frame_entries(c, m, total, data, f.fields, (b - 1) as nat);
        assert(frame_shaped(v));
        let acc2 = acc.push(v);
        assert forall|k: int| 0 <= k < acc2.len() implies frame_shaped(#[trigger] acc2[k]) by {
            if k < acc.len() {
                assert(acc2[k] == acc[k]);
            }
        }
        lemma_seq_elems_frames(c, m, total, rest, frame, acc2);
    }
}

proof fn lemma_frames_of_shaped(
    items: Seq<ValueModel>,
    i: int,
    fmt: Option<Seq<char>>,
    acc: Seq<FrameModel>,
)
    requires
        0 <= i <= items.len(),
        forall|k: int| 0 <= k < items.len() ==> frame_shaped(#[trigger] items[k]),
    ensures
        frames_of(items, i, fmt, acc) matches Ok(fs) && fs.len() == acc.len() + items.len() - i
            && (forall|k: int| 0 <= k < acc.len() ==> fs[k] == acc[k])
            && (forall|k: int| i <= k < items.len() ==> frame_of(items[k], fmt) == Ok::<FrameModel, ErrorModel>(#[trigger] fs[acc.len() + k - i])),
    decreases items.len() - i,
{
    if i < items.len() {
        assert(frame_shaped(items[i]));
        let f = frame_of(items[i], fmt)->Ok_0;
        lemma_frames_of_shaped(items, i + 1, fmt, acc.push(f));
        let fs = frames_of(items, i + 1, fmt, acc.push(f))->Ok_0;
        assert(fs[acc.len() as int] == acc.push(f)[acc.len() as int]);
        assert forall|k: int| 0 <= k < acc.len() implies fs[k] == acc[k] by {
            assert(fs[k] == acc.push(f)[k]);
        }
        assert forall|k: int| i <= k < items.len() implies frame_of(items[k], fmt) == Ok::<
            FrameModel,
            ErrorModel,
        >(#[trigger] fs[acc.len() + k - i]) by {
            if k == i {
                assert(fs[acc.len() + k - i] == f);
            } else {
                assert(acc.push(f).len() + k - (i + 1) == acc.len() + k - i);
                assert(frame_of(items[k], fmt) == Ok::<FrameModel, ErrorModel>(
                    fs[acc.push(f).len() + k - (i + 1)],
                ));
            }
        }
    } else {
        assert(frames_of(items, i, fmt, acc) == Ok::<Seq<FrameModel>, ErrorModel>(acc));
    }
}

/// A packet decodes as its struct does: where the struct that `id` names
/// has the packet layout (`unsigned long long ts; unsigned short len;
/// sequence<F> frames;`) and the first struct named `F` has the frame
/// layout (`unsigned long id; unsigned long len; sequence<octet> payload;`),
/// a successful decode of the struct means that the packet decodes too,
/// with the struct's `ts` as its timestamp and one frame for each element
/// of `frames`, holding that element's `id`, `len` and `payload`.
pub proof fn law_packet_agrees_with_decode(
    c: DecoderConfig,
    m: ModuleModel,
    id: Seq<char>,
    data: Seq<u8>,
    frame: Seq<char>,
)
    requires
        travel_module(m, id) matches Ok(st) && packet_layout(st.fields, frame),
        find_struct(m, frame) matches Some(f) && frame_layout(f.fields),
        spec_decode(c, m, id, data) is Ok,
    ensures
        spec_decode_packet(c, m, id, data) matches Ok(p) && packet_matches(
            spec_decode(c, m, id, data)->Ok_0,
            p,
        ),
{
    let total = data.len() as int;
    let d = prepare(c, data)->Ok_0;
    let st = travel_module(m, id)->Ok_0;
    let fields = st.fields;
    let fmt = format_annotation(fields, 0);
    let b0 = full_budget(m);
    let e0 = Seq::<(Seq<char>, ValueModel)>::empty();
    // ts
    let (v0, r0) = dec_type(c, m, total, d, fields[0].field_type, b0)->Ok_0;
    let b1 = next_budget(m, d, r0, b0);
    let e1 = map_insert(e0, key_ts(), v0);
    assert(dec_fields(c, m, total, d, fields, 0, b0, e0) == dec_fields(c, m, total, r0, fields, 1, b1, e1));
    let ts = read_bytes(d, 8)->Ok_0;
    let tsv = uint_value(c.is_little_endian, ts.0) as u64;
    assert(v0 == ValueModel::U64(tsv));
    assert(packet_fields(c, m, total, d, fields, 0, None, None, fmt) == packet_fields(c, m, total, r0, fields, 1, Some(tsv), None, fmt));
    // len
    let (v1, r1) = dec_type(c, m, total, r0, fields[1].field_type, b1)->Ok_0;
    let b2 = next_budget(m, r0, r1, b1);
    let e2 = map_insert(e1, key_len(), v1);
    assert(dec_fields(c, m, total, r0, fields, 1, b1, e1) == dec_fields(c, m, total, r1, fields, 2, b2, e2));
    assert(packet_fields(c, m, total, r0, fields, 1, Some(tsv), None, fmt) == packet_fields(c, m, total, r1, fields, 2, Some(tsv), None, fmt));
    // frames
    let inner = TypeModel::TypeName(frame);
    let (v2, r2) = dec_seq(c, m, total, r1, inner)->Ok_0;
    assert(dec_type(c, m, total, r1, fields[2].field_type, b2) == dec_seq(c, m, total, r1, inner));
    let r3 = after_field(c, total, fields[2].field_type, r2)->Ok_0;
    let b3 = next_budget(m, r1, r3, b2);
    let e3 = map_insert(e2, key_frames(), v2);
    assert(dec_fields(c, m, total, r1, fields, 2, b2, e2) == dec_fields(c, m, total, r3, fields, 3, b3, e3));
    assert(spec_decode(c, m, id, data) == Ok::<Seq<(Seq<char>, ValueModel)>, ErrorModel>(e3));
    let (n, rem) = length_field(c, r1)->Ok_0;
    let vs = dec_seq_elems(c, m, total, rem.take(n as int), inner, Seq::empty())->Ok_0;
    assert(v2 == ValueModel::List(vs));
    lemma_seq_elems_frames(c, m, total, rem.take(n as int), frame, Seq::empty());
    lemma_frames_of_shaped(vs, 0, fmt, Seq::empty());
    let fs = frames_of(vs, 0, fmt, Seq::empty())->Ok_0;
    assert(packet_fields(c, m, total, r1, fields, 2, Some(tsv), None, fmt) == packet_fields(c, m, total, r3, fields, 3, Some(tsv), Some(fs), fmt));
    let p = PacketModel { ts: tsv, frames: fs };
    assert(spec_decode_packet(c, m, id, data) == Ok::<PacketModel, ErrorModel>(p));
    lemma_three_lookups(key_ts(), v0, key_len(), v1, key_frames(), v2);
    assert forall|i: int| 0 <= i < vs.len() implies frame_matches(vs[i], fs[i]) by {
        assert(frame_of(vs[i], fmt) == Ok::<FrameModel, ErrorModel>(fs[0 + i - 0]));
    }
}


// ---------------------------------------------------------------------------
// Packets read every field as decode does
// ---------------------------------------------------------------------------

/// Index of the last `unsigned long long` field among `fields[..n]`.
pub open spec fn last_ts_field(fields: Seq<FieldModel>, n: int) -> Option<int>
    decreases n,
{
    if n <= 0 || n > fields.len() {
        None
    } else if fields[n - 1].field_type == TypeModel::UnsignedLongLong {
        Some(n - 1)
    } else {
        last_ts_field(fields, n - 1)
    }
}

/// Index of the last sequence field among `fields[..n]`.
pub open spec fn last_seq_field(fields: Seq<FieldModel>, n: int) -> Option<int>
    decreases n,
{
    if n <= 0 || n > fields.len() {
        None
    } else if fields[n - 1].field_type is Sequence {
        Some(n - 1)
    } else {
        last_seq_field(fields, n - 1)
    }
}

/// The timestamp that the decoded struct `entries` holds in the last
/// `unsigned long long` field among `fields[..n]`.
pub open spec fn ts_in(entries: Seq<(Seq<char>, ValueModel)>, fields: Seq<FieldModel>, n: int) -> Option<u64> {
    match last_ts_field(fields, n) {
        Some(j) => match lookup(entries, fields[j].name) {
            Some(ValueModel::U64(x)) => Some(x),
            _ => None,
        },
        None => None,
    }
}

/// The frames of the value that the decoded struct `entries` holds in the
/// last sequence field among `fields[..n]`.
pub open spec fn frames_in(
    entries: Seq<(Seq<char>, ValueModel)>,
    fields: Seq<FieldModel>,
    n: int,
    fmt: Option<Seq<char>>,
) -> Option<Seq<FrameModel>> {
    match last_seq_field(fields, n) {
        Some(j) => match lookup(entries, fields[j].name) {
            Some(v) => match extract_frames(v, fmt) {
                Ok(fs) => Some(fs),
                Err(_) => None,
            },
            None => None,
        },
        None => None,
    }
}

/// Whether `entries` holds, under `name`, a value with frames.
pub open spec fn holds_frames(
    entries: Seq<(Seq<char>, ValueModel)>,
    name: Seq<char>,
    fmt: Option<Seq<char>>,
) -> bool {
    match lookup(entries, name) {
        Some(v) => extract_frames(v, fmt) is Ok,
        None => false,
    }
}

proof fn lemma_dec_fields_keeps(
    c: DecoderConfig,
    m: ModuleModel,
    total: int,
    data: Seq<u8>,
    fields: Seq<FieldModel>,
    i: int,
    b: nat,
    acc: Seq<(Seq<char>, ValueModel)>,
    k: Seq<char>,
)
    requires
        0 <= i,
        forall|j: int| i <= j < fields.len() ==> fields[j].name != k,
    ensures
        dec_fields(c, m, total, data, fields, i, b, acc) matches Ok((e, _)) ==> lookup(e, k)
            == lookup(acc, k),
    decreases fields.len() - i,
{
    if i < fields.len() {
        let f = fields[i];
        if let Ok((v, rest)) = dec_type(c, m, total, data, f.field_type, b) {
            if let Ok(rest2) = after_field(c, total, f.field_type, rest) {
                if rest2.len() <= data.len() {
                    law_insert_then_lookup(acc, f.name, v, k);
                    lemma_dec_fields_keeps(
                        c,
                        m,
                        total,
                        rest2,
                        fields,
                        i + 1,
                        next_budget(m, data, rest2, b),
                        map_insert(acc, f.name, v),
                        k,
                    );
                }
            }
        }
    }
}

#[verifier::rlimit(50)]
proof fn lemma_packet_tracks_decode(
    c: DecoderConfig,
    m: ModuleModel,
    total: int,
    data: Seq<u8>,
    fields: Seq<FieldModel>,
    i: int,
    acc: Seq<(Seq<char>, ValueModel)>,
    entries: Seq<(Seq<char>, ValueModel)>,
    ts: Option<u64>,
    frames: Option<Seq<FrameModel>>,
    fmt: Option<Seq<char>>,
)
    requires
        0 <= i <= fields.len(),
        names_distinct(fields),
        dec_fields(c, m, total, data, fields, i, full_budget(m), acc) matches Ok((e, _)) && e
            == entries,
        forall|j: int|
            #![trigger fields[j]]
            i <= j < fields.len() && fields[j].field_type is Sequence ==> holds_frames(
                entries,
                fields[j].name,
                fmt,
            ),
        ts == ts_in(entries, fields, i),
        frames == frames_in(entries, fields, i, fmt),
    ensures
        packet_fields(c, m, total, data, fields, i, ts, frames, fmt) == Ok::<
            (Option<u64>, Option<Seq<FrameModel>>),
            ErrorModel,
        >((ts_in(entries, fields, fields.len() as int), frames_in(entries, fields, fields.len() as int, fmt))),
        forall|j: int|
            #![trigger fields[j]]
            i <= j < fields.len() && fields[j].field_type == TypeModel::UnsignedLongLong ==> lookup(
                entries,
                fields[j].name,
            ) matches Some(ValueModel::U64(_)),
    decreases fields.len() - i,
{
    let b = full_budget(m);
    if i < fields.len() {
        let f = fields[i];
        let t = f.field_type;
        let (v, rest) = dec_type(c, m, total, data, t, b)->Ok_0;
        let rest2 = after_field(c, total, t, rest)->Ok_0;
        assert(rest2.len() <= data.len());
        assert(next_budget(m, data, rest2, b) == b);
        let acc2 = map_insert(acc, f.name, v);
        assert(dec_fields(c, m, total, data, fields, i, b, acc) == dec_fields(
            c,
            m,
            total,
            rest2,
            fields,
            i + 1,
            b,
            acc2,
        ));
        assert forall|j: int| i + 1 <= j < fields.len() implies fields[j].name != f.name by {
            assert(fields[i].name != fields[j].name);
        }
        lemma_dec_fields_keeps(c, m, total, rest2, fields, i + 1, b, acc2, f.name);
        law_insert_then_lookup(acc, f.name, v, f.name);
        assert(lookup(entries, f.name) == Some(v));
        let (ts2, frames2) = match t {
            TypeModel::UnsignedLongLong => {
                let chunk = read_bytes(data, 8)->Ok_0.0;
                assert(v == ValueModel::U64(uint_value(c.is_little_endian, chunk) as u64));
                (Some(uint_value(c.is_little_endian, chunk) as u64), frames)
            },
            TypeModel::Sequence(inner) => {
                assert(dec_type(c, m, total, data, t, b) == dec_seq(c, m, total, data, *inner));
                (ts, Some(extract_frames(v, fmt)->Ok_0))
            },
            _ => (ts, frames),
        };
        assert(last_ts_field(fields, i + 1) == if t == TypeModel::UnsignedLongLong {
            Some(i)
        } else {
            last_ts_field(fields, i)
        });
        assert(last_seq_field(fields, i + 1) == if t is Sequence {
            Some(i)
        } else {
            last_seq_field(fields, i)
        });
        assert(ts2 == ts_in(entries, fields, i + 1));
        assert(frames2 == frames_in(entries, fields, i + 1, fmt));
        assert(packet_step(c, m, total, data, t, ts, frames, fmt) == Ok::<
            (Option<u64>, Option<Seq<FrameModel>>, Seq<u8>),
            ErrorModel,
        >((ts2, frames2, rest2)));
        lemma_packet_tracks_decode(
            c,
            m,
            total,
            rest2,
            fields,
            i + 1,
            acc2,
            entries,
            ts2,
            frames2,
            fmt,
        );
    } else {
        assert(dec_fields(c, m, total, data, fields, i, b, acc) == Ok::<
            (Seq<(Seq<char>, ValueModel)>, Seq<u8>),
            ErrorModel,
        >((acc, data)));
    }
}

/// A packet reads its struct's fields as decode lays them out, whatever the
/// layout: where the struct's field names are distinct, it decodes, and each
/// sequence field's value holds frames, the packet decodes too; its
/// timestamp is the value of the last `unsigned long long` field and its
/// frames those of the last sequence field. Every other field is read, and
/// its bytes skipped, exactly as decode reads it.
pub proof fn law_packet_reads_fields_as_decode_does(
    c: DecoderConfig,
    m: ModuleModel,
    id: Seq<char>,
    data: Seq<u8>,
)
    requires
        travel_module(m, id) is Ok,
        spec_decode(c, m, id, data) is Ok,
        ({
            let fields = travel_module(m, id)->Ok_0.fields;
            let entries = spec_decode(c, m, id, data)->Ok_0;
            &&& names_distinct(fields)
            &&& last_ts_field(fields, fields.len() as int) is Some
            &&& last_seq_field(fields, fields.len() as int) is Some
            &&& forall|j: int|
                #![trigger fields[j]]
                0 <= j < fields.len() && fields[j].field_type is Sequence ==> holds_frames(
                    entries,
                    fields[j].name,
                    format_annotation(fields, 0),
                )
        }),
    ensures
        spec_decode_packet(c, m, id, data) is Ok,
        ({
            let fields = travel_module(m, id)->Ok_0.fields;
            let entries = spec_decode(c, m, id, data)->Ok_0;
            let n = fields.len() as int;
            let p = spec_decode_packet(c, m, id, data)->Ok_0;
            let t = last_ts_field(fields, n)->Some_0;
            let q = last_seq_field(fields, n)->Some_0;
            &&& lookup(entries, fields[t].name) == Some(ValueModel::U64(p.ts))
            &&& lookup(entries, fields[q].name) is Some
            &&& extract_frames(lookup(entries, fields[q].name)->Some_0, format_annotation(fields, 0))
                == Ok::<Seq<FrameModel>, ErrorModel>(p.frames)
        }),
{
    let st = travel_module(m, id)->Ok_0;
    let fields = st.fields;
    let n = fields.len() as int;
    let d = prepare(c, data)->Ok_0;
    let total = data.len() as int;
    let entries = spec_decode(c, m, id, data)->Ok_0;
    let fmt = format_annotation(fields, 0);
    let e0 = Seq::<(Seq<char>, ValueModel)>::empty();
    assert(last_ts_field(fields, 0) is None);
    assert(last_seq_field(fields, 0) is None);
    lemma_packet_tracks_decode(c, m, total, d, fields, 0, e0, entries, None, None, fmt);
    let t = last_ts_field(fields, n)->Some_0;
    let q = last_seq_field(fields, n)->Some_0;
    lemma_last_field_bounds(fields, n);
    assert(fields[t].field_type == TypeModel::UnsignedLongLong);
    assert(fields[q].field_type is Sequence);
}

proof fn lemma_last_field_bounds(fields: Seq<FieldModel>, n: int)
    ensures
        last_ts_field(fields, n) matches Some(j) ==> 0 <= j < n && j < fields.len()
            && fields[j].field_type == TypeModel::UnsignedLongLong,
        last_seq_field(fields, n) matches Some(j) ==> 0 <= j < n && j < fields.len()
            && fields[j].field_type is Sequence,
    decreases n,
{
    if 0 < n <= fields.len() {
        lemma_last_field_bounds(fields, n - 1);
    }
}


// ---------------------------------------------------------------------------
// How much a length-prefixed or sized value consumes
// ---------------------------------------------------------------------------

/// A sequence consumes its length prefix and then exactly the number of
/// bytes that the prefix announces.
pub proof fn law_sequence_consumes_announced_bytes(
    c: DecoderConfig,
    m: ModuleModel,
    total: int,
    data: Seq<u8>,
    inner: TypeModel,
)
    ensures
        dec_seq(c, m, total, data, inner) matches Ok((_, rest)) ==> length_field(c, data) matches Ok((n, rem)) && n <= rem.len() && rest == rem.skip(n as int),
{
}

/// A dynamic string consumes its length prefix and then exactly the number
/// of bytes that the prefix announces.
pub proof fn law_dynamic_string_consumes_announced_bytes(c: DecoderConfig, data: Seq<u8>)
    ensures
        super::model::dec_dynamic_string(c, data) matches Ok((_, rest)) ==> length_field(c, data) matches Ok((n, rem)) && n <= rem.len() && rest == rem.skip(n as int),
{
}

proof fn lemma_array_elems_count(
    c: DecoderConfig,
    m: ModuleModel,
    total: int,
    data: Seq<u8>,
    inner: TypeModel,
    k: nat,
    b: nat,
    acc: Seq<ValueModel>,
)
    ensures
        dec_array_elems(c, m, total, data, inner, k, b, acc) matches Ok((vs, _)) ==> vs.len()
            == acc.len() + k,
    decreases k,
{
    if k > 0 {
        if let Ok((v, rest)) = dec_type(c, m, total, data, inner, b) {
            if rest.len() <= data.len() {
                lemma_array_elems_count(
                    c,
                    m,
                    total,
                    rest,
                    inner,
                    (k - 1) as nat,
                    next_budget(m, data, rest, b),
                    acc.push(v),
                );
            }
        }
    }
}

/// An array of a type other than `octet` decodes to a list of exactly its
/// declared number of elements.
pub proof fn law_array_has_its_declared_size(
    c: DecoderConfig,
    m: ModuleModel,
    total: int,
    data: Seq<u8>,
    inner: TypeModel,
    size: u32,
    b: nat,
)
    requires
        inner != TypeModel::Octet,
    ensures
        super::model::dec_array(c, m, total, data, inner, size, b) matches Ok((v, _)) ==> v is List
            && v->List_0.len() == size,
{
    let start = if c.enable_array_length_header {
        match length_field(c, data) {
            Ok((n, rest)) => if n != size as nat {
                Err(ErrorModel::InvalidData(Seq::empty()))
            } else {
                Ok(rest)
            },
            Err(e) => Err(e),
        }
    } else {
        Ok(data)
    };
    if let Ok(d) = start {
        lemma_array_elems_count(
            c,
            m,
            total,
            d,
            inner,
            size as nat,
            next_budget(m, data, d, b),
            Seq::empty(),
        );
    }
}

} // verus!
