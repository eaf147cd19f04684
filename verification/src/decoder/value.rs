//! Decoded values and their models.
use vstd::prelude::*;

verus! {

/// All possible decoded values from IDL binary decoding.
///
/// `float` and `double` values are carried as their IEEE-754 bit patterns
/// (`F32` and `F64`), exactly as read from the wire.
#[derive(Debug)]
pub enum Value {
    U8(u8),
    I16(i16),
    U16(u16),
    I32(i32),
    U32(u32),
    I64(i64),
    U64(u64),
    /// Bit pattern of an IEEE-754 single-precision value.
    F32(u32),
    /// Bit pattern of an IEEE-754 double-precision value.
    F64(u64),
    Bool(bool),
    Str(String),
    List(Vec<Value>),
    Struct(FieldMap),
    /// Raw bytes, used for `sequence<octet>` and `octet[N]` payloads.
    Bytes(Vec<u8>),
}

/// The decoded fields of a struct, keyed by field name.
///
/// Entries are kept in the order in which their names first appear; a
/// later field with the same name replaces the value of the earlier one.
/// Two maps are equal when they bind the same names to equal values, in
/// whatever order.
#[derive(Debug)]
pub struct FieldMap {
    pub entries: Vec<(String, Value)>,
}

/// Model of a [`Value`].
pub ghost enum ValueModel {
    U8(u8),
    I16(i16),
    U16(u16),
    I32(i32),
    U32(u32),
    I64(i64),
    U64(u64),
    F32(u32),
    F64(u64),
    Bool(bool),
    Str(Seq<char>),
    List(Seq<ValueModel>),
    Struct(Seq<(Seq<char>, ValueModel)>),
    Bytes(Seq<u8>),
}

pub open spec fn value_model(v: Value) -> ValueModel
    decreases v,
{
    match v {
        Value::U8(x) => ValueModel::U8(x),
        Value::I16(x) => ValueModel::I16(x),
        Value::U16(x) => ValueModel::U16(x),
        Value::I32(x) => ValueModel::I32(x),
        Value::U32(x) => ValueModel::U32(x),
        Value::I64(x) => ValueModel::I64(x),
        Value::U64(x) => ValueModel::U64(x),
        Value::F32(x) => ValueModel::F32(x),
        Value::F64(x) => ValueModel::F64(x),
        Value::Bool(x) => ValueModel::Bool(x),
        Value::Str(s) => ValueModel::Str(s@),
        Value::List(items) => ValueModel::List(values_model(items@)),
        Value::Struct(fm) => ValueModel::Struct(entries_model(fm.entries@)),
        Value::Bytes(b) => ValueModel::Bytes(b@),
    }
}

pub open spec fn values_model(v: Seq<Value>) -> Seq<ValueModel>
    decreases v,
{
    Seq::new(
        v.len(),
        |i: int|
            if 0 <= i < v.len() {
                value_model(v[i])
            } else {
                ValueModel::Bool(false)
            },
    )
}

pub open spec fn entries_model(e: Seq<(String, Value)>) -> Seq<(Seq<char>, ValueModel)>
    decreases e,
{
    Seq::new(
        e.len(),
        |i: int|
            if 0 <= i < e.len() {
                (e[i].0@, value_model(e[i].1))
            } else {
                (Seq::empty(), ValueModel::Bool(false))
            },
    )
}

impl Clone for Value {
    fn clone(&self) -> (r: Self)
        ensures
            r@ == self@,
        decreases self,
    {
        match self {
            Value::U8(x) => Value::U8(*x),
            Value::I16(x) => Value::I16(*x),
            Value::U16(x) => Value::U16(*x),
            Value::I32(x) => Value::I32(*x),
            Value::U32(x) => Value::U32(*x),
            Value::I64(x) => Value::I64(*x),
            Value::U64(x) => Value::U64(*x),
            Value::F32(x) => Value::F32(*x),
            Value::F64(x) => Value::F64(*x),
            Value::Bool(x) => Value::Bool(*x),
            Value::Str(s) => Value::Str(s.clone()),
            Value::List(items) => {
                let mut out: Vec<Value> = Vec::new();
                let mut i: usize = 0;
                while i < items.len()
                    invariant
                        i <= items@.len(),
                        *self == Value::List(*items),
                        values_model(out@) == values_model(items@.take(i as int)),
                    decreases items@.len() - i,
                {
                    proof {
                        let ghost xs = items@;
                        assert(self->List_0 == *items);
                        assert(decreases_to!(*self => self->List_0));
                        assert(decreases_to!(*items => xs));
                        assert(decreases_to!(xs => xs[i as int]));
                    }
                    let v = items[i].clone();
                    proof {
                        lemma_values_push(out@, v);
                        lemma_values_push(items@.take(i as int), items@[i as int]);
                        assert(items@.take(i + 1) =~= items@.take(i as int).push(items@[i as int]));
                    }
                    out.push(v);
                    i = i + 1;
                }
                proof {
                    assert(items@.take(items@.len() as int) =~= items@);
                }
                Value::List(out)
            },
            Value::Struct(fm) => {
                let mut out: Vec<(String, Value)> = Vec::new();
                let mut i: usize = 0;
                while i < fm.entries.len()
                    invariant
                        i <= fm.entries@.len(),
                        *self == Value::Struct(*fm),
                        entries_model(out@) == entries_model(fm.entries@.take(i as int)),
                    decreases fm.entries@.len() - i,
                {
                    proof {
                        let ghost es = fm.entries@;
                        assert(self->Struct_0 == *fm);
                        assert(decreases_to!(*self => self->Struct_0));
                        assert(decreases_to!(*fm => fm.entries));
                        assert(decreases_to!(fm.entries => es));
                        assert(decreases_to!(es => es[i as int]));
                        assert(decreases_to!(es[i as int] => es[i as int].1));
                    }
                    let e = &fm.entries[i];
                    let k = e.0.clone();
                    let v = e.1.clone();
                    proof {
                        assert(entries_model(out@.push((k, v))) =~= entries_model(out@).push(
                            (k@, v@),
                        ));
                        assert(entries_model(fm.entries@.take(i + 1)) =~= entries_model(
                            fm.entries@.take(i as int),
                        ).push((e.0@, e.1@)));
                    }
                    out.push((k, v));
                    i = i + 1;
                }
                proof {
                    assert(fm.entries@.take(fm.entries@.len() as int) =~= fm.entries@);
                }
                Value::Struct(FieldMap { entries: out })
            },
            Value::Bytes(b) => {
                let mut out: Vec<u8> = Vec::new();
                let mut i: usize = 0;
                while i < b.len()
                    invariant
                        i <= b@.len(),
                        out@ == b@.take(i as int),
                    decreases b@.len() - i,
                {
                    out.push(b[i]);
                    assert(out@ =~= b@.take(i + 1));
                    i = i + 1;
                }
                assert(b@.take(b@.len() as int) =~= b@);
                Value::Bytes(out)
            },
        }
    }
}

impl View for Value {
    type V = ValueModel;

    open spec fn view(&self) -> ValueModel {
        value_model(*self)
    }
}

impl Clone for FieldMap {
    fn clone(&self) -> (r: Self)
        ensures
            r@ == self@,
    {
        let mut out: Vec<(String, Value)> = Vec::new();
        let mut i: usize = 0;
        while i < self.entries.len()
            invariant
                i <= self.entries@.len(),
                entries_model(out@) == entries_model(self.entries@.take(i as int)),
            decreases self.entries@.len() - i,
        {
            let e = &self.entries[i];
            let k = e.0.clone();
            let v = e.1.clone();
            proof {
                assert(entries_model(out@.push((k, v))) =~= entries_model(out@).push((k@, v@)));
                assert(entries_model(self.entries@.take(i + 1)) =~= entries_model(
                    self.entries@.take(i as int),
                ).push((e.0@, e.1@)));
            }
            out.push((k, v));
            i = i + 1;
        }
        proof {
            assert(self.entries@.take(self.entries@.len() as int) =~= self.entries@);
        }
        FieldMap { entries: out }
    }
}

impl View for FieldMap {
    type V = Seq<(Seq<char>, ValueModel)>;

    open spec fn view(&self) -> Seq<(Seq<char>, ValueModel)> {
        entries_model(self.entries@)
    }
}

pub proof fn lemma_values_push(v: Seq<Value>, x: Value)
    ensures
        values_model(v.push(x)) == values_model(v).push(value_model(x)),
{
    assert(values_model(v.push(x)) =~= values_model(v).push(value_model(x)));
}

/// Position of the first entry with key `k`, searching from `i`.
pub open spec fn key_index<V>(e: Seq<(Seq<char>, V)>, k: Seq<char>, i: int) -> Option<int>
    decreases e.len() - i,
{
    if i < 0 || i >= e.len() {
        None
    } else if e[i].0 == k {
        Some(i)
    } else {
        key_index(e, k, i + 1)
    }
}

/// The value of the first entry with key `k`.
pub open spec fn lookup<V>(e: Seq<(Seq<char>, V)>, k: Seq<char>) -> Option<V> {
    match key_index(e, k, 0) {
        Some(i) => Some(e[i].1),
        None => None,
    }
}

/// `e` with `k` bound to `v`: the first entry with key `k` gets the new
/// value, or a new entry is added at the end.
pub open spec fn map_insert<V>(e: Seq<(Seq<char>, V)>, k: Seq<char>, v: V) -> Seq<(Seq<char>, V)> {
    match key_index(e, k, 0) {
        Some(i) => e.update(i, (k, v)),
        None => e.push((k, v)),
    }
}

pub proof fn lemma_key_index<V>(e: Seq<(Seq<char>, V)>, k: Seq<char>, i: int)
    requires
        0 <= i,
    ensures
        key_index(e, k, i) matches Some(j) ==> i <= j < e.len() && e[j].0 == k && forall|t: int|
            i <= t < j ==> e[t].0 != k,
        key_index(e, k, i) is None ==> forall|j: int| i <= j < e.len() ==> e[j].0 != k,
        forall|j: int| i <= j < e.len() && e[j].0 == k ==> key_index(e, k, i) is Some,
    decreases e.len() - i,
{
    if i < e.len() && e[i].0 != k {
        lemma_key_index(e, k, i + 1);
    }
}

impl FieldMap {
    /// An empty map.
    pub fn new() -> (r: FieldMap)
        ensures
            r@ == Seq::<(Seq<char>, ValueModel)>::empty(),
    {
        let r = FieldMap { entries: Vec::new() };
        assert(r@ =~= Seq::<(Seq<char>, ValueModel)>::empty());
        r
    }

    /// Index of the first entry with key `key`.
    fn find(&self, key: &str) -> (r: Option<usize>)
        ensures
            match r {
                Some(i) => key_index(self@, key@, 0) == Some(i as int) && i < self.entries@.len(),
                None => key_index(self@, key@, 0) is None,
            },
    {
        proof {
            lemma_key_index(self@, key@, 0);
        }
        let k = key.to_owned();
        let mut i: usize = 0;
        while i < self.entries.len()
            invariant
                i <= self.entries@.len(),
                k@ == key@,
                key_index(self@, key@, 0) == key_index(self@, key@, i as int),
            decreases self.entries@.len() - i,
        {
            let e = &self.entries[i];
            if e.0.eq(&k) {
                assert(self@[i as int].0 == key@);
                return Some(i);
            }
            assert(self@[i as int].0 != key@);
            i = i + 1;
        }
        None
    }

    /// The value stored for `key`, if any.
    pub fn get(&self, key: &str) -> (r: Option<&Value>)
        ensures
            match r {
                Some(v) => lookup(self@, key@) == Some(v@),
                None => lookup(self@, key@) is None,
            },
    {
        match self.find(key) {
            Some(i) => Some(&self.entries[i].1),
            None => None,
        }
    }

    /// Number of entries.
    pub fn len(&self) -> (r: usize)
        ensures
            r == self@.len(),
    {
        self.entries.len()
    }

    /// Binds `key` to `value`, replacing the value of an existing entry.
    pub fn insert(&mut self, key: String, value: Value)
        ensures
            final(self)@ == map_insert(old(self)@, key@, value@),
    {
        let ghost old_e = self.entries@;
        match self.find(key.as_str()) {
            Some(i) => {
                self.entries.set(i, (key, value));
                assert(self@ =~= old(self)@.update(i as int, (key@, value@)));
            },
            None => {
                self.entries.push((key, value));
                assert(self@ =~= old(self)@.push((key@, value@)));
            },
        }
    }
}


// ---------------------------------------------------------------------------
// Equality: structs compare as maps
// ---------------------------------------------------------------------------

/// Whether the entries `xs` and `ys` bind the same names.
pub open spec fn same_keys(xs: Seq<(Seq<char>, ValueModel)>, ys: Seq<(Seq<char>, ValueModel)>) -> bool {
    forall|k: Seq<char>| #![trigger key_index(xs, k, 0), key_index(ys, k, 0)]
        (key_index(xs, k, 0) is Some) == (key_index(ys, k, 0) is Some)
}

/// Whether `a` and `b` are the same value: structs are compared as maps
/// from names to values, whatever the order of their entries; everything
/// else part by part.
pub open spec fn value_equiv(a: ValueModel, b: ValueModel) -> bool
    decreases a,
{
    match a {
        ValueModel::List(xs) => match b {
            ValueModel::List(ys) => xs.len() == ys.len() && forall|i: int|
                #![trigger xs[i]]
                0 <= i < xs.len() ==> value_equiv(xs[i], ys[i]),
            _ => false,
        },
        ValueModel::Struct(xs) => match b {
            ValueModel::Struct(ys) => same_keys(xs, ys) && forall|i: int|
                #![trigger xs[i]]
                0 <= i < xs.len() && key_index(xs, xs[i].0, 0) == Some(i) ==> value_equiv(
                    xs[i].1,
                    ys[key_index(ys, xs[i].0, 0)->Some_0].1,
                ),
            _ => false,
        },
        _ => a == b,
    }
}

/// Whether two values are the same value, as `value_equiv` states it.
fn values_equal(a: &Value, b: &Value) -> (r: bool)
    ensures
        r == value_equiv(a@, b@),
    decreases a,
{
    match a {
        Value::List(xs) => match b {
            Value::List(ys) => {
                if xs.len() != ys.len() {
                    return false;
                }
                let ghost vx = values_model(xs@);
                let ghost vy = values_model(ys@);
                let mut i: usize = 0;
                while i < xs.len()
                    invariant
                        i <= xs@.len(),
                        xs@.len() == ys@.len(),
                        *a == Value::List(*xs),
                        *b == Value::List(*ys),
                        vx == values_model(xs@),
                        vy == values_model(ys@),
                        forall|j: int| 0 <= j < i ==> value_equiv(#[trigger] vx[j], vy[j]),
                    decreases xs@.len() - i,
                {
                    proof {
                        let ghost s = xs@;
                        assert(decreases_to!(*a => a->List_0));
                        assert(decreases_to!(*xs => s));
                        assert(decreases_to!(s => s[i as int]));
                    }
                    if !values_equal(&xs[i], &ys[i]) {
                        proof {
                            assert(vx[i as int] == xs@[i as int]@);
                            assert(vy[i as int] == ys@[i as int]@);
                            assert(a@ == ValueModel::List(vx));
                            assert(b@ == ValueModel::List(vy));
                            assert(!value_equiv(vx[i as int], vy[i as int]));
                        }
                        return false;
                    }
                    assert(vx[i as int] == xs@[i as int]@);
                    assert(vy[i as int] == ys@[i as int]@);
                    i = i + 1;
                }
                proof {
                    assert(a@ == ValueModel::List(vx));
                    assert(b@ == ValueModel::List(vy));
                }
                true
            },
            _ => false,
        },
        Value::Struct(fx) => match b {
            Value::Struct(fy) => {
                proof {
                    assert(decreases_to!(*a => a->Struct_0));
                }
                fields_equal(fx, fy)
            },
            _ => false,
        },
        Value::U8(x) => match b {
            Value::U8(y) => *x == *y,
            _ => false,
        },
        Value::I16(x) => match b {
            Value::I16(y) => *x == *y,
            _ => false,
        },
        Value::U16(x) => match b {
            Value::U16(y) => *x == *y,
            _ => false,
        },
        Value::I32(x) => match b {
            Value::I32(y) => *x == *y,
            _ => false,
        },
        Value::U32(x) => match b {
            Value::U32(y) => *x == *y,
            _ => false,
        },
        Value::I64(x) => match b {
            Value::I64(y) => *x == *y,
            _ => false,
        },
        Value::U64(x) => match b {
            Value::U64(y) => *x == *y,
            _ => false,
        },
        Value::F32(x) => match b {
            Value::F32(y) => *x == *y,
            _ => false,
        },
        Value::F64(x) => match b {
            Value::F64(y) => *x == *y,
            _ => false,
        },
        Value::Bool(x) => match b {
            Value::Bool(y) => *x == *y,
            _ => false,
        },
        Value::Str(x) => match b {
            Value::Str(y) => x.eq(y),
            _ => false,
        },
        Value::Bytes(x) => match b {
            Value::Bytes(y) => bytes_equal(x, y),
            _ => false,
        },
    }
}

/// Whether two byte vectors hold the same bytes.
fn bytes_equal(x: &Vec<u8>, y: &Vec<u8>) -> (r: bool)
    ensures
        r == (x@ == y@),
{
    if x.len() != y.len() {
        return false;
    }
    let mut i: usize = 0;
    while i < x.len()
        invariant
            i <= x@.len(),
            x@.len() == y@.len(),
            forall|j: int| 0 <= j < i ==> x@[j] == y@[j],
        decreases x@.len() - i,
    {
        if x[i] != y[i] {
            return false;
        }
        i = i + 1;
    }
    assert(x@ =~= y@);
    true
}

/// Whether two field maps bind the same names to equal values.
fn fields_equal(fx: &FieldMap, fy: &FieldMap) -> (r: bool)
    ensures
        r == value_equiv(ValueModel::Struct(fx@), ValueModel::Struct(fy@)),
    decreases fx,
{
    let ghost xs = fx@;
    let ghost ys = fy@;
    let mut i: usize = 0;
    while i < fx.entries.len()
        invariant
            i <= fx.entries@.len(),
            xs == fx@,
            ys == fy@,
            xs.len() == fx.entries@.len(),
            forall|j: int|
                #![trigger xs[j]]
                0 <= j < i && key_index(xs, xs[j].0, 0) == Some(j) ==> key_index(ys, xs[j].0, 0)
                    is Some && value_equiv(xs[j].1, ys[key_index(ys, xs[j].0, 0)->Some_0].1),
        decreases fx.entries@.len() - i,
    {
        let key = &fx.entries[i].0;
        assert(xs[i as int].0 == key@);
        match fx.find(key.as_str()) {
            Some(first) => {
                if first == i {
                    match fy.find(key.as_str()) {
                        Some(j) => {
                            proof {
                                let ghost es = fx.entries@;
                                assert(decreases_to!(*fx => fx.entries));
                                assert(decreases_to!(fx.entries => es));
                                assert(decreases_to!(es => es[i as int]));
                                assert(decreases_to!(es[i as int] => es[i as int].1));
                            }
                            if !values_equal(&fx.entries[i].1, &fy.entries[j].1) {
                                return false;
                            }
                        },
                        None => {
                            proof {
                                assert(!same_keys(xs, ys)) by {
                                    assert(key_index(xs, key@, 0) is Some);
                                }
                            }
                            return false;
                        },
                    }
                }
            },
            None => {},
        }
        i = i + 1;
    }
    let mut j: usize = 0;
    while j < fy.entries.len()
        invariant
            j <= fy.entries@.len(),
            xs == fx@,
            ys == fy@,
            ys.len() == fy.entries@.len(),
            forall|t: int| #![trigger ys[t]] 0 <= t < j ==> key_index(xs, ys[t].0, 0) is Some,
        decreases fy.entries@.len() - j,
    {
        let key = &fy.entries[j].0;
        assert(ys[j as int].0 == key@);
        match fx.find(key.as_str()) {
            Some(_) => {},
            None => {
                proof {
                    lemma_key_index(ys, key@, 0);
                    assert(key_index(ys, key@, 0) is Some);
                    assert(!same_keys(xs, ys)) by {
                        assert(key_index(xs, key@, 0) is None);
                    }
                }
                return false;
            },
        }
        j = j + 1;
    }
    proof {
        assert forall|k: Seq<char>| #![trigger key_index(xs, k, 0), key_index(ys, k, 0)]
            (key_index(xs, k, 0) is Some) == (key_index(ys, k, 0) is Some) by {
            lemma_key_index(xs, k, 0);
            lemma_key_index(ys, k, 0);
            if let Some(p) = key_index(ys, k, 0) {
                assert(ys[p].0 == k);
            }
            if let Some(p) = key_index(xs, k, 0) {
                assert(xs[p].0 == k);
            }
        }
    }
    true
}

impl PartialEq for Value {
    fn eq(&self, other: &Self) -> (r: bool) {
        values_equal(self, other)
    }
}

impl vstd::std_specs::cmp::PartialEqSpecImpl for Value {
    open spec fn obeys_eq_spec() -> bool {
        true
    }

    open spec fn eq_spec(&self, other: &Self) -> bool {
        value_equiv(self@, other@)
    }
}

impl PartialEq for FieldMap {
    fn eq(&self, other: &Self) -> (r: bool) {
        fields_equal(self, other)
    }
}

impl vstd::std_specs::cmp::PartialEqSpecImpl for FieldMap {
    open spec fn obeys_eq_spec() -> bool {
        true
    }

    open spec fn eq_spec(&self, other: &Self) -> bool {
        value_equiv(ValueModel::Struct(self@), ValueModel::Struct(other@))
    }
}

} // verus!
