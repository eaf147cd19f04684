//! AST types for parsed OMG IDL, with their mathematical models.
//!
//! Every AST type has a view (`@`) into a ghost model built from `Seq<char>`
//! names, `Seq`s and `Map`s. The parser and the decoder state their
//! contracts over these models.
use vstd::prelude::*;

verus! {

/// Top-level parsed result of an IDL file.
#[derive(Debug, PartialEq)]
pub struct Module {
    pub name: String,
    pub content: Vec<ModuleContent>,
}

/// Content items within a module: sub-modules, struct definitions, or bitsets.
#[derive(Debug, PartialEq)]
pub enum ModuleContent {
    Module(Box<Module>),
    Struct(Struct),
    BitSet(BitSet),
}

/// A struct definition with named fields.
#[derive(Debug, PartialEq)]
pub struct Struct {
    pub name: String,
    pub fields: Vec<Field>,
}

/// A single field within a struct.
#[derive(Debug, PartialEq)]
pub struct Field {
    pub annotations: Vec<Annotation>,
    pub field_type: TypeRef,
    pub name: String,
}

/// A bitset definition with bitfield fields.
#[derive(Debug, PartialEq)]
pub struct BitSet {
    pub name: String,
    pub fields: Vec<BitSetField>,
}

/// A single bitfield within a bitset.
#[derive(Debug, PartialEq)]
pub struct BitSetField {
    pub width: u8,
    pub name: String,
}

/// An annotation on a field, e.g., `@format(dbc="path")`.
#[derive(Debug, PartialEq, Eq)]
pub struct Annotation {
    pub name: String,
    pub values: AnnotationValues,
}

/// The `key=value` pairs of an annotation, keyed by name.
///
/// Each key occurs once; a later pair with the same key replaces the value
/// of the earlier one. Entries are kept in the order in which their keys
/// first appeared.
#[derive(Debug)]
pub struct AnnotationValues {
    entries: Vec<(String, String)>,
}

/// All supported IDL type references.
///
/// Recursive types (`Array`, `Sequence`) use `Box` to prevent infinite size.
#[derive(Debug, PartialEq)]
pub enum TypeRef {
    Octet,
    Short,
    UnsignedShort,
    Long,
    UnsignedLong,
    LongLong,
    UnsignedLongLong,
    Float,
    Double,
    Boolean,
    /// String type: `None` = dynamic, `Some(n)` = fixed length `n`.
    String { length: Option<u32> },
    /// Fixed-size array: `inner_type[size]`.
    Array { inner: Box<TypeRef>, size: u32 },
    /// Dynamic sequence: `sequence<inner_type>`.
    Sequence { inner: Box<TypeRef> },
    /// Bitfield with specified width in bits.
    BitField { width: u8 },
    /// Reference to a user-defined type by name.
    TypeName { name: String },
}

impl PartialEq for AnnotationValues {
    /// Equal when they hold the same keys with the same values, in
    /// whatever order.
    fn eq(&self, other: &Self) -> (r: bool) {
        let r = self.contained_in(other) && other.contained_in(self);
        proof {
            if r {
                assert(self@ =~= other@);
            }
        }
        r
    }
}

impl vstd::std_specs::cmp::PartialEqSpecImpl for AnnotationValues {
    open spec fn obeys_eq_spec() -> bool {
        true
    }

    open spec fn eq_spec(&self, other: &Self) -> bool {
        self@ == other@
    }
}

impl Eq for AnnotationValues {

}

impl Clone for AnnotationValues {
    fn clone(&self) -> (r: Self)
        ensures
            r@ == self@,
    {
        proof {
            use_type_invariant(self);
        }
        let mut entries: Vec<(String, String)> = Vec::new();
        let mut i: usize = 0;
        while i < self.entries.len()
            invariant
                i <= self.entries@.len(),
                entries@ == self.entries@.take(i as int),
            decreases self.entries@.len() - i,
        {
            let e = &self.entries[i];
            entries.push((e.0.clone(), e.1.clone()));
            proof {
                assert(entries@ =~= self.entries@.take(i + 1));
            }
            i = i + 1;
        }
        proof {
            assert(entries@ =~= self.entries@);
        }
        AnnotationValues { entries }
    }
}

impl Clone for Module {
    fn clone(&self) -> (r: Self)
        ensures
            r@ == self@,
        decreases self,
    {
        let mut content: Vec<ModuleContent> = Vec::new();
        let mut i: usize = 0;
        while i < self.content.len()
            invariant
                i <= self.content@.len(),
                contents_model(content@) == contents_model(self.content@.take(i as int)),
            decreases self.content@.len() - i,
        {
            proof {
                assert(decreases_to!(self => self.content[i as int]));
            }
            let c = self.content[i].clone();
            proof {
                lemma_contents_push(content@, c);
                lemma_contents_push(self.content@.take(i as int), self.content@[i as int]);
                assert(self.content@.take(i + 1) =~= self.content@.take(i as int).push(
                    self.content@[i as int],
                ));
            }
            content.push(c);
            i = i + 1;
        }
        proof {
            assert(self.content@.take(self.content@.len() as int) =~= self.content@);
        }
        Module { name: self.name.clone(), content }
    }
}

impl Clone for ModuleContent {
    fn clone(&self) -> (r: Self)
        ensures
            r@ == self@,
        decreases self,
    {
        match self {
            ModuleContent::Module(m) => ModuleContent::Module(Box::new((**m).clone())),
            ModuleContent::Struct(s) => ModuleContent::Struct(s.clone()),
            ModuleContent::BitSet(b) => ModuleContent::BitSet(b.clone()),
        }
    }
}

impl Clone for Struct {
    fn clone(&self) -> (r: Self)
        ensures
            r@ == self@,
    {
        let mut fields: Vec<Field> = Vec::new();
        let mut i: usize = 0;
        while i < self.fields.len()
            invariant
                i <= self.fields@.len(),
                fields_view(fields@) == fields_view(self.fields@.take(i as int)),
            decreases self.fields@.len() - i,
        {
            let f = self.fields[i].clone();
            proof {
                assert(fields_view(fields@.push(f)) =~= fields_view(fields@).push(f@));
                assert(fields_view(self.fields@.take(i + 1)) =~= fields_view(
                    self.fields@.take(i as int),
                ).push(self.fields@[i as int]@));
            }
            fields.push(f);
            i = i + 1;
        }
        proof {
            assert(self.fields@.take(self.fields@.len() as int) =~= self.fields@);
        }
        Struct { name: self.name.clone(), fields }
    }
}

impl Clone for Field {
    fn clone(&self) -> (r: Self)
        ensures
            r@ == self@,
    {
        let mut annotations: Vec<Annotation> = Vec::new();
        let mut i: usize = 0;
        while i < self.annotations.len()
            invariant
                i <= self.annotations@.len(),
                annotations_view(annotations@) == annotations_view(
                    self.annotations@.take(i as int),
                ),
            decreases self.annotations@.len() - i,
        {
            let a = self.annotations[i].clone();
            proof {
                assert(annotations_view(annotations@.push(a)) =~= annotations_view(
                    annotations@,
                ).push(a@));
                assert(annotations_view(self.annotations@.take(i + 1)) =~= annotations_view(
                    self.annotations@.take(i as int),
                ).push(self.annotations@[i as int]@));
            }
            annotations.push(a);
            i = i + 1;
        }
        proof {
            assert(self.annotations@.take(self.annotations@.len() as int) =~= self.annotations@);
        }
        Field { annotations, field_type: self.field_type.clone(), name: self.name.clone() }
    }
}

impl Clone for Annotation {
    fn clone(&self) -> (r: Self)
        ensures
            r@ == self@,
    {
        Annotation { name: self.name.clone(), values: self.values.clone() }
    }
}

impl Clone for BitSet {
    fn clone(&self) -> (r: Self)
        ensures
            r@ == self@,
    {
        let mut fields: Vec<BitSetField> = Vec::new();
        let mut i: usize = 0;
        while i < self.fields.len()
            invariant
                i <= self.fields@.len(),
                bitfields_view(fields@) == bitfields_view(self.fields@.take(i as int)),
            decreases self.fields@.len() - i,
        {
            let f = self.fields[i].clone();
            proof {
                assert(bitfields_view(fields@.push(f)) =~= bitfields_view(fields@).push(f@));
                assert(bitfields_view(self.fields@.take(i + 1)) =~= bitfields_view(
                    self.fields@.take(i as int),
                ).push(self.fields@[i as int]@));
            }
            fields.push(f);
            i = i + 1;
        }
        proof {
            assert(self.fields@.take(self.fields@.len() as int) =~= self.fields@);
        }
        BitSet { name: self.name.clone(), fields }
    }
}

impl Clone for BitSetField {
    fn clone(&self) -> (r: Self)
        ensures
            r@ == self@,
    {
        BitSetField { width: self.width, name: self.name.clone() }
    }
}

impl Clone for TypeRef {
    fn clone(&self) -> (r: Self)
        ensures
            r == *self,
        decreases self,
    {
        match self {
            TypeRef::Octet => TypeRef::Octet,
            TypeRef::Short => TypeRef::Short,
            TypeRef::UnsignedShort => TypeRef::UnsignedShort,
            TypeRef::Long => TypeRef::Long,
            TypeRef::UnsignedLong => TypeRef::UnsignedLong,
            TypeRef::LongLong => TypeRef::LongLong,
            TypeRef::UnsignedLongLong => TypeRef::UnsignedLongLong,
            TypeRef::Float => TypeRef::Float,
            TypeRef::Double => TypeRef::Double,
            TypeRef::Boolean => TypeRef::Boolean,
            TypeRef::String { length } => TypeRef::String { length: *length },
            TypeRef::Array { inner, size } => {
                let c = (**inner).clone();
                TypeRef::Array { inner: Box::new(c), size: *size }
            },
            TypeRef::Sequence { inner } => {
                let c = (**inner).clone();
                TypeRef::Sequence { inner: Box::new(c) }
            },
            TypeRef::BitField { width } => TypeRef::BitField { width: *width },
            TypeRef::TypeName { name } => TypeRef::TypeName { name: name.clone() },
        }
    }
}

// ---------------------------------------------------------------------------
// Models
// ---------------------------------------------------------------------------

/// Model of a [`TypeRef`].
pub ghost enum TypeModel {
    Octet,
    Short,
    UnsignedShort,
    Long,
    UnsignedLong,
    LongLong,
    UnsignedLongLong,
    Float,
    Double,
    Boolean,
    Str(Option<u32>),
    Array(Box<TypeModel>, u32),
    Sequence(Box<TypeModel>),
    BitField(u8),
    TypeName(Seq<char>),
}

/// Model of an [`Annotation`]: its name and its key/value map.
pub ghost struct AnnotationModel {
    pub name: Seq<char>,
    pub values: Map<Seq<char>, Seq<char>>,
}

/// Model of a [`Field`].
pub ghost struct FieldModel {
    pub annotations: Seq<AnnotationModel>,
    pub field_type: TypeModel,
    pub name: Seq<char>,
}

/// Model of a [`Struct`].
pub ghost struct StructModel {
    pub name: Seq<char>,
    pub fields: Seq<FieldModel>,
}

/// Model of a [`BitSetField`].
pub ghost struct BitSetFieldModel {
    pub width: u8,
    pub name: Seq<char>,
}

/// Model of a [`BitSet`].
pub ghost struct BitSetModel {
    pub name: Seq<char>,
    pub fields: Seq<BitSetFieldModel>,
}

/// Model of a [`ModuleContent`].
pub ghost enum ContentModel {
    Module(Box<ModuleModel>),
    Struct(StructModel),
    BitSet(BitSetModel),
}

/// Model of a [`Module`].
pub ghost struct ModuleModel {
    pub name: Seq<char>,
    pub content: Seq<ContentModel>,
}

// ---------------------------------------------------------------------------
// Views
// ---------------------------------------------------------------------------

pub open spec fn type_model(t: TypeRef) -> TypeModel
    decreases t,
{
    match t {
        TypeRef::Octet => TypeModel::Octet,
        TypeRef::Short => TypeModel::Short,
        TypeRef::UnsignedShort => TypeModel::UnsignedShort,
        TypeRef::Long => TypeModel::Long,
        TypeRef::UnsignedLong => TypeModel::UnsignedLong,
        TypeRef::LongLong => TypeModel::LongLong,
        TypeRef::UnsignedLongLong => TypeModel::UnsignedLongLong,
        TypeRef::Float => TypeModel::Float,
        TypeRef::Double => TypeModel::Double,
        TypeRef::Boolean => TypeModel::Boolean,
        TypeRef::String { length } => TypeModel::Str(length),
        TypeRef::Array { inner, size } => TypeModel::Array(Box::new(type_model(*inner)), size),
        TypeRef::Sequence { inner } => TypeModel::Sequence(Box::new(type_model(*inner))),
        TypeRef::BitField { width } => TypeModel::BitField(width),
        TypeRef::TypeName { name } => TypeModel::TypeName(name@),
    }
}

impl View for TypeRef {
    type V = TypeModel;

    open spec fn view(&self) -> TypeModel {
        type_model(*self)
    }
}

/// Whether no key occurs twice among `entries`.
pub open spec fn keys_unique(entries: Seq<(String, String)>) -> bool {
    forall|i: int, j: int|
        0 <= i < entries.len() && 0 <= j < entries.len() && i != j ==> entries[i].0@
            != entries[j].0@
}

/// Whether `k` is the key of some entry.
pub open spec fn has_key(entries: Seq<(String, String)>, k: Seq<char>) -> bool {
    exists|i: int| 0 <= i < entries.len() && entries[i].0@ == k
}

/// The map that a list of entries with unique keys stands for.
pub open spec fn entries_map(entries: Seq<(String, String)>) -> Map<Seq<char>, Seq<char>> {
    Map::new(
        |k: Seq<char>| has_key(entries, k),
        |k: Seq<char>| entries[choose|i: int| 0 <= i < entries.len() && entries[i].0@ == k].1@,
    )
}

impl AnnotationValues {
    #[verifier::type_invariant]
    spec fn inv(self) -> bool {
        keys_unique(self.entries@)
    }

    /// The entries in the order in which their keys first appeared.
    pub closed spec fn spec_entries(self) -> Seq<(String, String)> {
        self.entries@
    }
}

impl View for AnnotationValues {
    type V = Map<Seq<char>, Seq<char>>;

    closed spec fn view(&self) -> Map<Seq<char>, Seq<char>> {
        entries_map(self.entries@)
    }
}

impl View for Annotation {
    type V = AnnotationModel;

    open spec fn view(&self) -> AnnotationModel {
        AnnotationModel { name: self.name@, values: self.values@ }
    }
}

pub open spec fn annotations_view(v: Seq<Annotation>) -> Seq<AnnotationModel> {
    v.map_values(|a: Annotation| a@)
}

impl View for Field {
    type V = FieldModel;

    open spec fn view(&self) -> FieldModel {
        FieldModel {
            annotations: annotations_view(self.annotations@),
            field_type: self.field_type@,
            name: self.name@,
        }
    }
}

pub open spec fn fields_view(v: Seq<Field>) -> Seq<FieldModel> {
    v.map_values(|f: Field| f@)
}

impl View for Struct {
    type V = StructModel;

    open spec fn view(&self) -> StructModel {
        StructModel { name: self.name@, fields: fields_view(self.fields@) }
    }
}

impl View for BitSetField {
    type V = BitSetFieldModel;

    open spec fn view(&self) -> BitSetFieldModel {
        BitSetFieldModel { width: self.width, name: self.name@ }
    }
}

pub open spec fn bitfields_view(v: Seq<BitSetField>) -> Seq<BitSetFieldModel> {
    v.map_values(|f: BitSetField| f@)
}

impl View for BitSet {
    type V = BitSetModel;

    open spec fn view(&self) -> BitSetModel {
        BitSetModel { name: self.name@, fields: bitfields_view(self.fields@) }
    }
}

pub open spec fn module_model(m: Module) -> ModuleModel
    decreases m,
{
    ModuleModel { name: m.name@, content: contents_model(m.content@) }
}

pub open spec fn contents_model(v: Seq<ModuleContent>) -> Seq<ContentModel>
    decreases v,
{
    Seq::new(
        v.len(),
        |i: int|
            if 0 <= i < v.len() {
                content_model(v[i])
            } else {
                ContentModel::BitSet(BitSetModel { name: Seq::empty(), fields: Seq::empty() })
            },
    )
}

pub open spec fn content_model(c: ModuleContent) -> ContentModel
    decreases c,
{
    match c {
        ModuleContent::Module(b) => ContentModel::Module(Box::new(module_model(*b))),
        ModuleContent::Struct(s) => ContentModel::Struct(s@),
        ModuleContent::BitSet(b) => ContentModel::BitSet(b@),
    }
}

impl View for Module {
    type V = ModuleModel;

    open spec fn view(&self) -> ModuleModel {
        module_model(*self)
    }
}

impl View for ModuleContent {
    type V = ContentModel;

    open spec fn view(&self) -> ContentModel {
        content_model(*self)
    }
}

pub proof fn lemma_contents_push(v: Seq<ModuleContent>, c: ModuleContent)
    ensures
        contents_model(v.push(c)) == contents_model(v).push(content_model(c)),
{
    assert(contents_model(v.push(c)) =~= contents_model(v).push(content_model(c)));
}

// ---------------------------------------------------------------------------
// AnnotationValues operations
// ---------------------------------------------------------------------------

impl AnnotationValues {
    /// An empty set of values.
    pub fn new() -> (r: AnnotationValues)
        ensures
            r@ == Map::<Seq<char>, Seq<char>>::empty(),
            r.spec_entries().len() == 0,
    {
        let r = AnnotationValues { entries: Vec::new() };
        assert(r@ =~= Map::<Seq<char>, Seq<char>>::empty());
        r
    }

    /// Index of the entry with key `key`, if any.
    fn find(&self, key: &str) -> (r: Option<usize>)
        ensures
            match r {
                Some(i) => i < self.entries@.len() && self.entries@[i as int].0@ == key@,
                None => !has_key(self.entries@, key@),
            },
    {
        let k = key.to_owned();
        let mut i: usize = 0;
        while i < self.entries.len()
            invariant
                i <= self.entries@.len(),
                k@ == key@,
                forall|j: int| 0 <= j < i ==> self.entries@[j].0@ != key@,
            decreases self.entries@.len() - i,
        {
            let e = &self.entries[i];
            let same = e.0.eq(&k);
            assert(same == (e.0@ == k@));
            if same {
                return Some(i);
            }
            i = i + 1;
        }
        None
    }

    /// The value stored for `key`, if any.
    pub fn get(&self, key: &str) -> (r: Option<&String>)
        ensures
            match r {
                Some(v) => self@.contains_key(key@) && self@[key@] == v@,
                None => !self@.contains_key(key@),
            },
    {
        proof {
            use_type_invariant(self);
        }
        match self.find(key) {
            Some(i) => {
                let ghost k = key@;
                let ghost e = self.entries@;
                assert(has_key(e, k));
                let ghost c = choose|j: int| 0 <= j < e.len() && e[j].0@ == k;
                assert(c == i as int);
                Some(&self.entries[i].1)
            },
            None => None,
        }
    }

    /// Whether every key of `self` is in `other` with the same value.
    fn contained_in(&self, other: &AnnotationValues) -> (r: bool)
        ensures
            r <==> forall|k: Seq<char>|
                #![trigger self@.contains_key(k)]
                self@.contains_key(k) ==> other@.contains_key(k) && other@[k] == self@[k],
    {
        proof {
            use_type_invariant(self);
        }
        let ghost e = self.entries@;
        let mut i: usize = 0;
        while i < self.entries.len()
            invariant
                i <= e.len(),
                e == self.entries@,
                keys_unique(e),
                forall|j: int|
                    0 <= j < i ==> other@.contains_key(#[trigger] e[j].0@) && other@[e[j].0@]
                        == e[j].1@,
            decreases e.len() - i,
        {
            let entry = &self.entries[i];
            match other.get(entry.0.as_str()) {
                Some(v) => {
                    if !v.eq(&entry.1) {
                        proof {
                            let k = e[i as int].0@;
                            assert(has_key(e, k));
                            let c = choose|j: int| 0 <= j < e.len() && e[j].0@ == k;
                            assert(c == i as int);
                            assert(self@.contains_key(k) && self@[k] == e[i as int].1@);
                        }
                        return false;
                    }
                },
                None => {
                    proof {
                        let k = e[i as int].0@;
                        assert(has_key(e, k));
                        assert(self@.contains_key(k));
                    }
                    return false;
                },
            }
            i = i + 1;
        }
        proof {
            assert forall|k: Seq<char>| #[trigger] self@.contains_key(k) implies other@.contains_key(k)
                && other@[k] == self@[k] by {
                let c = choose|j: int| 0 <= j < e.len() && e[j].0@ == k;
                assert(e[c].0@ == k);
            }
        }
        true
    }

    /// Number of keys.
    pub fn len(&self) -> (r: usize)
        ensures
            r == self@.dom().len(),
    {
        proof {
            use_type_invariant(self);
            lemma_entries_map_len(self.entries@);
        }
        self.entries.len()
    }

    /// Whether there are no keys.
    pub fn is_empty(&self) -> (r: bool)
        ensures
            r == (self@.dom().len() == 0),
            r == (self@ == Map::<Seq<char>, Seq<char>>::empty()),
    {
        proof {
            use_type_invariant(self);
            lemma_entries_map_len(self.entries@);
            if self.entries@.len() > 0 {
                assert(self@.contains_key(self.entries@[0].0@));
            } else {
                assert(self@ =~= Map::<Seq<char>, Seq<char>>::empty());
            }
        }
        self.entries.len() == 0
    }

    /// Stores `value` under `key`, replacing any earlier value.
    pub fn insert(&mut self, key: String, value: String)
        ensures
            final(self)@ == old(self)@.insert(key@, value@),
    {
        proof {
            use_type_invariant(&*self);
        }
        let ghost old_e = self.entries@;
        let ghost k = key@;
        let ghost val = value@;
        match self.find(key.as_str()) {
            Some(i) => {
                let mut entries = Vec::new();
                std::mem::swap(&mut entries, &mut self.entries);
                entries.set(i, (key, value));
                let ghost new_e = entries@;
                proof {
                    assert(keys_unique(new_e));
                    assert forall|kk: Seq<char>| has_key(new_e, kk) == (has_key(old_e, kk) || kk == k) by {
                        if has_key(old_e, kk) {
                            let j = choose|j: int| 0 <= j < old_e.len() && old_e[j].0@ == kk;
                            if j != i as int {
                                assert(new_e[j].0@ == kk);
                            } else {
                                assert(new_e[i as int].0@ == kk);
                            }
                        }
                        if has_key(new_e, kk) {
                            let j = choose|j: int| 0 <= j < new_e.len() && new_e[j].0@ == kk;
                            if j != i as int {
                                assert(old_e[j].0@ == kk);
                            }
                        }
                    }
                    assert(entries_map(new_e) =~= entries_map(old_e).insert(k, val)) by {
                        assert forall|kk: Seq<char>| #[trigger] entries_map(new_e).contains_key(kk)
                            implies entries_map(new_e)[kk] == entries_map(old_e).insert(k, val)[kk] by {
                            let j = choose|j: int| 0 <= j < new_e.len() && new_e[j].0@ == kk;
                            if kk == k {
                                assert(j == i as int);
                            } else {
                                let j2 = choose|j: int| 0 <= j < old_e.len() && old_e[j].0@ == kk;
                                assert(j != i as int);
                                assert(j2 != i as int);
                                assert(old_e[j].0@ == kk);
                                assert(j2 == j);
                            }
                        }
                    }
                }
                self.entries = entries;
            },
            None => {
                let mut entries = Vec::new();
                std::mem::swap(&mut entries, &mut self.entries);
                entries.push((key, value));
                let ghost new_e = entries@;
                proof {
                    assert(new_e[old_e.len() as int].0@ == k);
                    assert forall|kk: Seq<char>| has_key(new_e, kk) == (has_key(old_e, kk) || kk == k) by {
                        if has_key(old_e, kk) {
                            let j = choose|j: int| 0 <= j < old_e.len() && old_e[j].0@ == kk;
                            assert(new_e[j].0@ == kk);
                        }
                        if has_key(new_e, kk) {
                            let j = choose|j: int| 0 <= j < new_e.len() && new_e[j].0@ == kk;
                            if j < old_e.len() {
                                assert(old_e[j].0@ == kk);
                            }
                        }
                    }
                    assert(entries_map(new_e) =~= entries_map(old_e).insert(k, val)) by {
                        assert forall|kk: Seq<char>| #[trigger] entries_map(new_e).contains_key(kk)
                            implies entries_map(new_e)[kk] == entries_map(old_e).insert(k, val)[kk] by {
                            let j = choose|j: int| 0 <= j < new_e.len() && new_e[j].0@ == kk;
                            if kk == k {
                                assert(j == old_e.len() as int);
                            } else {
                                let j2 = choose|j: int| 0 <= j < old_e.len() && old_e[j].0@ == kk;
                                assert(old_e[j2].0@ == kk);
                                assert(new_e[j2].0@ == kk);
                                assert(j2 == j);
                            }
                        }
                    }
                }
                self.entries = entries;
            },
        }
    }
}

/// The map of unique-key entries has one key per entry.
pub proof fn lemma_entries_map_len(entries: Seq<(String, String)>)
    requires
        keys_unique(entries),
    ensures
        entries_map(entries).dom().finite(),
        entries_map(entries).dom().len() == entries.len(),
    decreases entries.len(),
{
    let m = entries_map(entries);
    if entries.len() == 0 {
        assert(m.dom() =~= Set::<Seq<char>>::empty());
    } else {
        let init = entries.drop_last();
        let last = entries.last().0@;
        lemma_entries_map_len(init);
        assert(m.dom() =~= entries_map(init).dom().insert(last)) by {
            assert forall|k: Seq<char>| m.dom().contains(k) <==> entries_map(init).dom().insert(
                last,
            ).contains(k) by {
                if has_key(entries, k) {
                    let j = choose|j: int| 0 <= j < entries.len() && entries[j].0@ == k;
                    if j < init.len() {
                        assert(init[j].0@ == k);
                    }
                }
                if has_key(init, k) {
                    let j = choose|j: int| 0 <= j < init.len() && init[j].0@ == k;
                    assert(entries[j].0@ == k);
                }
                if k == last {
                    assert(entries[entries.len() - 1].0@ == k);
                }
            }
        }
        assert(!entries_map(init).dom().contains(last)) by {
            if has_key(init, last) {
                let j = choose|j: int| 0 <= j < init.len() && init[j].0@ == last;
                assert(entries[j].0@ == last);
            }
        }
    }
}

} // verus!
