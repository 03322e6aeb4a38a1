//! Type identities and structural type definitions.
//!
//! A [`TypeDefinition`] is a tree: records and unions hold named fields,
//! sequences, maps and optionals hold other definitions, and a reference
//! names another type by its [`TypeId`]. The mathematical model of a
//! definition is its [`Shape`]; every contract in this crate speaks of shapes.

use vstd::prelude::*;

verus! {

/// The identity of a named type: its exported name.
///
/// Two registrations of one logical type carry the same name, so they resolve
/// to the same identity whatever the order of registration, and distinct
/// identities give distinct generated identifiers.
#[derive(Debug)]
pub struct TypeId {
    pub name: String,
}

impl View for TypeId {
    type V = Seq<char>;

    open spec fn view(&self) -> Seq<char> {
        self.name@
    }
}

/// The names of a sequence of identities, in order.
pub open spec fn id_names(ids: Seq<TypeId>) -> Seq<Seq<char>> {
    ids.map_values(|id: TypeId| id@)
}

impl TypeId {
    pub fn new(name: String) -> (id: TypeId)
        ensures
            id@ == name@,
    {
        TypeId { name }
    }

    pub fn duplicate(&self) -> (id: TypeId)
        ensures
            id == *self,
    {
        TypeId { name: self.name.clone() }
    }

    pub fn same(&self, other: &TypeId) -> (r: bool)
        ensures
            r == (self@ == other@),
    {
        self.name == other.name
    }
}

/// The types that the target language has built in.
#[derive(Clone, Copy, Debug, PartialEq, Eq, Structural)]
pub enum Primitive {
    Boolean,
    Number,
    BigInt,
    String,
    Null,
    Any,
}

/// The structural shape of a type.
#[derive(Debug)]
pub enum TypeDefinition {
    Primitive(Primitive),
    /// An object with the given fields, in order.
    Record(Vec<Field>),
    /// A tagged union: each variant is an object whose single key is the
    /// variant's name and whose value has the variant's type.
    Union(Vec<Field>),
    Sequence(Box<TypeDefinition>),
    /// A map from keys of the first type to values of the second.
    Dictionary(Box<TypeDefinition>, Box<TypeDefinition>),
    Optional(Box<TypeDefinition>),
    /// Another named type, by identity.
    Reference(TypeId),
}

/// A named member of a record, a variant of a union, or a parameter.
#[derive(Debug)]
pub struct Field {
    pub name: String,
    pub ty: TypeDefinition,
}

/// The mathematical model of a [`TypeDefinition`].
pub enum Shape {
    Primitive(Primitive),
    Record(Seq<FieldShape>),
    Union(Seq<FieldShape>),
    Sequence(Box<Shape>),
    Dictionary(Box<Shape>, Box<Shape>),
    Optional(Box<Shape>),
    Reference(Seq<char>),
}

/// The mathematical model of a [`Field`].
pub struct FieldShape {
    pub name: Seq<char>,
    pub ty: Shape,
}

impl TypeDefinition {
    pub open spec fn shape(&self) -> Shape
        decreases self,
    {
        match self {
            TypeDefinition::Primitive(p) => Shape::Primitive(*p),
            TypeDefinition::Record(fields) => Shape::Record(field_shapes(fields@)),
            TypeDefinition::Union(fields) => Shape::Union(field_shapes(fields@)),
            TypeDefinition::Sequence(item) => Shape::Sequence(Box::new(item.shape())),
            TypeDefinition::Dictionary(key, value) => Shape::Dictionary(
                Box::new(key.shape()),
                Box::new(value.shape()),
            ),
            TypeDefinition::Optional(item) => Shape::Optional(Box::new(item.shape())),
            TypeDefinition::Reference(id) => Shape::Reference(id@),
        }
    }
}

impl View for TypeDefinition {
    type V = Shape;

    open spec fn view(&self) -> Shape {
        self.shape()
    }
}

impl View for Field {
    type V = FieldShape;

    open spec fn view(&self) -> FieldShape {
        FieldShape { name: self.name@, ty: self.ty@ }
    }
}

/// The shapes of a sequence of fields, in order.
pub open spec fn field_shapes(fields: Seq<Field>) -> Seq<FieldShape>
    decreases fields,
{
    if fields.len() == 0 {
        Seq::empty()
    } else {
        field_shapes(fields.drop_last()).push(
            FieldShape { name: fields.last().name@, ty: fields.last().ty.shape() },
        )
    }
}

/// `field_shapes` keeps the length and maps each field to its view.
pub proof fn lemma_field_shapes(fields: Seq<Field>)
    ensures
        field_shapes(fields).len() == fields.len(),
        forall|i: int| 0 <= i < fields.len() ==> (#[trigger] field_shapes(fields)[i]) == fields[i]@,
    decreases fields.len(),
{
    if fields.len() > 0 {
        lemma_field_shapes(fields.drop_last());
    }
}

/// The identities that a shape refers to, in the order in which they are
/// written, with repetitions.
pub open spec fn shape_refs(s: Shape) -> Seq<Seq<char>>
    decreases s,
{
    match s {
        Shape::Primitive(_) => Seq::empty(),
        Shape::Record(fields) => fields_refs(fields),
        Shape::Union(fields) => fields_refs(fields),
        Shape::Sequence(item) => shape_refs(*item),
        Shape::Dictionary(key, value) => shape_refs(*key) + shape_refs(*value),
        Shape::Optional(item) => shape_refs(*item),
        Shape::Reference(id) => seq![id],
    }
}

/// The identities that the types of a sequence of fields refer to, field
/// after field.
pub open spec fn fields_refs(fields: Seq<FieldShape>) -> Seq<Seq<char>>
    decreases fields,
{
    if fields.len() == 0 {
        Seq::empty()
    } else {
        fields_refs(fields.drop_last()) + shape_refs(fields.last().ty)
    }
}

/// The shapes of the first `i + 1` fields are those of the first `i`,
/// followed by the shape of field `i`.
pub proof fn lemma_field_shapes_take(fields: Seq<Field>, i: int)
    requires
        0 <= i < fields.len(),
    ensures
        field_shapes(fields.take(i + 1)) == field_shapes(fields.take(i)).push(fields[i]@),
        field_shapes(fields.take(fields.len() as int)) == field_shapes(fields),
{
    assert(fields.take(i + 1).drop_last() =~= fields.take(i));
    assert(fields.take(fields.len() as int) =~= fields);
}

/// The references of a sequence of fields, extended by one field.
pub proof fn lemma_fields_refs_push(fields: Seq<FieldShape>, field: FieldShape)
    ensures
        fields_refs(fields.push(field)) == fields_refs(fields) + shape_refs(field.ty),
{
    assert(fields.push(field).drop_last() =~= fields);
}

/// The names of a sequence of identities, extended by one identity.
pub proof fn lemma_id_names_push(ids: Seq<TypeId>, id: TypeId)
    ensures
        id_names(ids.push(id)) == id_names(ids).push(id@),
{
    assert(id_names(ids.push(id)) =~= id_names(ids).push(id@));
}

impl TypeDefinition {
    /// Whether two definitions are structurally identical.
    pub fn same(&self, other: &TypeDefinition) -> (r: bool)
        ensures
            r == (self@ == other@),
        decreases self,
    {
        match (self, other) {
            (TypeDefinition::Primitive(a), TypeDefinition::Primitive(b)) => *a == *b,
            (TypeDefinition::Record(a), TypeDefinition::Record(b)) => same_fields(a, b),
            (TypeDefinition::Union(a), TypeDefinition::Union(b)) => same_fields(a, b),
            (TypeDefinition::Sequence(a), TypeDefinition::Sequence(b)) => a.same(b),
            (TypeDefinition::Dictionary(ak, av), TypeDefinition::Dictionary(bk, bv)) => {
                ak.same(bk) && av.same(bv)
            },
            (TypeDefinition::Optional(a), TypeDefinition::Optional(b)) => a.same(b),
            (TypeDefinition::Reference(a), TypeDefinition::Reference(b)) => a.same(b),
            _ => false,
        }
    }

    /// A copy with the same shape.
    pub fn duplicate(&self) -> (r: TypeDefinition)
        ensures
            r@ == self@,
        decreases self,
    {
        match self {
            TypeDefinition::Primitive(p) => TypeDefinition::Primitive(*p),
            TypeDefinition::Record(fields) => TypeDefinition::Record(duplicate_fields(fields)),
            TypeDefinition::Union(fields) => TypeDefinition::Union(duplicate_fields(fields)),
            TypeDefinition::Sequence(item) => TypeDefinition::Sequence(Box::new(item.duplicate())),
            TypeDefinition::Dictionary(key, value) => TypeDefinition::Dictionary(
                Box::new(key.duplicate()),
                Box::new(value.duplicate()),
            ),
            TypeDefinition::Optional(item) => TypeDefinition::Optional(Box::new(item.duplicate())),
            TypeDefinition::Reference(id) => TypeDefinition::Reference(id.duplicate()),
        }
    }

    /// Appends to `out` the identities that this definition refers to, in the
    /// order in which they are written.
    pub fn collect_refs(&self, out: &mut Vec<TypeId>)
        ensures
            id_names(final(out)@) == id_names(old(out)@) + shape_refs(self@),
        decreases self,
    {
        match self {
            TypeDefinition::Primitive(_) => {
                assert(id_names(out@) =~= id_names(out@) + shape_refs(self@));
            },
            TypeDefinition::Record(fields) => collect_fields_refs(fields, out),
            TypeDefinition::Union(fields) => collect_fields_refs(fields, out),
            TypeDefinition::Sequence(item) => item.collect_refs(out),
            TypeDefinition::Dictionary(key, value) => {
                key.collect_refs(out);
                value.collect_refs(out);
                assert(id_names(out@) =~= id_names(old(out)@) + shape_refs(self@));
            },
            TypeDefinition::Optional(item) => item.collect_refs(out),
            TypeDefinition::Reference(id) => {
                proof {
                    lemma_id_names_push(out@, *id);
                }
                out.push(id.duplicate());
                assert(id_names(out@) =~= id_names(old(out)@) + shape_refs(self@));
            },
        }
    }

    /// The identities that this definition refers to, in the order in which
    /// they are written.
    pub fn references(&self) -> (refs: Vec<TypeId>)
        ensures
            id_names(refs@) == shape_refs(self@),
    {
        let mut refs: Vec<TypeId> = Vec::new();
        self.collect_refs(&mut refs);
        assert(id_names(refs@) =~= shape_refs(self@));
        refs
    }
}

impl Field {
    pub fn new(name: String, ty: TypeDefinition) -> (field: Field)
        ensures
            field@ == (FieldShape { name: name@, ty: ty@ }),
    {
        Field { name, ty }
    }

    /// A copy with the same shape.
    pub fn duplicate(&self) -> (r: Field)
        ensures
            r@ == self@,
    {
        Field { name: self.name.clone(), ty: self.ty.duplicate() }
    }
}

/// Whether two sequences of fields have the same names and structurally
/// identical types, position by position.
pub fn same_fields(a: &Vec<Field>, b: &Vec<Field>) -> (r: bool)
    ensures
        r == (field_shapes(a@) == field_shapes(b@)),
    decreases a,
{
    proof {
        lemma_field_shapes(a@);
        lemma_field_shapes(b@);
    }
    if a.len() != b.len() {
        return false;
    }
    let mut i: usize = 0;
    while i < a.len()
        invariant
            i <= a.len(),
            a.len() == b.len(),
            forall|j: int| 0 <= j < i ==> a@[j]@ == b@[j]@,
            field_shapes(a@).len() == a.len(),
            field_shapes(b@).len() == b.len(),
            forall|j: int| 0 <= j < a.len() ==> (#[trigger] field_shapes(a@)[j]) == a@[j]@,
            forall|j: int| 0 <= j < b.len() ==> (#[trigger] field_shapes(b@)[j]) == b@[j]@,
        decreases a.len() - i,
    {
        if !(a[i].name == b[i].name) || !a[i].ty.same(&b[i].ty) {
            assert(field_shapes(a@)[i as int] != field_shapes(b@)[i as int]);
            return false;
        }
        i += 1;
    }
    assert(field_shapes(a@) =~= field_shapes(b@));
    true
}

/// A copy of a sequence of fields with the same shapes.
pub fn duplicate_fields(fields: &Vec<Field>) -> (r: Vec<Field>)
    ensures
        field_shapes(r@) == field_shapes(fields@),
    decreases fields,
{
    let mut r: Vec<Field> = Vec::new();
    let mut i: usize = 0;
    while i < fields.len()
        invariant
            i <= fields.len(),
            r.len() == i,
            forall|j: int| 0 <= j < i ==> r@[j]@ == fields@[j]@,
        decreases fields.len() - i,
    {
        let name = fields[i].name.clone();
        let ty = fields[i].ty.duplicate();
        r.push(Field { name, ty });
        i += 1;
    }
    proof {
        lemma_field_shapes(r@);
        lemma_field_shapes(fields@);
        assert(field_shapes(r@) =~= field_shapes(fields@));
    }
    r
}

/// Appends to `out` the identities that the types of `fields` refer to, field
/// after field.
pub fn collect_fields_refs(fields: &Vec<Field>, out: &mut Vec<TypeId>)
    ensures
        id_names(final(out)@) == id_names(old(out)@) + fields_refs(field_shapes(fields@)),
    decreases fields,
{
    let mut i: usize = 0;
    assert(id_names(out@) =~= id_names(old(out)@) + fields_refs(field_shapes(fields@.take(0))));
    while i < fields.len()
        invariant
            i <= fields.len(),
            id_names(out@) == id_names(old(out)@) + fields_refs(
                field_shapes(fields@.take(i as int)),
            ),
        decreases fields.len() - i,
    {
        let ghost before = out@;
        fields[i].ty.collect_refs(out);
        proof {
            lemma_field_shapes_take(fields@, i as int);
            lemma_fields_refs_push(field_shapes(fields@.take(i as int)), fields@[i as int]@);
            assert(id_names(out@) =~= id_names(old(out)@) + fields_refs(
                field_shapes(fields@.take(i + 1)),
            ));
        }
        i += 1;
    }
    assert(fields@.take(fields.len() as int) =~= fields@);
}

/// How an integer type that a JavaScript number cannot hold is written.
#[derive(Clone, Copy, Debug, PartialEq, Eq, Structural)]
pub enum BigIntExportBehavior {
    /// As a string.
    String,
    /// As a number, at the risk of losing digits.
    Number,
    /// As a big integer.
    BigInt,
    /// Not at all: a type that holds one is refused.
    Fail,
}

/// The built-in type for a wide integer under `behavior`, where there is
/// one.
pub open spec fn wide_integer_of(behavior: BigIntExportBehavior) -> Option<Primitive> {
    match behavior {
        BigIntExportBehavior::String => Some(Primitive::String),
        BigIntExportBehavior::Number => Some(Primitive::Number),
        BigIntExportBehavior::BigInt => Some(Primitive::BigInt),
        BigIntExportBehavior::Fail => None,
    }
}

/// The built-in type for a wide integer under `behavior`, or `None` where
/// wide integers are refused.
pub fn wide_integer(behavior: BigIntExportBehavior) -> (p: Option<Primitive>)
    ensures
        p == wide_integer_of(behavior),
{
    match behavior {
        BigIntExportBehavior::String => Some(Primitive::String),
        BigIntExportBehavior::Number => Some(Primitive::Number),
        BigIntExportBehavior::BigInt => Some(Primitive::BigInt),
        BigIntExportBehavior::Fail => None,
    }
}

/// The shape of members without names of their own: none is the null type,
/// one alone is its own type, and several are a record of them.
pub open spec fn positional_shape(members: Seq<FieldShape>) -> Shape {
    if members.len() == 0 {
        Shape::Primitive(Primitive::Null)
    } else if members.len() == 1 {
        members[0].ty
    } else {
        Shape::Record(members)
    }
}

/// The definition for members without names of their own, which come under
/// their positions as names.
pub fn positional(members: Vec<Field>) -> (definition: TypeDefinition)
    ensures
        definition@ == positional_shape(field_shapes(members@)),
{
    proof {
        lemma_field_shapes(members@);
    }
    let mut members = members;
    if members.len() == 0 {
        TypeDefinition::Primitive(Primitive::Null)
    } else if members.len() == 1 {
        let only = members.pop().unwrap();
        only.ty
    } else {
        TypeDefinition::Record(members)
    }
}

/// A member of the type `ty`, or of the optional of it where the member may
/// be left out.
pub fn member(name: String, ty: TypeDefinition, optional: bool) -> (field: Field)
    ensures
        field@.name == name@,
        field@.ty == (if optional {
            Shape::Optional(Box::new(ty@))
        } else {
            ty@
        }),
{
    if optional {
        Field { name, ty: TypeDefinition::Optional(Box::new(ty)) }
    } else {
        Field { name, ty }
    }
}

} // verus!
