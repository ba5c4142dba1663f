//! The schema-inference engine: sample documents are widened into an aggregate
//! of shapes, and the aggregate is turned into a schema of structs and enums.

pub mod criteria;
pub mod laws;
pub mod model;
pub mod render;
pub mod text;
pub mod types;
pub mod value;

use vstd::prelude::*;
use crate::schema::criteria::Criteria;
use crate::schema::laws::{law_schema_closed, within};
use crate::schema::model::{
    empty_model, merge, shapes, types_wf, variants, SchemeModel, TypeModel, TypesModel,
};
use crate::schema::value::{value_shapes, Value};
use crate::schema::text::{lemma_lex_total, lemma_lex_transitive, lex_less, str_less};
use crate::schema::types::{ObjectScheme, Type, Types};

verus! {

/// The canonical type of one position.
#[derive(Debug, PartialEq, Eq)]
pub struct SchemaType {
    pub is_nullable: bool,
    pub typ: SchemaTypes,
}

/// The canonical shape of one position. `Unit` stands for a position at which
/// no shape but null was seen.
#[derive(Debug, PartialEq, Eq)]
pub enum SchemaTypes {
    Unit,
    Bool,
    U64,
    I64,
    Float,
    String,
    Array(Box<SchemaType>),
    Struct(u64),
    Enum(u64),
}

/// The tag of one arm of an enum.
#[derive(Debug, PartialEq, Eq)]
pub enum Variant {
    Primitive(String),
    Struct(u64),
    Enum(u64),
}

/// A struct definition: its fields in the order of their names.
#[derive(Debug, PartialEq, Eq)]
pub struct Struct(pub Vec<(String, SchemaType)>);

/// An enum definition: its arms in the order of their tags.
#[derive(Debug, PartialEq, Eq)]
pub struct Enum(pub Vec<(Variant, SchemaTypes)>);

/// One entry of the table of definitions. The id of a definition is its index.
#[derive(Debug, PartialEq, Eq)]
pub enum Definition {
    /// The id is taken, the definition is still being built.
    Pending,
    Struct(Struct),
    Enum(Enum),
}

/// Collects the definitions while an aggregate is canonicalized.
#[derive(Debug)]
pub struct SchemaBuilder {
    pub defs: Vec<Definition>,
}

/// The finished schema: the type of the root and the table of definitions.
#[derive(Debug, PartialEq, Eq)]
pub struct Schema {
    pub root: SchemaType,
    pub defs: Vec<Definition>,
}

/// The tag of an arm, as contracts see it.
pub ghost enum VariantModel {
    Primitive(Seq<char>),
    Struct(u64),
    Enum(u64),
}

/// One entry of the table of definitions, as contracts see it.
pub ghost enum Def {
    Pending,
    Struct(Seq<(Seq<char>, SchemaType)>),
    Enum(Seq<(VariantModel, SchemaTypes)>),
}

/// The tag under which a shape stands in an enum.
pub open spec fn variant_of(t: SchemaTypes) -> VariantModel {
    match t {
        SchemaTypes::Unit => VariantModel::Primitive("Unit"@),
        SchemaTypes::Bool => VariantModel::Primitive("Bool"@),
        SchemaTypes::U64 => VariantModel::Primitive("U64"@),
        SchemaTypes::I64 => VariantModel::Primitive("I64"@),
        SchemaTypes::Float => VariantModel::Primitive("Float"@),
        SchemaTypes::String => VariantModel::Primitive("String"@),
        SchemaTypes::Array(_) => VariantModel::Primitive("Array"@),
        SchemaTypes::Struct(id) => VariantModel::Struct(id),
        SchemaTypes::Enum(id) => VariantModel::Enum(id),
    }
}

/// The order of tags: the named kinds by name, then the structs by id, then
/// the enums by id.
pub open spec fn tag_less(a: VariantModel, b: VariantModel) -> bool {
    match a {
        VariantModel::Primitive(x) => match b {
            VariantModel::Primitive(y) => lex_less(x, y),
            _ => true,
        },
        VariantModel::Struct(i) => match b {
            VariantModel::Primitive(_) => false,
            VariantModel::Struct(j) => i < j,
            VariantModel::Enum(_) => true,
        },
        VariantModel::Enum(i) => match b {
            VariantModel::Enum(j) => i < j,
            _ => false,
        },
    }
}

/// The place of a tag among arms: the index of the first arm that is not below it.
pub open spec fn place(s: Seq<(VariantModel, SchemaTypes)>, t: VariantModel) -> int
    decreases s.len(),
{
    if s.len() == 0 || !tag_less(s[0].0, t) {
        0
    } else {
        1 + place(s.drop_first(), t)
    }
}

/// The arms after one arm was given: an arm with the same tag is replaced,
/// else the new arm goes in at the place of its tag.
pub open spec fn put_arm(s: Seq<(VariantModel, SchemaTypes)>, e: (VariantModel, SchemaTypes)) -> Seq<
    (VariantModel, SchemaTypes),
> {
    let p = place(s, e.0);
    if p < s.len() && s[p].0 == e.0 {
        s.update(p, e)
    } else {
        s.insert(p, e)
    }
}

/// Every arm is below the tag.
pub open spec fn all_below(s: Seq<(VariantModel, SchemaTypes)>, t: VariantModel) -> bool {
    forall|i: int| 0 <= i < s.len() ==> tag_less((#[trigger] s[i]).0, t)
}

/// An arm whose tag is above all the arms goes in at the end.
pub proof fn lemma_put_last(s: Seq<(VariantModel, SchemaTypes)>, e: (VariantModel, SchemaTypes))
    requires
        all_below(s, e.0),
    ensures
        place(s, e.0) == s.len(),
        put_arm(s, e) == s.push(e),
    decreases s.len(),
{
    if s.len() > 0 {
        let t = s.drop_first();
        assert forall|i: int| 0 <= i < t.len() implies tag_less((#[trigger] t[i]).0, e.0) by {
            assert(t[i] == s[i + 1]);
        }
        lemma_put_last(t, e);
    }
    assert(s.insert(s.len() as int, e) =~= s.push(e));
}

/// The arms stand in the strict order of their tags, so no tag stands twice.
pub open spec fn arms_sorted(s: Seq<(VariantModel, SchemaTypes)>) -> bool {
    forall|i: int, j: int|
        0 <= i < j < s.len() ==> tag_less((#[trigger] s[i]).0, (#[trigger] s[j]).0)
}

/// Of two different tags one is below the other.
pub proof fn lemma_tag_total(a: VariantModel, b: VariantModel)
    ensures
        a == b || tag_less(a, b) || tag_less(b, a),
{
    match (a, b) {
        (VariantModel::Primitive(x), VariantModel::Primitive(y)) => {
            lemma_lex_total(x, y);
        },
        _ => {},
    }
}

/// The order of tags is transitive.
pub proof fn lemma_tag_transitive(a: VariantModel, b: VariantModel, c: VariantModel)
    requires
        tag_less(a, b),
        tag_less(b, c),
    ensures
        tag_less(a, c),
{
    match (a, b, c) {
        (VariantModel::Primitive(x), VariantModel::Primitive(y), VariantModel::Primitive(z)) => {
            lemma_lex_transitive(x, y, z);
        },
        _ => {},
    }
}

/// Before the place of a tag every arm is below the tag; the arm at the place is not.
pub proof fn lemma_place(s: Seq<(VariantModel, SchemaTypes)>, t: VariantModel)
    ensures
        0 <= place(s, t) <= s.len(),
        forall|i: int| 0 <= i < place(s, t) ==> tag_less((#[trigger] s[i]).0, t),
        place(s, t) < s.len() ==> !tag_less(s[place(s, t)].0, t),
    decreases s.len(),
{
    if s.len() > 0 && tag_less(s[0].0, t) {
        let r = s.drop_first();
        lemma_place(r, t);
        assert forall|i: int| 0 <= i < place(s, t) implies tag_less((#[trigger] s[i]).0, t) by {
            if i > 0 {
                assert(s[i] == r[i - 1]);
            }
        }
        if place(s, t) < s.len() {
            assert(s[place(s, t)] == r[place(r, t)]);
        }
    }
}

/// An enum is a mapping: arms in the order of their tags stay in that order
/// when an arm is given.
pub proof fn lemma_put_sorted(s: Seq<(VariantModel, SchemaTypes)>, e: (VariantModel, SchemaTypes))
    requires
        arms_sorted(s),
    ensures
        arms_sorted(put_arm(s, e)),
{
    let p = place(s, e.0);
    let r = put_arm(s, e);
    lemma_place(s, e.0);
    assert forall|i: int, j: int| 0 <= i < j < r.len() implies tag_less(
        (#[trigger] r[i]).0,
        (#[trigger] r[j]).0,
    ) by {
        if p < s.len() && s[p].0 == e.0 {
            assert(r[i].0 == s[i].0 && r[j].0 == s[j].0);
        } else {
            let i0 = if i < p { i } else { i - 1 };
            let j0 = if j < p { j } else { j - 1 };
            if i != p && j != p {
                assert(r[i] == s[i0] && r[j] == s[j0]);
            } else if j == p {
                assert(r[i] == s[i0]);
            } else {
                assert(r[j] == s[j0]);
                lemma_tag_total(s[p].0, e.0);
                if j0 > p {
                    assert(tag_less(s[p].0, s[j0].0));
                    lemma_tag_transitive(e.0, s[p].0, s[j0].0);
                }
            }
        }
    }
}

/// The names of the kinds stand in this order.
pub proof fn lemma_kind_names()
    ensures
        lex_less("Array"@, "Bool"@),
        lex_less("Bool"@, "Float"@),
        lex_less("Float"@, "I64"@),
        lex_less("I64"@, "String"@),
        lex_less("String"@, "U64"@),
{
    reveal_strlit("Array");
    reveal_strlit("Bool");
    reveal_strlit("Float");
    reveal_strlit("I64");
    reveal_strlit("String");
    reveal_strlit("U64");
}

/// The arm of a shape, if the shape is present.
pub open spec fn arm_if(present: bool, t: SchemaTypes) -> Seq<(VariantModel, SchemaTypes)> {
    if present {
        seq![(variant_of(t), t)]
    } else {
        Seq::empty()
    }
}

/// The arms of the structs with the given ids.
pub open spec fn struct_arms(ids: Seq<u64>) -> Seq<(VariantModel, SchemaTypes)> {
    Seq::new(ids.len(), |i: int| (VariantModel::Struct(ids[i]), SchemaTypes::Struct(ids[i])))
}

pub open spec fn array_of(elem: Option<SchemaType>) -> SchemaTypes {
    match elem {
        Some(e) => SchemaTypes::Array(Box::new(e)),
        None => SchemaTypes::Unit,
    }
}

/// The arms of the enum of a position, in the order of their tags: the array
/// and the scalar kinds by name, then the structs, whose ids follow the order
/// of their labels.
pub open spec fn enum_arms(m: TypesModel, elem: Option<SchemaType>, ids: Seq<u64>) -> Seq<
    (VariantModel, SchemaTypes),
> {
    arm_if(elem is Some, array_of(elem)) + arm_if(m.boolean, SchemaTypes::Bool) + arm_if(
        m.float,
        SchemaTypes::Float,
    ) + arm_if(m.signed, SchemaTypes::I64) + arm_if(m.string, SchemaTypes::String) + arm_if(
        m.unsigned,
        SchemaTypes::U64,
    ) + struct_arms(ids)
}

/// The shape of a position that has one shape only.
pub open spec fn only_type(m: TypesModel, elem: Option<SchemaType>, ids: Seq<u64>) -> SchemaTypes {
    if m.boolean {
        SchemaTypes::Bool
    } else if m.float {
        SchemaTypes::Float
    } else if m.signed {
        SchemaTypes::I64
    } else if m.string {
        SchemaTypes::String
    } else if m.unsigned {
        SchemaTypes::U64
    } else if elem is Some {
        array_of(elem)
    } else {
        SchemaTypes::Struct(ids[0])
    }
}

/// The schema of a position and the table after it, from the aggregate of the
/// position and the table before it. A position without shapes is `Unit`; one
/// with a single shape has that shape; one with more gets an enum, whose id is
/// taken before the ids of the shapes inside it.
pub open spec fn canon_types(m: TypesModel, d: Seq<Def>) -> (SchemaType, Seq<Def>)
    decreases m, 1nat,
{
    let n = variants(m);
    let a = canon_elem(m, d);
    let o = canon_objects(m.objects, m.objects.len(), a.1);
    if n == 0 {
        (SchemaType { is_nullable: m.nullable, typ: SchemaTypes::Unit }, d)
    } else if n == 1 {
        (SchemaType { is_nullable: m.nullable, typ: only_type(m, a.0, o.0) }, o.1)
    } else {
        (
            SchemaType { is_nullable: m.nullable, typ: SchemaTypes::Enum(d.len() as u64) },
            o.1.update(d.len() as int, Def::Enum(enum_arms(m, a.0, o.0))),
        )
    }
}

/// The schema of the array elements of a position, if it has an array, and the
/// table after it. Where the position gets an enum, the id of the enum is
/// taken first.
pub open spec fn canon_elem(m: TypesModel, d: Seq<Def>) -> (Option<SchemaType>, Seq<Def>)
    decreases m, 0nat,
{
    let base = if variants(m) >= 2 {
        d.push(Def::Pending)
    } else {
        d
    };
    match m.array {
        Some(x) => {
            let r = canon_types(*x, base);
            (Some(r.0), r.1)
        },
        None => (None, base),
    }
}

/// The ids of the structs of the first `n` objects, and the table after them.
pub open spec fn canon_objects(s: Seq<(Seq<char>, SchemeModel)>, n: nat, d: Seq<Def>) -> (
    Seq<u64>,
    Seq<Def>,
)
    decreases s, n,
{
    if n == 0 || n > s.len() {
        (Seq::empty(), d)
    } else {
        let prev = canon_objects(s, (n - 1) as nat, d);
        let r = canon_scheme(s[n - 1].1, prev.1);
        (prev.0.push(r.0), r.1)
    }
}

/// The id of the struct of an object, and the table after it. The id is taken
/// before the ids of the definitions inside the struct.
pub open spec fn canon_scheme(s: SchemeModel, d: Seq<Def>) -> (u64, Seq<Def>)
    decreases s, 0nat,
{
    let r = canon_fields(s.fields, s.fields.len(), d.push(Def::Pending));
    (d.len() as u64, r.1.update(d.len() as int, Def::Struct(r.0)))
}

/// The first `n` fields of a struct, and the table after them.
pub open spec fn canon_fields(s: Seq<(Seq<char>, TypesModel)>, n: nat, d: Seq<Def>) -> (
    Seq<(Seq<char>, SchemaType)>,
    Seq<Def>,
)
    decreases s, n,
{
    if n == 0 || n > s.len() {
        (Seq::empty(), d)
    } else {
        let prev = canon_fields(s, (n - 1) as nat, d);
        let r = canon_types(s[n - 1].1, prev.1);
        (prev.0.push((s[n - 1].0, r.0)), r.1)
    }
}

/// The schema of a single shape. Null has none.
pub open spec fn canon_type(t: TypeModel, d: Seq<Def>) -> (SchemaTypes, Seq<Def>)
    recommends
        t != TypeModel::Null,
{
    match t {
        TypeModel::Null => (SchemaTypes::Unit, d),
        TypeModel::Bool => (SchemaTypes::Bool, d),
        TypeModel::U64 => (SchemaTypes::U64, d),
        TypeModel::I64 => (SchemaTypes::I64, d),
        TypeModel::Float => (SchemaTypes::Float, d),
        TypeModel::String => (SchemaTypes::String, d),
        TypeModel::Array(ts) => {
            let r = canon_types(ts, d);
            (SchemaTypes::Array(Box::new(r.0)), r.1)
        },
        TypeModel::Object(_, s) => {
            let r = canon_scheme(s, d);
            (SchemaTypes::Struct(r.0), r.1)
        },
    }
}

impl Variant {
    /// The tag as contracts see it.
    pub open spec fn view(&self) -> VariantModel {
        match self {
            Variant::Primitive(s) => VariantModel::Primitive(s@),
            Variant::Struct(id) => VariantModel::Struct(*id),
            Variant::Enum(id) => VariantModel::Enum(*id),
        }
    }

    /// Whether the tag stands before another in the order of tags.
    pub fn less(&self, other: &Variant) -> (r: bool)
        ensures
            r == tag_less(self@, other@),
    {
        match self {
            Variant::Primitive(x) => match other {
                Variant::Primitive(y) => str_less(x.as_str(), y.as_str()),
                _ => true,
            },
            Variant::Struct(i) => match other {
                Variant::Primitive(_) => false,
                Variant::Struct(j) => *i < *j,
                Variant::Enum(_) => true,
            },
            Variant::Enum(i) => match other {
                Variant::Enum(j) => *i < *j,
                _ => false,
            },
        }
    }

    /// Whether two tags are the same.
    pub fn same(&self, other: &Variant) -> (r: bool)
        ensures
            r == (self@ == other@),
    {
        match self {
            Variant::Primitive(x) => match other {
                Variant::Primitive(y) => *x == *y,
                _ => false,
            },
            Variant::Struct(i) => match other {
                Variant::Struct(j) => *i == *j,
                _ => false,
            },
            Variant::Enum(i) => match other {
                Variant::Enum(j) => *i == *j,
                _ => false,
            },
        }
    }

    /// The tag of a scalar kind or of an array.
    pub fn primitive(s: &str) -> (r: Variant)
        ensures
            r@ == VariantModel::Primitive(s@),
    {
        Variant::Primitive(String::from_str(s))
    }
}

impl Struct {
    /// The fields as contracts see them.
    pub open spec fn view(&self) -> Seq<(Seq<char>, SchemaType)> {
        Seq::new(self.0@.len(), |i: int| (self.0@[i].0@, self.0@[i].1))
    }

    /// Canonicalizes the fields of an object, in their order.
    pub fn parse(builder: &mut SchemaBuilder, obj: &ObjectScheme) -> (r: Struct)
        ensures
            (r@, final(builder)@) == canon_fields(
                obj@.fields,
                obj@.fields.len(),
                old(builder)@,
            ),
            final(builder)@.len() >= old(builder)@.len(),
        decreases obj, 1nat,
    {
        let mut fields: Vec<(String, SchemaType)> = Vec::new();
        let ghost d0 = builder@;
        let ghost s = obj@.fields;
        let mut i: usize = 0;
        while i < obj.fields.len()
            invariant
                i <= obj.fields@.len(),
                s == obj@.fields,
                s.len() == obj.fields@.len(),
                builder@.len() >= d0.len(),
                (Struct(fields)@, builder@) == canon_fields(s, i as nat, d0),
            decreases obj.fields@.len() - i,
        {
            let ghost before = Struct(fields)@;
            let name = obj.fields[i].0.clone();
            let t = SchemaType::parse(builder, &obj.fields[i].1);
            fields.push((name, t));
            proof {
                assert(s[i as int] == (obj.fields@[i as int].0@, obj.fields@[i as int].1@));
                assert(Struct(fields)@ =~= before.push((s[i as int].0, t)));
            }
            i += 1;
        }
        Struct(fields)
    }
}

impl Enum {
    /// The arms as contracts see them.
    pub open spec fn view(&self) -> Seq<(VariantModel, SchemaTypes)> {
        Seq::new(self.0@.len(), |i: int| (self.0@[i].0@, self.0@[i].1))
    }

    /// An enum without arms.
    pub fn new() -> (r: Enum)
        ensures
            r@ =~= Seq::empty(),
    {
        Enum(Vec::new())
    }

    /// Adds the arm of a shape, if the shape is present, after arms that are all
    /// below it. The arms are then below every tag above that of the shape.
    fn add_if(&mut self, present: bool, ty: SchemaTypes, Ghost(next): Ghost<VariantModel>)
        requires
            all_below(old(self)@, variant_of(ty)),
            tag_less(variant_of(ty), next),
        ensures
            final(self)@ =~= old(self)@ + arm_if(present, ty),
            all_below(final(self)@, next),
    {
        let ghost before = self@;
        if present {
            let v = ty.varinat();
            proof {
                lemma_put_last(self@, (v@, ty));
            }
            self.add(v, ty);
        }
        proof {
            assert forall|i: int| 0 <= i < self@.len() implies tag_less(
                (#[trigger] self@[i]).0,
                next,
            ) by {
                if i < before.len() {
                    assert(self@[i] == before[i]);
                    lemma_tag_transitive(before[i].0, variant_of(ty), next);
                }
            }
        }
    }

    /// Adds the arms of structs, whose ids ascend, after the arms of named kinds.
    #[verifier::rlimit(40)]
    fn add_structs(&mut self, ids: &Vec<u64>)
        requires
            all_below(old(self)@, VariantModel::Struct(0)),
            forall|i: int, j: int| 0 <= i < j < ids@.len() ==> ids@[i] < ids@[j],
        ensures
            final(self)@ =~= old(self)@ + struct_arms(ids@),
    {
        let ghost named = self@;
        let mut j: usize = 0;
        while j < ids.len()
            invariant
                j <= ids@.len(),
                forall|i: int, k: int| 0 <= i < k < ids@.len() ==> ids@[i] < ids@[k],
                all_below(named, VariantModel::Struct(0)),
                self@ =~= named + struct_arms(ids@.take(j as int)),
            decreases ids@.len() - j,
        {
            let sid = ids[j];
            proof {
                let arm = (VariantModel::Struct(sid), SchemaTypes::Struct(sid));
                assert forall|i: int| 0 <= i < self@.len() implies tag_less(
                    (#[trigger] self@[i]).0,
                    arm.0,
                ) by {
                    if i < named.len() {
                        assert(self@[i] == named[i]);
                        assert(tag_less(named[i].0, VariantModel::Struct(0)));
                    } else {
                        assert(self@[i] == struct_arms(ids@.take(j as int))[i - named.len()]);
                    }
                }
                lemma_put_last(self@, arm);
                assert(struct_arms(ids@.take(j + 1)) =~= struct_arms(ids@.take(j as int)).push(
                    arm,
                ));
            }
            self.add(Variant::Struct(sid), SchemaTypes::Struct(sid));
            j += 1;
        }
        assert(ids@.take(ids@.len() as int) =~= ids@);
    }

    /// The enum of a position with the given shapes.
    fn of_shapes(types: &Types, elem: Option<SchemaType>, ids: &Vec<u64>) -> (r: Enum)
        requires
            forall|i: int, j: int| 0 <= i < j < ids@.len() ==> ids@[i] < ids@[j],
        ensures
            r@ == enum_arms(types@, elem, ids@),
    {
        let mut e = Enum::new();
        let ghost el = elem;
        proof {
            lemma_kind_names();
        }
        match elem {
            Some(x) => {
                e.add_if(
                    true,
                    SchemaTypes::Array(Box::new(x)),
                    Ghost(VariantModel::Primitive("Bool"@)),
                );
            },
            None => {},
        }
        assert(e@ =~= arm_if(el is Some, array_of(el)));
        e.add_if(types.boolean, SchemaTypes::Bool, Ghost(VariantModel::Primitive("Float"@)));
        e.add_if(types.float, SchemaTypes::Float, Ghost(VariantModel::Primitive("I64"@)));
        e.add_if(types.signed, SchemaTypes::I64, Ghost(VariantModel::Primitive("String"@)));
        e.add_if(types.string, SchemaTypes::String, Ghost(VariantModel::Primitive("U64"@)));
        e.add_if(types.unsigned, SchemaTypes::U64, Ghost(VariantModel::Struct(0)));
        e.add_structs(ids);
        e
    }

    /// Gives the enum an arm: an arm with the same tag is replaced, else the
    /// new arm goes in at the place of its tag.
    #[verifier::rlimit(40)]
    pub fn add(&mut self, variant: Variant, ty: SchemaTypes)
        ensures
            final(self)@ == put_arm(old(self)@, (variant@, ty)),
            arms_sorted(old(self)@) ==> arms_sorted(final(self)@),
    {
        proof {
            if arms_sorted(self@) {
                lemma_put_sorted(self@, (variant@, ty));
            }
        }
        let ghost arms = self@;
        let mut i: usize = 0;
        assert(arms.skip(0) =~= arms);
        while i < self.0.len() && self.0[i].0.less(&variant)
            invariant
                i <= self.0@.len(),
                arms == self@,
                arms.len() == self.0@.len(),
                place(arms, variant@) == i + place(arms.skip(i as int), variant@),
            decreases self.0@.len() - i,
        {
            proof {
                assert(arms.skip(i as int)[0] == arms[i as int]);
                assert(arms.skip(i as int).drop_first() =~= arms.skip(i + 1));
            }
            i += 1;
        }
        proof {
            if i < arms.len() {
                assert(arms.skip(i as int)[0] == arms[i as int]);
            }
            assert(place(arms, variant@) == i);
        }
        if i < self.0.len() && self.0[i].0.same(&variant) {
            self.0.set(i, (variant, ty));
            assert(self@ =~= arms.update(i as int, (variant@, ty)));
        } else {
            self.0.insert(i, (variant, ty));
            assert(self@ =~= arms.insert(i as int, (variant@, ty)));
        }
    }
}

impl Default for Enum {
    /// An enum without arms.
    fn default() -> (r: Enum)
        ensures
            r@ =~= Seq::empty(),
    {
        Enum::new()
    }
}

impl Default for SchemaBuilder {
    /// A builder without definitions.
    fn default() -> (r: SchemaBuilder)
        ensures
            r@ =~= Seq::empty(),
    {
        SchemaBuilder::new()
    }
}

impl Definition {
    /// The definition as contracts see it.
    pub open spec fn view(&self) -> Def {
        match self {
            Definition::Pending => Def::Pending,
            Definition::Struct(s) => Def::Struct(s@),
            Definition::Enum(e) => Def::Enum(e@),
        }
    }
}

impl SchemaBuilder {
    /// The table collected so far; the id of a definition is its index.
    pub open spec fn view(&self) -> Seq<Def> {
        Seq::new(self.defs@.len(), |i: int| self.defs@[i]@)
    }

    /// A builder without definitions.
    pub fn new() -> (r: SchemaBuilder)
        ensures
            r@ =~= Seq::empty(),
    {
        SchemaBuilder { defs: Vec::new() }
    }

    /// Registers a struct under an id that was taken before.
    pub fn add_struct(&mut self, id: u64, st: Struct)
        requires
            id < old(self)@.len(),
        ensures
            final(self)@ =~= old(self)@.update(id as int, Def::Struct(st@)),
    {
        let n = self.defs.len();
        assert(id < n);
        self.defs.set(id as usize, Definition::Struct(st));
    }

    /// Registers an enum under an id that was taken before.
    pub fn add_enum(&mut self, id: u64, e: Enum)
        requires
            id < old(self)@.len(),
        ensures
            final(self)@ =~= old(self)@.update(id as int, Def::Enum(e@)),
    {
        let n = self.defs.len();
        assert(id < n);
        self.defs.set(id as usize, Definition::Enum(e));
    }

    /// Takes the next id: ids count up from zero, structs and enums together.
    pub fn next_id(&mut self) -> (id: u64)
        ensures
            id == old(self)@.len(),
            final(self)@ =~= old(self)@.push(Def::Pending),
    {
        let id = self.defs.len() as u64;
        self.defs.push(Definition::Pending);
        id
    }

    /// Ends the collection: the schema of the given root with the definitions collected.
    pub fn build(self, root: SchemaType) -> (r: Schema)
        ensures
            r.root == root,
            r.table() == self@,
    {
        Schema { root, defs: self.defs }
    }
}

impl Schema {
    /// The table of definitions; the id of a definition is its index.
    pub open spec fn table(&self) -> Seq<Def> {
        Seq::new(self.defs@.len(), |i: int| self.defs@[i]@)
    }
}

impl SchemaTypes {
    /// Canonicalizes one observed shape. Null is no shape of its own: it only
    /// marks a position nullable.
    pub fn parse(builder: &mut SchemaBuilder, t: &Type) -> (r: SchemaTypes)
        requires
            t@ != TypeModel::Null,
        ensures
            (r, final(builder)@) == canon_type(t@, old(builder)@),
            final(builder)@.len() >= old(builder)@.len(),
    {
        match t {
            Type::Null => SchemaTypes::Unit,
            Type::Bool => SchemaTypes::Bool,
            Type::U64 => SchemaTypes::U64,
            Type::I64 => SchemaTypes::I64,
            Type::Float => SchemaTypes::Float,
            Type::String => SchemaTypes::String,
            Type::Array(ts) => {
                let t = SchemaType::parse(builder, ts);
                SchemaTypes::Array(Box::new(t))
            },
            Type::Object(_, o) => SchemaTypes::Struct(SchemaTypes::parse_object(builder, o)),
        }
    }

    /// Canonicalizes an object: takes a new id, canonicalizes the fields, and
    /// registers the struct under the id.
    pub fn parse_object(builder: &mut SchemaBuilder, obj: &ObjectScheme) -> (id: u64)
        ensures
            (id, final(builder)@) == canon_scheme(obj@, old(builder)@),
            id == old(builder)@.len(),
            final(builder)@.len() > old(builder)@.len(),
        decreases obj, 2nat,
    {
        let id = builder.next_id();
        let st = Struct::parse(builder, obj);
        builder.add_struct(id, st);
        id
    }

    /// The tag under which the shape stands in an enum.
    pub fn varinat(&self) -> (r: Variant)
        ensures
            r@ == variant_of(*self),
    {
        match self {
            SchemaTypes::Unit => Variant::primitive("Unit"),
            SchemaTypes::Bool => Variant::primitive("Bool"),
            SchemaTypes::U64 => Variant::primitive("U64"),
            SchemaTypes::I64 => Variant::primitive("I64"),
            SchemaTypes::Float => Variant::primitive("Float"),
            SchemaTypes::String => Variant::primitive("String"),
            SchemaTypes::Array(_) => Variant::primitive("Array"),
            SchemaTypes::Struct(id) => Variant::Struct(*id),
            SchemaTypes::Enum(id) => Variant::Enum(*id),
        }
    }
}

impl SchemaType {
    /// Canonicalizes the objects of a position in their order, and gives the
    /// ids of their structs.
    fn parse_objects(builder: &mut SchemaBuilder, types: &Types) -> (ids: Vec<u64>)
        ensures
            (ids@, final(builder)@) == canon_objects(
                types@.objects,
                types@.objects.len(),
                old(builder)@,
            ),
            final(builder)@.len() >= old(builder)@.len(),
            forall|i: int, j: int| 0 <= i < j < ids@.len() ==> ids@[i] < ids@[j],
        decreases types, 0nat,
    {
        let ghost d1 = builder@;
        let ghost m = types@;
        let mut ids: Vec<u64> = Vec::new();
        let mut i: usize = 0;
        while i < types.objects.len()
            invariant
                i <= types.objects@.len(),
                m == types@,
                m.objects.len() == types.objects@.len(),
                builder@.len() >= d1.len(),
                (ids@, builder@) == canon_objects(m.objects, i as nat, d1),
                forall|a: int, b: int| 0 <= a < b < ids@.len() ==> ids@[a] < ids@[b],
                forall|a: int| 0 <= a < ids@.len() ==> ids@[a] < builder@.len(),
            decreases types.objects@.len() - i,
        {
            let sid = SchemaTypes::parse_object(builder, &types.objects[i].1);
            proof {
                assert(m.objects[i as int].1 == types.objects@[i as int].1@);
            }
            ids.push(sid);
            i += 1;
        }
        ids
    }

    /// The shape of a position that has one shape only.
    fn only(types: &Types, elem: Option<SchemaType>, ids: &Vec<u64>) -> (r: SchemaTypes)
        requires
            variants(types@) == 1,
            ids@.len() == types@.objects.len(),
            elem is Some == types@.array is Some,
        ensures
            r == only_type(types@, elem, ids@),
    {
        if types.boolean {
            SchemaTypes::Bool
        } else if types.float {
            SchemaTypes::Float
        } else if types.signed {
            SchemaTypes::I64
        } else if types.string {
            SchemaTypes::String
        } else if types.unsigned {
            SchemaTypes::U64
        } else {
            match elem {
                Some(e) => SchemaTypes::Array(Box::new(e)),
                None => SchemaTypes::Struct(ids[0]),
            }
        }
    }

    /// Whether the position holds a struct.
    pub fn is_struct(&self) -> (r: bool)
        ensures
            r == (self.typ is Struct),
    {
        match self.typ {
            SchemaTypes::Struct(_) => true,
            _ => false,
        }
    }

    /// Whether the position holds an enum.
    pub fn is_enum(&self) -> (r: bool)
        ensures
            r == (self.typ is Enum),
    {
        match self.typ {
            SchemaTypes::Enum(_) => true,
            _ => false,
        }
    }

    /// Canonicalizes the aggregate of a position.
    #[verifier::rlimit(40)]
    pub fn parse(builder: &mut SchemaBuilder, types: &Types) -> (r: SchemaType)
        ensures
            (r, final(builder)@) == canon_types(types@, old(builder)@),
            final(builder)@.len() >= old(builder)@.len(),
        decreases types, 1nat,
    {
        let is_nullable = types.is_nullable();
        let count = types.arity();
        if count == 0 {
            return SchemaType { is_nullable, typ: SchemaTypes::Unit };
        }
        let id: u64 = if count >= 2 {
            builder.next_id()
        } else {
            0
        };
        let elem: Option<SchemaType> = match &types.array {
            Some(a) => Some(SchemaType::parse(builder, a)),
            None => None,
        };
        let ids = SchemaType::parse_objects(builder, types);
        proof {
            lemma_objects_count(
                types@.objects,
                types@.objects.len(),
                canon_elem(types@, old(builder)@).1,
            );
        }
        if count == 1 {
            let typ = SchemaType::only(types, elem, &ids);
            SchemaType { is_nullable, typ }
        } else {
            let e = Enum::of_shapes(types, elem, &ids);
            builder.add_enum(id, e);
            SchemaType { is_nullable, typ: SchemaTypes::Enum(id) }
        }
    }
}

/// The table grows by at least one id per object, and each object gets an id.
pub proof fn lemma_objects_count(s: Seq<(Seq<char>, SchemeModel)>, n: nat, d: Seq<Def>)
    requires
        n <= s.len(),
    ensures
        canon_objects(s, n, d).0.len() == n,
    decreases n,
{
    if n > 0 {
        lemma_objects_count(s, (n - 1) as nat, d);
    }
}

/// Accumulates sample documents into one aggregate and turns it into a schema.
#[derive(Debug)]
pub struct SchemaGenerator {
    criteria: Criteria,
    types: Types,
}

impl SchemaGenerator {
    /// The criteria that the generator was made with.
    pub closed spec fn criteria(&self) -> Map<Seq<char>, Seq<char>> {
        self.criteria@
    }

    /// The aggregate of the documents taken in so far.
    pub closed spec fn aggregate(&self) -> TypesModel {
        self.types@
    }

    /// A generator that has taken in no document.
    pub fn new(criteria: Criteria) -> (r: SchemaGenerator)
        ensures
            r.criteria() == criteria@,
            r.aggregate() == empty_model(),
            types_wf(r.aggregate()),
    {
        SchemaGenerator { criteria, types: Types::empty() }
    }

    /// Takes in one document: the aggregate is widened by the shape of the document.
    pub fn add_value(&mut self, val: Value)
        requires
            types_wf(old(self).aggregate()),
        ensures
            types_wf(final(self).aggregate()),
            final(self).criteria() == old(self).criteria(),
            shapes(final(self).aggregate()) == merge(
                shapes(old(self).aggregate()),
                value_shapes(old(self).criteria(), Seq::empty(), val),
            ),
            within(shapes(old(self).aggregate()), shapes(final(self).aggregate())),
            old(self).aggregate().nullable ==> final(self).aggregate().nullable,
    {
        let typ = Type::from_value(&self.criteria, &val);
        self.types.add(typ);
    }

    /// Ends the generator: the schema of the aggregate, with ids from zero.
    pub fn build(self) -> (r: Schema)
        ensures
            (r.root, r.table()) == canon_types(self.aggregate(), Seq::empty()),
            forall|i: int| 0 <= i < r.table().len() ==> !(#[trigger] r.table()[i] is Pending),
            r.root.typ is Struct ==> r.root.typ == SchemaTypes::Struct(0) && r.table().len() > 0
                && r.table()[0] is Struct,
            r.root.typ is Enum ==> r.root.typ == SchemaTypes::Enum(0) && r.table().len() > 0
                && r.table()[0] is Enum,
    {
        proof {
            law_schema_closed(self.types@);
        }
        let mut builder = SchemaBuilder::new();
        let root = SchemaType::parse(&mut builder, &self.types);
        builder.build(root)
    }
}

} // verus!
