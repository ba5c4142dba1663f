//! The mathematical model of aggregated shapes.
//!
//! An aggregate is modelled twice. `TypesModel` keeps the objects of a position
//! and the fields of an object as sequences in the order of their names: that
//! order decides how a schema is numbered. `Shapes` forgets the order and keeps
//! maps: widening is stated over it.

use vstd::prelude::*;
use crate::schema::text::{lemma_lex_irreflexive, lex_less};

verus! {

/// What one position holds: the scalar kinds seen, the merged array elements,
/// and the objects seen, one entry per label, in the order of the labels.
pub ghost struct TypesModel {
    pub nullable: bool,
    pub boolean: bool,
    pub unsigned: bool,
    pub signed: bool,
    pub float: bool,
    pub string: bool,
    pub array: Option<Box<TypesModel>>,
    pub objects: Seq<(Seq<char>, SchemeModel)>,
}

/// The fields of an object position, in the order of their names.
pub ghost struct SchemeModel {
    pub fields: Seq<(Seq<char>, TypesModel)>,
}

/// One observed shape.
pub ghost enum TypeModel {
    Null,
    Bool,
    U64,
    I64,
    Float,
    String,
    Array(TypesModel),
    Object(Seq<char>, SchemeModel),
}

/// The aggregate of a position: the same content as a `TypesModel`, without order.
pub ghost struct Shapes {
    pub nullable: bool,
    pub boolean: bool,
    pub unsigned: bool,
    pub signed: bool,
    pub float: bool,
    pub string: bool,
    pub array: Option<Box<Shapes>>,
    pub objects: Map<Seq<char>, Fields>,
}

/// The fields seen in the objects of one label at one position.
pub ghost struct Fields {
    pub map: Map<Seq<char>, Shapes>,
}

/// The model of a position at which nothing was seen.
pub open spec fn empty_model() -> TypesModel {
    TypesModel {
        nullable: false,
        boolean: false,
        unsigned: false,
        signed: false,
        float: false,
        string: false,
        array: None,
        objects: Seq::empty(),
    }
}

/// The aggregate of a position at which nothing was seen.
pub open spec fn empty_shapes() -> Shapes {
    Shapes {
        nullable: false,
        boolean: false,
        unsigned: false,
        signed: false,
        float: false,
        string: false,
        array: None,
        objects: Map::empty(),
    }
}

/// Whether the list holds an entry under the name.
pub open spec fn has_key<V>(s: Seq<(Seq<char>, V)>, k: Seq<char>) -> bool {
    exists|i: int| 0 <= i < s.len() && (#[trigger] s[i]).0 == k
}

/// The place of an entry under the name, where there is one.
pub open spec fn index_of<V>(s: Seq<(Seq<char>, V)>, k: Seq<char>) -> int {
    choose|i: int| 0 <= i < s.len() && (#[trigger] s[i]).0 == k
}

/// The entries stand in the strict order of their names.
pub open spec fn sorted<V>(s: Seq<(Seq<char>, V)>) -> bool {
    forall|i: int, j: int|
        0 <= i < j < s.len() ==> lex_less((#[trigger] s[i]).0, (#[trigger] s[j]).0)
}

/// Every list in the model is in order, at every depth.
pub open spec fn types_wf(m: TypesModel) -> bool
    decreases m,
{
    &&& match m.array {
        Some(a) => types_wf(*a),
        None => true,
    }
    &&& sorted(m.objects)
    &&& forall|i: int| 0 <= i < m.objects.len() ==> scheme_wf((#[trigger] m.objects[i]).1)
}

/// The fields stand in order, and so does every list below them.
pub open spec fn scheme_wf(s: SchemeModel) -> bool
    decreases s,
{
    &&& sorted(s.fields)
    &&& forall|i: int| 0 <= i < s.fields.len() ==> types_wf((#[trigger] s.fields[i]).1)
}

/// Every list inside the shape is in order.
pub open spec fn type_wf(t: TypeModel) -> bool {
    match t {
        TypeModel::Array(ts) => types_wf(ts),
        TypeModel::Object(_, s) => scheme_wf(s),
        _ => true,
    }
}

/// The number of distinct non-null shapes.
pub open spec fn variants(m: TypesModel) -> nat {
    (if m.boolean { 1nat } else { 0 }) + (if m.unsigned { 1nat } else { 0 })
        + (if m.signed { 1nat } else { 0 }) + (if m.float { 1nat } else { 0 })
        + (if m.string { 1nat } else { 0 }) + (if m.array is Some { 1nat } else { 0 })
        + m.objects.len()
}

/// The aggregate that an ordered model stands for.
pub open spec fn shapes(m: TypesModel) -> Shapes
    decreases m,
{
    Shapes {
        nullable: m.nullable,
        boolean: m.boolean,
        unsigned: m.unsigned,
        signed: m.signed,
        float: m.float,
        string: m.string,
        array: match m.array {
            Some(a) => Some(Box::new(shapes(*a))),
            None => None,
        },
        objects: Map::new(
            |l: Seq<char>| has_key(m.objects, l),
            |l: Seq<char>|
                if has_key(m.objects, l) {
                    fields(m.objects[index_of(m.objects, l)].1)
                } else {
                    Fields { map: Map::empty() }
                },
        ),
    }
}

/// The objects of a position by label.
pub open spec fn objects_map(s: Seq<(Seq<char>, SchemeModel)>) -> Map<Seq<char>, Fields> {
    Map::new(
        |l: Seq<char>| has_key(s, l),
        |l: Seq<char>|
            if has_key(s, l) {
                fields(s[index_of(s, l)].1)
            } else {
                Fields { map: Map::empty() }
            },
    )
}

/// The fields that the ordered fields of an object stand for.
pub open spec fn fields(s: SchemeModel) -> Fields
    decreases s,
{
    Fields {
        map: Map::new(
            |f: Seq<char>| has_key(s.fields, f),
            |f: Seq<char>|
                if has_key(s.fields, f) {
                    shapes(s.fields[index_of(s.fields, f)].1)
                } else {
                    empty_shapes()
                },
        ),
    }
}

/// The fields of an object by name.
pub open spec fn fields_map(s: Seq<(Seq<char>, TypesModel)>) -> Map<Seq<char>, Shapes> {
    Map::new(
        |f: Seq<char>| has_key(s, f),
        |f: Seq<char>|
            if has_key(s, f) {
                shapes(s[index_of(s, f)].1)
            } else {
                empty_shapes()
            },
    )
}

/// The aggregate that holds one shape and nothing else.
pub open spec fn single(t: TypeModel) -> Shapes {
    match t {
        TypeModel::Null => Shapes { nullable: true, ..empty_shapes() },
        TypeModel::Bool => Shapes { boolean: true, ..empty_shapes() },
        TypeModel::U64 => Shapes { unsigned: true, ..empty_shapes() },
        TypeModel::I64 => Shapes { signed: true, ..empty_shapes() },
        TypeModel::Float => Shapes { float: true, ..empty_shapes() },
        TypeModel::String => Shapes { string: true, ..empty_shapes() },
        TypeModel::Array(ts) => Shapes { array: Some(Box::new(shapes(ts))), ..empty_shapes() },
        TypeModel::Object(l, s) => Shapes {
            objects: Map::empty().insert(l, fields(s)),
            ..empty_shapes()
        },
    }
}

/// The aggregate marked nullable.
pub open spec fn with_null(a: Shapes) -> Shapes {
    Shapes { nullable: true, ..a }
}

/// Widening: the union of two aggregates. Scalar kinds unite; arrays merge
/// their elements; objects of one label merge field by field; objects of
/// different labels stay apart.
pub open spec fn merge(a: Shapes, b: Shapes) -> Shapes
    decreases a,
{
    Shapes {
        nullable: a.nullable || b.nullable,
        boolean: a.boolean || b.boolean,
        unsigned: a.unsigned || b.unsigned,
        signed: a.signed || b.signed,
        float: a.float || b.float,
        string: a.string || b.string,
        array: match (a.array, b.array) {
            (Some(x), Some(y)) => Some(Box::new(merge(*x, *y))),
            (Some(x), None) => Some(x),
            (None, y) => y,
        },
        objects: Map::new(
            |l: Seq<char>| a.objects.contains_key(l) || b.objects.contains_key(l),
            |l: Seq<char>|
                if a.objects.contains_key(l) && b.objects.contains_key(l) {
                    merge_fields(a.objects[l], b.objects[l])
                } else if a.objects.contains_key(l) {
                    a.objects[l]
                } else {
                    b.objects[l]
                },
        ),
    }
}

/// The union of the fields of two objects of one label: a field of both is
/// merged, a field of one alone becomes nullable.
pub open spec fn merge_fields(x: Fields, y: Fields) -> Fields
    decreases x,
{
    Fields {
        map: Map::new(
            |f: Seq<char>| x.map.contains_key(f) || y.map.contains_key(f),
            |f: Seq<char>|
                if x.map.contains_key(f) && y.map.contains_key(f) {
                    merge(x.map[f], y.map[f])
                } else if x.map.contains_key(f) {
                    with_null(x.map[f])
                } else {
                    with_null(y.map[f])
                },
        ),
    }
}

/// The fields of an object after one more attribute: a name seen before is widened.
pub open spec fn with_field(m: Map<Seq<char>, Shapes>, k: Seq<char>, v: Shapes) -> Map<
    Seq<char>,
    Shapes,
> {
    if m.contains_key(k) {
        m.insert(k, merge(m[k], v))
    } else {
        m.insert(k, v)
    }
}

/// The objects of two aggregates united, as `merge` unites them.
pub open spec fn merged_objects(x: Map<Seq<char>, Fields>, y: Map<Seq<char>, Fields>) -> Map<
    Seq<char>,
    Fields,
> {
    Map::new(
        |l: Seq<char>| x.contains_key(l) || y.contains_key(l),
        |l: Seq<char>|
            if x.contains_key(l) && y.contains_key(l) {
                merge_fields(x[l], y[l])
            } else if x.contains_key(l) {
                x[l]
            } else {
                y[l]
            },
    )
}

/// The fields of `x` united with those fields of `y` that are in `p`; a field
/// of `x` that `y` lacks is nullable already.
pub open spec fn partial_fields(
    x: Map<Seq<char>, Shapes>,
    y: Map<Seq<char>, Shapes>,
    p: Map<Seq<char>, Shapes>,
) -> Map<Seq<char>, Shapes> {
    Map::new(
        |f: Seq<char>| x.contains_key(f) || p.contains_key(f),
        |f: Seq<char>|
            if x.contains_key(f) && p.contains_key(f) {
                merge(x[f], y[f])
            } else if x.contains_key(f) {
                if y.contains_key(f) {
                    x[f]
                } else {
                    with_null(x[f])
                }
            } else {
                with_null(y[f])
            },
    )
}

/// In an ordered list a name stands at one place only.
pub proof fn lemma_sorted_unique<V>(s: Seq<(Seq<char>, V)>, i: int, j: int)
    requires
        sorted(s),
        0 <= i < s.len(),
        0 <= j < s.len(),
        s[i].0 == s[j].0,
    ensures
        i == j,
{
    lemma_lex_irreflexive(s[i].0);
}

/// In an ordered list the entry found under a name is the one that carries it.
pub proof fn lemma_index_of<V>(s: Seq<(Seq<char>, V)>, i: int)
    requires
        sorted(s),
        0 <= i < s.len(),
    ensures
        has_key(s, s[i].0),
        index_of(s, s[i].0) == i,
{
    lemma_sorted_unique(s, i, index_of(s, s[i].0));
}

/// What an ordered list holds after one more entry went in.
#[verifier::rlimit(40)]
pub proof fn lemma_insert_keys<V>(s: Seq<(Seq<char>, V)>, p: int, e: (Seq<char>, V))
    requires
        0 <= p <= s.len(),
        sorted(s.insert(p, e)),
    ensures
        sorted(s),
        !has_key(s, e.0),
        has_key(s.insert(p, e), e.0),
        s.insert(p, e)[index_of(s.insert(p, e), e.0)].1 == e.1,
        forall|k: Seq<char>| #[trigger] has_key(s.insert(p, e), k) <==> (k == e.0 || has_key(s, k)),
        forall|k: Seq<char>|
            has_key(s, k) ==> s.insert(p, e)[#[trigger] index_of(s.insert(p, e), k)].1
                == s[index_of(s, k)].1,
{
    let t = s.insert(p, e);
    assert forall|i: int, j: int| 0 <= i < j < s.len() implies lex_less(
        (#[trigger] s[i]).0,
        (#[trigger] s[j]).0,
    ) by {
        let i2 = if i < p { i } else { i + 1 };
        let j2 = if j < p { j } else { j + 1 };
        assert(t[i2] == s[i] && t[j2] == s[j]);
    }
    assert(t[p] == e);
    lemma_index_of(t, p);
    if has_key(s, e.0) {
        let i = index_of(s, e.0);
        let i2 = if i < p { i } else { i + 1 };
        assert(t[i2] == s[i]);
        lemma_sorted_unique(t, i2, p);
    }
    assert forall|k: Seq<char>| #[trigger] has_key(t, k) <==> (k == e.0 || has_key(s, k)) by {
        if has_key(t, k) && k != e.0 {
            let i = index_of(t, k);
            let i0 = if i < p { i } else { i - 1 };
            assert(s[i0] == t[i]);
        }
        if has_key(s, k) {
            let i = index_of(s, k);
            let i2 = if i < p { i } else { i + 1 };
            assert(t[i2] == s[i]);
        }
    }
    assert forall|k: Seq<char>| has_key(s, k) implies t[#[trigger] index_of(t, k)].1
        == s[index_of(s, k)].1 by {
        let i = index_of(s, k);
        let i2 = if i < p { i } else { i + 1 };
        assert(t[i2] == s[i]);
        lemma_index_of(t, i2);
    }
}

/// What an ordered list holds after the value under one name was replaced.
#[verifier::rlimit(40)]
pub proof fn lemma_update_keys<V>(s: Seq<(Seq<char>, V)>, p: int, v: V)
    requires
        0 <= p < s.len(),
        sorted(s),
    ensures
        sorted(s.update(p, (s[p].0, v))),
        has_key(s, s[p].0),
        s.update(p, (s[p].0, v))[index_of(s.update(p, (s[p].0, v)), s[p].0)].1 == v,
        forall|k: Seq<char>| #[trigger] has_key(s.update(p, (s[p].0, v)), k) <==> has_key(s, k),
        forall|k: Seq<char>|
            has_key(s, k) && k != s[p].0 ==> s.update(p, (s[p].0, v))[#[trigger] index_of(
                s.update(p, (s[p].0, v)),
                k,
            )].1 == s[index_of(s, k)].1,
{
    let t = s.update(p, (s[p].0, v));
    assert forall|i: int, j: int| 0 <= i < j < t.len() implies lex_less(
        (#[trigger] t[i]).0,
        (#[trigger] t[j]).0,
    ) by {
        assert(t[i].0 == s[i].0 && t[j].0 == s[j].0);
    }
    lemma_index_of(t, p);
    lemma_index_of(s, p);
    assert forall|k: Seq<char>| #[trigger] has_key(t, k) <==> has_key(s, k) by {
        if has_key(t, k) {
            let i = index_of(t, k);
            assert(s[i].0 == t[i].0);
        }
        if has_key(s, k) {
            let i = index_of(s, k);
            assert(s[i].0 == t[i].0);
        }
    }
    assert forall|k: Seq<char>| has_key(s, k) && k != s[p].0 implies t[#[trigger] index_of(t, k)].1
        == s[index_of(s, k)].1 by {
        let i = index_of(s, k);
        assert(t[i] == s[i]);
        lemma_index_of(t, i);
    }
}

/// One step of uniting objects: the label is there already, and its fields were merged.
#[verifier::rlimit(40)]
pub proof fn lemma_objects_step_found(
    am: Map<Seq<char>, Fields>,
    before: Seq<(Seq<char>, SchemeModel)>,
    seen: Seq<(Seq<char>, SchemeModel)>,
    e: (Seq<char>, SchemeModel),
    pos: int,
    merged: SchemeModel,
)
    requires
        sorted(before),
        sorted(seen.insert(0, e)),
        0 <= pos < before.len(),
        before[pos].0 == e.0,
        objects_map(before) == merged_objects(am, objects_map(seen)),
        fields(merged) == merge_fields(fields(before[pos].1), fields(e.1)),
    ensures
        objects_map(before.update(pos, (e.0, merged))) == merged_objects(
            am,
            objects_map(seen.insert(0, e)),
        ),
{
    let after = before.update(pos, (e.0, merged));
    let seen_next = seen.insert(0, e);
    lemma_update_keys(before, pos, merged);
    lemma_insert_keys(seen, 0, e);
    lemma_index_of(before, pos);
    let m0 = objects_map(before);
    let m1 = objects_map(after);
    let q0 = objects_map(seen);
    let q1 = objects_map(seen_next);
    let goal = merged_objects(am, q1);
    assert forall|k: Seq<char>| m1.contains_key(k) <==> goal.contains_key(k) by {
        assert(m0.contains_key(k) <==> (am.contains_key(k) || q0.contains_key(k)));
        assert(m1.contains_key(k) <==> has_key(after, k));
        assert(m0.contains_key(k) <==> has_key(before, k));
        assert(q1.contains_key(k) <==> has_key(seen_next, k));
        assert(q0.contains_key(k) <==> has_key(seen, k));
        assert(m0.contains_key(e.0));
    }
    assert forall|k: Seq<char>| m1.contains_key(k) implies m1[k] == goal[k] by {
        assert(m0[k] == merged_objects(am, q0)[k]);
        assert(m0.contains_key(k) <==> (am.contains_key(k) || q0.contains_key(k)));
        assert(m0.contains_key(k) <==> has_key(before, k));
        assert(q1.contains_key(k) <==> has_key(seen_next, k));
        assert(q0.contains_key(k) <==> has_key(seen, k));
        assert(has_key(after, k));
        if k == e.0 {
            assert(m1[k] == fields(merged));
            assert(q1[k] == fields(e.1));
            assert(m0[k] == fields(before[pos].1));
        } else {
            assert(m1[k] == m0[k]);
            if q0.contains_key(k) {
                assert(q1[k] == q0[k]);
            }
        }
    }
    assert(m1 =~= goal);
}

/// One step of uniting objects: the label is new.
#[verifier::rlimit(40)]
pub proof fn lemma_objects_step_new(
    am: Map<Seq<char>, Fields>,
    before: Seq<(Seq<char>, SchemeModel)>,
    seen: Seq<(Seq<char>, SchemeModel)>,
    e: (Seq<char>, SchemeModel),
    pos: int,
)
    requires
        0 <= pos <= before.len(),
        sorted(before.insert(pos, e)),
        sorted(seen.insert(0, e)),
        objects_map(before) == merged_objects(am, objects_map(seen)),
    ensures
        objects_map(before.insert(pos, e)) == merged_objects(am, objects_map(seen.insert(0, e))),
{
    let after = before.insert(pos, e);
    let seen_next = seen.insert(0, e);
    lemma_insert_keys(before, pos, e);
    lemma_insert_keys(seen, 0, e);
    let m0 = objects_map(before);
    let m1 = objects_map(after);
    let q0 = objects_map(seen);
    let q1 = objects_map(seen_next);
    let goal = merged_objects(am, q1);
    assert forall|k: Seq<char>| m1.contains_key(k) <==> goal.contains_key(k) by {
        assert(m0.contains_key(k) <==> (am.contains_key(k) || q0.contains_key(k)));
        assert(m1.contains_key(k) <==> has_key(after, k));
        assert(m0.contains_key(k) <==> has_key(before, k));
        assert(q1.contains_key(k) <==> has_key(seen_next, k));
        assert(q0.contains_key(k) <==> has_key(seen, k));
    }
    assert forall|k: Seq<char>| m1.contains_key(k) implies m1[k] == goal[k] by {
        assert(m0.contains_key(k) <==> (am.contains_key(k) || q0.contains_key(k)));
        assert(m0.contains_key(k) <==> has_key(before, k));
        assert(q1.contains_key(k) <==> has_key(seen_next, k));
        assert(q0.contains_key(k) <==> has_key(seen, k));
        assert(has_key(after, k));
        if k == e.0 {
            assert(m1[k] == fields(e.1));
            assert(q1[k] == fields(e.1));
            assert(!am.contains_key(k));
        } else {
            assert(m0[k] == merged_objects(am, q0)[k]);
            assert(m1[k] == m0[k]);
            if q0.contains_key(k) {
                assert(q1[k] == q0[k]);
            }
        }
    }
    assert(m1 =~= goal);
}

/// Marking a position nullable marks its aggregate nullable and changes nothing else.
pub proof fn lemma_shapes_with_null(m: TypesModel)
    ensures
        shapes(TypesModel { nullable: true, ..m }) == with_null(shapes(m)),
        types_wf(TypesModel { nullable: true, ..m }) == types_wf(m),
{
    let n = TypesModel { nullable: true, ..m };
    assert(shapes(n).objects =~= shapes(m).objects);
}

/// One step of uniting fields: the field is there already, and its aggregates were merged.
#[verifier::rlimit(40)]
pub proof fn lemma_fields_step_found(
    xm: Map<Seq<char>, Shapes>,
    ym: Map<Seq<char>, Shapes>,
    before: Seq<(Seq<char>, TypesModel)>,
    seen: Seq<(Seq<char>, TypesModel)>,
    e: (Seq<char>, TypesModel),
    pos: int,
    merged: TypesModel,
)
    requires
        sorted(before),
        sorted(seen.insert(0, e)),
        0 <= pos < before.len(),
        before[pos].0 == e.0,
        ym.contains_key(e.0),
        ym[e.0] == shapes(e.1),
        fields_map(before) == partial_fields(xm, ym, fields_map(seen)),
        shapes(merged) == merge(shapes(before[pos].1), shapes(e.1)),
    ensures
        fields_map(before.update(pos, (e.0, merged))) == partial_fields(
            xm,
            ym,
            fields_map(seen.insert(0, e)),
        ),
{
    let after = before.update(pos, (e.0, merged));
    let seen_next = seen.insert(0, e);
    lemma_update_keys(before, pos, merged);
    lemma_insert_keys(seen, 0, e);
    lemma_index_of(before, pos);
    let m0 = fields_map(before);
    let m1 = fields_map(after);
    let q0 = fields_map(seen);
    let q1 = fields_map(seen_next);
    let goal = partial_fields(xm, ym, q1);
    assert forall|k: Seq<char>| m1.contains_key(k) <==> goal.contains_key(k) by {
        assert(m0.contains_key(k) <==> (xm.contains_key(k) || q0.contains_key(k)));
        assert(m1.contains_key(k) <==> has_key(after, k));
        assert(m0.contains_key(k) <==> has_key(before, k));
        assert(q1.contains_key(k) <==> has_key(seen_next, k));
        assert(q0.contains_key(k) <==> has_key(seen, k));
        assert(m0.contains_key(e.0));
    }
    assert forall|k: Seq<char>| m1.contains_key(k) implies m1[k] == goal[k] by {
        assert(m0[k] == partial_fields(xm, ym, q0)[k]);
        assert(m0.contains_key(k) <==> (xm.contains_key(k) || q0.contains_key(k)));
        assert(m0.contains_key(k) <==> has_key(before, k));
        assert(q1.contains_key(k) <==> has_key(seen_next, k));
        assert(q0.contains_key(k) <==> has_key(seen, k));
        assert(has_key(after, k));
        if k == e.0 {
            assert(m1[k] == shapes(merged));
            assert(m0[k] == shapes(before[pos].1));
        } else {
            assert(m1[k] == m0[k]);
        }
    }
    assert(m1 =~= goal);
}

/// One step of uniting fields: the field is new, and so nullable.
#[verifier::rlimit(40)]
pub proof fn lemma_fields_step_new(
    xm: Map<Seq<char>, Shapes>,
    ym: Map<Seq<char>, Shapes>,
    before: Seq<(Seq<char>, TypesModel)>,
    seen: Seq<(Seq<char>, TypesModel)>,
    e: (Seq<char>, TypesModel),
    pos: int,
)
    requires
        0 <= pos <= before.len(),
        sorted(before.insert(pos, (e.0, TypesModel { nullable: true, ..e.1 }))),
        sorted(seen.insert(0, e)),
        ym.contains_key(e.0),
        ym[e.0] == shapes(e.1),
        fields_map(before) == partial_fields(xm, ym, fields_map(seen)),
    ensures
        fields_map(before.insert(pos, (e.0, TypesModel { nullable: true, ..e.1 })))
            == partial_fields(xm, ym, fields_map(seen.insert(0, e))),
{
    let e1 = (e.0, TypesModel { nullable: true, ..e.1 });
    let after = before.insert(pos, e1);
    let seen_next = seen.insert(0, e);
    lemma_insert_keys(before, pos, e1);
    lemma_insert_keys(seen, 0, e);
    lemma_shapes_with_null(e.1);
    let m0 = fields_map(before);
    let m1 = fields_map(after);
    let q0 = fields_map(seen);
    let q1 = fields_map(seen_next);
    let goal = partial_fields(xm, ym, q1);
    assert forall|k: Seq<char>| m1.contains_key(k) <==> goal.contains_key(k) by {
        assert(m0.contains_key(k) <==> (xm.contains_key(k) || q0.contains_key(k)));
        assert(m1.contains_key(k) <==> has_key(after, k));
        assert(m0.contains_key(k) <==> has_key(before, k));
        assert(q1.contains_key(k) <==> has_key(seen_next, k));
        assert(q0.contains_key(k) <==> has_key(seen, k));
    }
    assert forall|k: Seq<char>| m1.contains_key(k) implies m1[k] == goal[k] by {
        assert(m0.contains_key(k) <==> (xm.contains_key(k) || q0.contains_key(k)));
        assert(m0.contains_key(k) <==> has_key(before, k));
        assert(q1.contains_key(k) <==> has_key(seen_next, k));
        assert(q0.contains_key(k) <==> has_key(seen, k));
        assert(has_key(after, k));
        if k == e.0 {
            assert(m1[k] == shapes(e1.1));
            assert(!xm.contains_key(k));
        } else {
            assert(m0[k] == partial_fields(xm, ym, q0)[k]);
            assert(m1[k] == m0[k]);
        }
    }
    assert(m1 =~= goal);
}

} // verus!
