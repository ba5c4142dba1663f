//! Sample documents, and the shape of one document.

use vstd::prelude::*;
use crate::schema::criteria::{same_text, Criteria};
use crate::schema::model::{
    empty_model, empty_shapes, fields, fields_map, merge, scheme_wf, shapes, single, type_wf,
    types_wf, with_field, Fields, Shapes, TypeModel,
};
use crate::schema::text::{decimal, decimal_string};
use crate::schema::types::{ObjectScheme, Type, Types};

verus! {

/// A sample document. A number is unsigned, signed or neither; of a number
/// that is not integral only the kind is kept.
#[derive(Debug)]
pub enum Value {
    Null,
    Bool(bool),
    Unsigned(u64),
    Signed(i64),
    Float,
    String(String),
    Array(Vec<Value>),
    Object(Vec<(String, Value)>),
}

/// The dotted path of a field below a position; the root has the empty path.
pub open spec fn child_path(path: Seq<char>, name: Seq<char>) -> Seq<char> {
    if path.len() == 0 {
        name
    } else {
        path + seq!['.'] + name
    }
}

/// The label that a discriminant value gives an object: a string gives
/// itself, a boolean `true` or `false`, an integer its decimal form. Any other
/// value gives the empty label, that of objects that are not told apart.
pub open spec fn value_label(v: Value) -> Seq<char> {
    match v {
        Value::String(s) => s@,
        Value::Bool(b) => if b {
            "true"@
        } else {
            "false"@
        },
        Value::Unsigned(n) => decimal(n as nat),
        Value::Signed(n) => if n < 0 {
            seq!['-'] + decimal((-n) as nat)
        } else {
            decimal(n as nat)
        },
        _ => Seq::empty(),
    }
}

/// The label that the last of the first `n` attributes under the name `d`
/// gives; the empty label if there is none.
pub open spec fn discriminant_label(s: Seq<(String, Value)>, d: Seq<char>, n: nat) -> Seq<char>
    decreases n,
{
    if n == 0 || n > s.len() {
        Seq::empty()
    } else if s[n - 1].0@ == d {
        value_label(s[n - 1].1)
    } else {
        discriminant_label(s, d, (n - 1) as nat)
    }
}

/// The label of an object at a path: where the criteria split the path, the
/// label that the discriminant attribute gives; else the empty label.
pub open spec fn object_label(
    c: Map<Seq<char>, Seq<char>>,
    path: Seq<char>,
    s: Seq<(String, Value)>,
) -> Seq<char> {
    if c.contains_key(path) {
        discriminant_label(s, c[path], s.len())
    } else {
        Seq::empty()
    }
}

/// Whether a shape is of the kind of a document value: a scalar has the shape
/// of its kind, a number the first of unsigned, signed and float that holds
/// it, an array is an array, and an object an object under its label.
pub open spec fn shape_matches(
    c: Map<Seq<char>, Seq<char>>,
    path: Seq<char>,
    v: Value,
    t: TypeModel,
) -> bool {
    match v {
        Value::Null => t == TypeModel::Null,
        Value::Bool(_) => t == TypeModel::Bool,
        Value::Unsigned(_) => t == TypeModel::U64,
        Value::Signed(n) => t == (if n >= 0 {
            TypeModel::U64
        } else {
            TypeModel::I64
        }),
        Value::Float => t == TypeModel::Float,
        Value::String(_) => t == TypeModel::String,
        Value::Array(_) => t is Array,
        Value::Object(attrs) => t is Object && t->Object_0 == object_label(c, path, attrs@),
    }
}

/// The aggregate that one document value gives its position.
pub open spec fn value_shapes(c: Map<Seq<char>, Seq<char>>, path: Seq<char>, v: Value) -> Shapes
    decreases v, 0nat,
{
    match v {
        Value::Null => Shapes { nullable: true, ..empty_shapes() },
        Value::Bool(_) => Shapes { boolean: true, ..empty_shapes() },
        Value::Unsigned(_) => Shapes { unsigned: true, ..empty_shapes() },
        Value::Signed(n) => if n >= 0 {
            Shapes { unsigned: true, ..empty_shapes() }
        } else {
            Shapes { signed: true, ..empty_shapes() }
        },
        Value::Float => Shapes { float: true, ..empty_shapes() },
        Value::String(_) => Shapes { string: true, ..empty_shapes() },
        Value::Array(items) => Shapes {
            array: Some(Box::new(items_shapes(c, path, items@, items@.len()))),
            ..empty_shapes()
        },
        Value::Object(attrs) => Shapes {
            objects: Map::empty().insert(
                object_label(c, path, attrs@),
                Fields { map: attrs_shapes(c, path, attrs@, attrs@.len()) },
            ),
            ..empty_shapes()
        },
    }
}

/// The aggregate of the first `n` elements of an array. The elements stand at
/// the path of the array.
pub open spec fn items_shapes(
    c: Map<Seq<char>, Seq<char>>,
    path: Seq<char>,
    s: Seq<Value>,
    n: nat,
) -> Shapes
    decreases s, n,
{
    if n == 0 || n > s.len() {
        empty_shapes()
    } else {
        merge(items_shapes(c, path, s, (n - 1) as nat), value_shapes(c, path, s[n - 1]))
    }
}

/// The fields that the first `n` attributes of an object give.
pub open spec fn attrs_shapes(
    c: Map<Seq<char>, Seq<char>>,
    path: Seq<char>,
    s: Seq<(String, Value)>,
    n: nat,
) -> Map<Seq<char>, Shapes>
    decreases s, n,
{
    if n == 0 || n > s.len() {
        Map::empty()
    } else {
        with_field(
            attrs_shapes(c, path, s, (n - 1) as nat),
            s[n - 1].0@,
            value_shapes(c, child_path(path, s[n - 1].0@), s[n - 1].1),
        )
    }
}

/// Writes the dotted path of a field below a position.
fn child_path_string(path: &str, name: &str) -> (r: String)
    ensures
        r@ == child_path(path@, name@),
{
    if path.unicode_len() == 0 {
        String::from_str(name)
    } else {
        proof {
            reveal_strlit(".");
        }
        let mut s = String::from_str(path);
        s.append(".");
        s.append(name);
        assert(s@ =~= path@ + seq!['.'] + name@);
        s
    }
}

/// Writes the label that a discriminant value gives.
fn label_string(v: &Value) -> (r: String)
    ensures
        r@ == value_label(*v),
{
    match v {
        Value::String(s) => s.clone(),
        Value::Bool(b) => if *b {
            String::from_str("true")
        } else {
            String::from_str("false")
        },
        Value::Unsigned(n) => decimal_string(*n),
        Value::Signed(n) => if *n < 0 {
            proof {
                reveal_strlit("-");
            }
            let magnitude: u64 = (-(*n as i128)) as u64;
            let digits = decimal_string(magnitude);
            let mut s = String::from_str("-");
            s.append(digits.as_str());
            assert(s@ =~= seq!['-'] + decimal((-*n) as nat));
            s
        } else {
            decimal_string(*n as u64)
        },
        _ => String::new(),
    }
}

/// Writes the label of an object at a path.
fn label_of(criteria: &Criteria, path: &str, attrs: &Vec<(String, Value)>) -> (r: String)
    ensures
        r@ == object_label(criteria@, path@, attrs@),
{
    match criteria.is_split_enum(path) {
        Some(d) => {
            let mut i: usize = attrs.len();
            while i > 0
                invariant
                    i <= attrs@.len(),
                    criteria@.contains_key(path@),
                    criteria@[path@] == d@,
                    discriminant_label(attrs@, d@, attrs@.len()) == discriminant_label(
                        attrs@,
                        d@,
                        i as nat,
                    ),
                decreases i,
            {
                i -= 1;
                assert(discriminant_label(attrs@, d@, (i + 1) as nat) == (if attrs@[i as int].0@
                    == d@ {
                    value_label(attrs@[i as int].1)
                } else {
                    discriminant_label(attrs@, d@, i as nat)
                }));
                if same_text(attrs[i].0.as_str(), d) {
                    return label_string(&attrs[i].1);
                }
            }
            String::new()
        },
        None => String::new(),
    }
}

impl Type {
    /// The shape of a document.
    pub fn from_value(criteria: &Criteria, val: &Value) -> (r: Type)
        ensures
            type_wf(r@),
            shape_matches(criteria@, Seq::empty(), *val, r@),
            single(r@) == value_shapes(criteria@, Seq::empty(), *val),
    {
        proof {
            reveal_strlit("");
            assert(""@ =~= Seq::<char>::empty());
        }
        Type::from_value_at(criteria, "", val)
    }

    /// The shape of a document value that stands at a field path.
    #[verifier::rlimit(40)]
    pub fn from_value_at(criteria: &Criteria, path: &str, val: &Value) -> (r: Type)
        ensures
            type_wf(r@),
            shape_matches(criteria@, path@, *val, r@),
            single(r@) == value_shapes(criteria@, path@, *val),
        decreases val,
    {
        match val {
            Value::Null => Type::Null,
            Value::Bool(_) => Type::Bool,
            Value::Unsigned(_) => Type::U64,
            Value::Signed(n) => if *n >= 0 {
                Type::U64
            } else {
                Type::I64
            },
            Value::Float => Type::Float,
            Value::String(_) => Type::String,
            Value::Array(items) => {
                let mut inner = Types::empty();
                assert(shapes(empty_model()).objects =~= empty_shapes().objects);
                let mut i: usize = 0;
                while i < items.len()
                    invariant
                        i <= items@.len(),
                        decreases_to!(*val => *items),
                        types_wf(inner@),
                        shapes(inner@) == items_shapes(criteria@, path@, items@, i as nat),
                    decreases items@.len() - i,
                {
                    let t = Type::from_value_at(criteria, path, &items[i]);
                    inner.add(t);
                    i += 1;
                }
                Type::Array(inner)
            },
            Value::Object(attrs) => {
                let mut scheme = ObjectScheme::new();
                assert(fields_map(scheme@.fields) =~= Map::empty());
                let mut i: usize = 0;
                while i < attrs.len()
                    invariant
                        i <= attrs@.len(),
                        decreases_to!(*val => *attrs),
                        scheme_wf(scheme@),
                        fields_map(scheme@.fields) == attrs_shapes(
                            criteria@,
                            path@,
                            attrs@,
                            i as nat,
                        ),
                    decreases attrs@.len() - i,
                {
                    let child = child_path_string(path, attrs[i].0.as_str());
                    let t = Type::from_value_at(criteria, child.as_str(), &attrs[i].1);
                    scheme.insert(attrs[i].0.clone(), t);
                    i += 1;
                }
                let label = label_of(criteria, path, attrs);
                assert(fields(scheme@).map =~= fields_map(scheme@.fields));
                Type::Object(label, scheme)
            },
        }
    }
}

} // verus!
