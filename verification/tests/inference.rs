use schema_gen::schema::criteria::{Criteria, Criterias};
use schema_gen::schema::types::{ObjectScheme, Type, Types};
use schema_gen::schema::value::Value;
use schema_gen::schema::{
    Definition, Schema, SchemaBuilder, SchemaGenerator, SchemaType, SchemaTypes, Variant,
};

fn text(s: &str) -> Value {
    Value::String(s.to_string())
}

fn object(attrs: Vec<(&str, Value)>) -> Value {
    Value::Object(attrs.into_iter().map(|(k, v)| (k.to_string(), v)).collect())
}

fn schema_of(criteria: Criteria, docs: Vec<Value>) -> Schema {
    let mut g = SchemaGenerator::new(criteria);
    for d in docs {
        g.add_value(d);
    }
    g.build()
}

fn shape(v: Value) -> Type {
    Type::from_value(&Criteria::new(), &v)
}

#[test]
fn scalars_are_classified() {
    assert!(matches!(shape(Value::Unsigned(42)), Type::U64));
    assert!(matches!(shape(Value::Signed(-3)), Type::I64));
    assert!(matches!(shape(Value::Float), Type::Float));
    assert!(matches!(shape(text("x")), Type::String));
    assert!(matches!(shape(Value::Bool(true)), Type::Bool));
    assert!(matches!(shape(Value::Null), Type::Null));
}

#[test]
fn signed_value_without_sign_is_unsigned() {
    assert!(matches!(shape(Value::Signed(0)), Type::U64));
    assert!(matches!(shape(Value::Signed(7)), Type::U64));
    assert!(matches!(shape(Value::Signed(i64::MIN)), Type::I64));
}

#[test]
fn empty_array_has_no_variants() {
    match shape(Value::Array(vec![])) {
        Type::Array(inner) => {
            assert_eq!(inner.variants_count(), 0);
            assert!(!inner.is_nullable());
        }
        _ => panic!("an array was expected"),
    }
    let s = schema_of(Criteria::new(), vec![Value::Array(vec![])]);
    assert_eq!(s.print(), "pub struct Root(Vec<()>)\n");
}

#[test]
fn empty_object_is_a_struct_without_fields() {
    match shape(object(vec![])) {
        Type::Object(label, scheme) => {
            assert_eq!(label, "");
            assert!(scheme.fields.is_empty());
        }
        _ => panic!("an object was expected"),
    }
    let s = schema_of(Criteria::new(), vec![object(vec![])]);
    assert_eq!(s.root, SchemaType { is_nullable: false, typ: SchemaTypes::Struct(0) });
    assert_eq!(s.print(), "pub struct Root {\n}\n\npub struct Struct0 {\n}\n");
}

#[test]
fn no_document_gives_unit() {
    let s = schema_of(Criteria::new(), vec![]);
    assert_eq!(s.root, SchemaType { is_nullable: false, typ: SchemaTypes::Unit });
    assert!(s.defs.is_empty());
    assert_eq!(s.print(), "pub struct Root(())\n");
}

#[test]
fn only_null_gives_nullable_unit() {
    let s = schema_of(Criteria::new(), vec![Value::Null, Value::Null]);
    assert_eq!(s.root, SchemaType { is_nullable: true, typ: SchemaTypes::Unit });
    assert_eq!(s.print(), "pub struct Root(Option<()>)\n");
}

#[test]
fn homogeneous_samples_give_one_struct() {
    let mut docs = Vec::new();
    for _ in 0..5 {
        docs.push(object(vec![("a", Value::Unsigned(1)), ("b", text("x"))]));
    }
    let s = schema_of(Criteria::new(), docs);
    assert_eq!(s.root, SchemaType { is_nullable: false, typ: SchemaTypes::Struct(0) });
    assert_eq!(s.defs.len(), 1);
    match &s.defs[0] {
        Definition::Struct(st) => {
            assert_eq!(st.0.len(), 2);
            assert_eq!(st.0[0].0, "a");
            assert_eq!(st.0[0].1, SchemaType { is_nullable: false, typ: SchemaTypes::U64 });
            assert_eq!(st.0[1].0, "b");
            assert_eq!(st.0[1].1, SchemaType { is_nullable: false, typ: SchemaTypes::String });
        }
        _ => panic!("a struct was expected"),
    }
    assert_eq!(
        s.print(),
        "pub struct Root {\n    \"a\": u64,\n    \"b\": String,\n}\n\npub struct Struct0 {\n    \"a\": u64,\n    \"b\": String,\n}\n"
    );
}

#[test]
fn scalar_polymorphism_gives_an_enum() {
    let docs = vec![
        object(vec![("a", Value::Unsigned(1))]),
        object(vec![("a", text("x"))]),
        object(vec![("a", Value::Unsigned(2))]),
        object(vec![("a", text("y"))]),
    ];
    let s = schema_of(Criteria::new(), docs);
    assert_eq!(s.defs.len(), 2);
    match &s.defs[0] {
        Definition::Struct(st) => {
            assert_eq!(st.0.len(), 1);
            assert_eq!(st.0[0].1, SchemaType { is_nullable: false, typ: SchemaTypes::Enum(1) });
        }
        _ => panic!("a struct was expected"),
    }
    match &s.defs[1] {
        Definition::Enum(e) => {
            assert_eq!(e.0.len(), 2);
            assert_eq!(e.0[0], (Variant::Primitive("String".to_string()), SchemaTypes::String));
            assert_eq!(e.0[1], (Variant::Primitive("U64".to_string()), SchemaTypes::U64));
        }
        _ => panic!("an enum was expected"),
    }
    assert_eq!(
        s.print(),
        "pub struct Root {\n    \"a\": Enum1,\n}\n\npub struct Struct0 {\n    \"a\": Enum1,\n}\n\npub enum Enum1 {\n    String(String),\n    U64(u64),\n}\n"
    );
}

#[test]
fn omitted_field_is_nullable() {
    let docs = vec![
        object(vec![("a", Value::Unsigned(1)), ("b", text("x"))]),
        object(vec![("a", Value::Unsigned(2))]),
        object(vec![("a", Value::Unsigned(3)), ("b", Value::Bool(true))]),
        object(vec![("a", Value::Unsigned(4))]),
    ];
    let s = schema_of(Criteria::new(), docs);
    match &s.defs[0] {
        Definition::Struct(st) => {
            assert_eq!(st.0[0].0, "a");
            assert!(!st.0[0].1.is_nullable);
            assert_eq!(st.0[1].0, "b");
            assert!(st.0[1].1.is_nullable);
            assert_eq!(st.0[1].1.typ, SchemaTypes::Enum(1));
        }
        _ => panic!("a struct was expected"),
    }
    let one = schema_of(
        Criteria::new(),
        vec![object(vec![("b", text("x"))]), object(vec![])],
    );
    assert_eq!(
        one.print(),
        "pub struct Root {\n    \"b\": Option<String>,\n}\n\npub struct Struct0 {\n    \"b\": Option<String>,\n}\n"
    );
}

#[test]
fn first_sample_without_the_field_makes_it_nullable() {
    let s = schema_of(
        Criteria::new(),
        vec![object(vec![]), object(vec![("b", Value::Unsigned(1))])],
    );
    match &s.defs[0] {
        Definition::Struct(st) => {
            assert_eq!(st.0[0].1, SchemaType { is_nullable: true, typ: SchemaTypes::U64 })
        }
        _ => panic!("a struct was expected"),
    }
}

fn planet() -> Value {
    object(vec![(
        "body",
        object(vec![("type", text("planet")), ("radius", Value::Unsigned(1))]),
    )])
}

fn star() -> Value {
    object(vec![(
        "body",
        object(vec![("type", text("star")), ("luminosity", Value::Unsigned(2))]),
    )])
}

#[test]
fn discriminant_splits_objects() {
    let mut c = Criteria::new();
    c.add("body", "type");
    let s = schema_of(c, vec![planet(), star()]);
    assert_eq!(
        s.print(),
        "pub struct Root {\n    \"body\": Enum1,\n}\n\n\
         pub struct Struct0 {\n    \"body\": Enum1,\n}\n\n\
         pub struct Struct2 {\n    \"radius\": u64,\n    \"type\": String,\n}\n\n\
         pub struct Struct3 {\n    \"luminosity\": u64,\n    \"type\": String,\n}\n\n\
         pub enum Enum1 {\n    Struct2(Struct2),\n    Struct3(Struct3),\n}\n"
    );
}

#[test]
fn without_criteria_objects_merge() {
    let s = schema_of(Criteria::new(), vec![planet(), star()]);
    assert_eq!(
        s.print(),
        "pub struct Root {\n    \"body\": Struct1,\n}\n\n\
         pub struct Struct0 {\n    \"body\": Struct1,\n}\n\n\
         pub struct Struct1 {\n    \"luminosity\": Option<u64>,\n    \"radius\": Option<u64>,\n    \"type\": String,\n}\n"
    );
}

#[test]
fn split_objects_keep_their_labels() {
    let mut c = Criteria::new();
    c.add("body", "type");
    let t = Type::from_value(&c, &planet());
    match t {
        Type::Object(label, scheme) => {
            assert_eq!(label, "");
            assert_eq!(scheme.fields.len(), 1);
            assert_eq!(scheme.fields[0].0, "body");
            let inner = &scheme.fields[0].1;
            assert_eq!(inner.objects.len(), 1);
            assert_eq!(inner.objects[0].0, "planet");
        }
        _ => panic!("an object was expected"),
    }
}

#[test]
fn missing_discriminant_leaves_the_object_unlabelled() {
    let mut c = Criteria::new();
    c.add("body", "type");
    let doc = object(vec![("body", object(vec![("radius", Value::Unsigned(1))]))]);
    match Type::from_value(&c, &doc) {
        Type::Object(_, scheme) => assert_eq!(scheme.fields[0].1.objects[0].0, ""),
        _ => panic!("an object was expected"),
    }
    let doc = object(vec![("body", object(vec![("type", Value::Array(vec![]))]))]);
    match Type::from_value(&c, &doc) {
        Type::Object(_, scheme) => assert_eq!(scheme.fields[0].1.objects[0].0, ""),
        _ => panic!("an object was expected"),
    }
}

#[test]
fn scalar_discriminants_give_labels() {
    let mut c = Criteria::new();
    c.add("", "kind");
    let label = |v: Value| match Type::from_value(&c, &object(vec![("kind", v)])) {
        Type::Object(l, _) => l,
        _ => panic!("an object was expected"),
    };
    assert_eq!(label(Value::Bool(true)), "true");
    assert_eq!(label(Value::Bool(false)), "false");
    assert_eq!(label(Value::Unsigned(1204)), "1204");
    assert_eq!(label(Value::Signed(-35)), "-35");
    assert_eq!(label(Value::Signed(i64::MIN)), "-9223372036854775808");
    assert_eq!(label(Value::Signed(12)), "12");
    assert_eq!(label(Value::Float), "");
    assert_eq!(label(Value::Null), "");
}

#[test]
fn nested_paths_are_dotted() {
    let mut c = Criteria::new();
    c.add("a.b", "t");
    let doc = object(vec![("a", object(vec![("b", object(vec![("t", text("k"))]))]))]);
    match Type::from_value(&c, &doc) {
        Type::Object(_, top) => {
            let a = &top.fields[0].1.objects[0];
            assert_eq!(a.0, "");
            let b = &a.1.fields[0].1.objects[0];
            assert_eq!(b.0, "k");
        }
        _ => panic!("an object was expected"),
    }
}

#[test]
fn array_elements_stand_at_the_path_of_the_array() {
    let mut c = Criteria::new();
    c.add("items", "t");
    let doc = object(vec![(
        "items",
        Value::Array(vec![object(vec![("t", text("x"))]), object(vec![("t", text("y"))])]),
    )]);
    match Type::from_value(&c, &doc) {
        Type::Object(_, top) => match &top.fields[0].1.array {
            Some(inner) => {
                assert_eq!(inner.objects.len(), 2);
                assert_eq!(inner.objects[0].0, "x");
                assert_eq!(inner.objects[1].0, "y");
            }
            None => panic!("an array was expected"),
        },
        _ => panic!("an object was expected"),
    }
}

#[test]
fn order_of_documents_does_not_matter() {
    let docs = || {
        vec![
            object(vec![("z", Value::Unsigned(1)), ("a", Value::Null)]),
            object(vec![("a", Value::Array(vec![text("s"), Value::Signed(-1)]))]),
            object(vec![("m", object(vec![("k", Value::Float)])), ("z", text("t"))]),
            Value::Array(vec![Value::Bool(false)]),
            Value::Null,
            object(vec![("m", object(vec![("j", Value::Bool(true))]))]),
        ]
    };
    let forward = schema_of(Criteria::new(), docs());
    let mut reversed = docs();
    reversed.reverse();
    let backward = schema_of(Criteria::new(), reversed);
    let mut rotated = docs();
    rotated.rotate_left(2);
    let third = schema_of(Criteria::new(), rotated);
    assert_eq!(forward, backward);
    assert_eq!(forward, third);
    assert_eq!(forward.print(), backward.print());
}

#[test]
fn order_of_split_documents_does_not_matter() {
    let make = || {
        let mut c = Criteria::new();
        c.add("body", "type");
        c
    };
    let one = schema_of(make(), vec![planet(), star(), planet()]);
    let two = schema_of(make(), vec![star(), planet()]);
    assert_eq!(one, two);
}

#[test]
fn repeated_documents_change_nothing() {
    let doc = || object(vec![("a", Value::Array(vec![Value::Unsigned(1), Value::Null]))]);
    let once = schema_of(Criteria::new(), vec![doc()]);
    let often = schema_of(Criteria::new(), vec![doc(), doc(), doc()]);
    assert_eq!(once, often);
    assert_eq!(
        once.print(),
        "pub struct Root {\n    \"a\": Vec<Option<u64>>,\n}\n\npub struct Struct0 {\n    \"a\": Vec<Option<u64>>,\n}\n"
    );
}

#[test]
fn nullable_stays_nullable() {
    let mut t = Types::empty();
    assert!(!t.is_nullable());
    t.add(Type::Null);
    assert!(t.is_nullable());
    t.add(Type::U64);
    t.add(Type::Array(Types::empty()));
    t.add(Type::Object(String::new(), ObjectScheme::new()));
    assert!(t.is_nullable());
    assert_eq!(t.variants_count(), 3);
}

#[test]
fn variants_are_a_set() {
    let mut t = Types::empty();
    assert_eq!(t.variants_count(), 0);
    assert_eq!(t.arity(), 0);
    t.add(Type::Bool);
    t.add(Type::Bool);
    assert_eq!(t.variants_count(), 1);
    assert_eq!(t.arity(), 1);
    t.add(Type::I64);
    t.add(Type::Float);
    t.add(Type::String);
    t.add(Type::U64);
    assert_eq!(t.variants_count(), 5);
    assert_eq!(t.arity(), 2);
    t.add(Type::Object("b".to_string(), ObjectScheme::new()));
    t.add(Type::Object("a".to_string(), ObjectScheme::new()));
    t.add(Type::Object("b".to_string(), ObjectScheme::new()));
    assert_eq!(t.variants_count(), 7);
    assert_eq!(t.objects[0].0, "a");
    assert_eq!(t.objects[1].0, "b");
}

#[test]
fn fields_stand_in_the_order_of_their_names() {
    let doc = object(vec![
        ("b", Value::Unsigned(1)),
        ("ab", Value::Unsigned(1)),
        ("a", Value::Unsigned(1)),
        ("B", Value::Unsigned(1)),
        ("", Value::Unsigned(1)),
    ]);
    match shape(doc) {
        Type::Object(_, scheme) => {
            let names: Vec<&str> = scheme.fields.iter().map(|f| f.0.as_str()).collect();
            assert_eq!(names, vec!["", "B", "a", "ab", "b"]);
        }
        _ => panic!("an object was expected"),
    }
}

#[test]
fn arrays_merge_their_elements() {
    let docs = vec![
        Value::Array(vec![Value::Unsigned(1)]),
        Value::Array(vec![text("x"), Value::Null]),
        Value::Array(vec![]),
    ];
    let s = schema_of(Criteria::new(), docs);
    assert_eq!(
        s.print(),
        "pub struct Root(Vec<Option<Enum0>>)\n\npub enum Enum0 {\n    String(String),\n    U64(u64),\n}\n"
    );
}

#[test]
fn enum_arms_stand_in_the_order_of_their_tags() {
    let docs = vec![
        Value::Unsigned(1),
        Value::Signed(-1),
        Value::Float,
        text("x"),
        Value::Bool(true),
        Value::Array(vec![Value::Bool(true)]),
        object(vec![("f", Value::Null)]),
        Value::Null,
    ];
    let s = schema_of(Criteria::new(), docs);
    assert_eq!(s.root, SchemaType { is_nullable: true, typ: SchemaTypes::Enum(0) });
    assert_eq!(
        s.print(),
        "pub enum Root {\n    Array(Vec<bool>),\n    Bool(bool),\n    Float(f64),\n    I64(i64),\n    String(String),\n    U64(u64),\n    Struct1(Struct1),\n}\n\n\
         pub struct Struct1 {\n    \"f\": Option<()>,\n}\n\n\
         pub enum Enum0 {\n    Array(Vec<bool>),\n    Bool(bool),\n    Float(f64),\n    I64(i64),\n    String(String),\n    U64(u64),\n    Struct1(Struct1),\n}\n"
    );
}

#[test]
fn ids_follow_depth_first_discovery() {
    let doc = object(vec![
        ("a", object(vec![("x", object(vec![]))])),
        ("b", object(vec![])),
    ]);
    let s = schema_of(Criteria::new(), vec![doc]);
    assert_eq!(
        s.print(),
        "pub struct Root {\n    \"a\": Struct1,\n    \"b\": Struct3,\n}\n\n\
         pub struct Struct0 {\n    \"a\": Struct1,\n    \"b\": Struct3,\n}\n\n\
         pub struct Struct1 {\n    \"x\": Struct2,\n}\n\n\
         pub struct Struct2 {\n}\n\n\
         pub struct Struct3 {\n}\n"
    );
}

#[test]
fn criteria_overwrite_and_look_up() {
    let mut c = Criteria::new();
    assert_eq!(c.is_split_enum("body"), None);
    c.add("body", "type");
    c.add("rings", "kind");
    assert_eq!(c.is_split_enum("body"), Some("type"));
    assert_eq!(c.is_split_enum("rings"), Some("kind"));
    c.add("body", "subType");
    assert_eq!(c.is_split_enum("body"), Some("subType"));
    assert_eq!(c.is_split_enum("bod"), None);
    let d = c.copy();
    assert_eq!(d.is_split_enum("body"), Some("subType"));
    assert_eq!(d.is_split_enum("rings"), Some("kind"));
}

#[test]
fn registry_gives_empty_criteria_for_unknown_names() {
    let mut c = Criteria::new();
    c.add("body", "type");
    let mut all = Criterias::new();
    all.insert("bodies", c);
    assert_eq!(all.get("bodies").is_split_enum("body"), Some("type"));
    assert_eq!(all.get("stations").is_split_enum("body"), None);
    let mut other = Criteria::new();
    other.add("x", "y");
    all.insert("bodies", other);
    assert_eq!(all.get("bodies").is_split_enum("body"), None);
    assert_eq!(all.get("bodies").is_split_enum("x"), Some("y"));
}

#[test]
fn aggregates_merge() {
    let mut a = Types::empty();
    a.add(Type::from_value(
        &Criteria::new(),
        &object(vec![("x", Value::Unsigned(1)), ("y", Value::Bool(true))]),
    ));
    let mut b = Types::empty();
    b.add(Type::from_value(
        &Criteria::new(),
        &object(vec![("y", text("s")), ("z", Value::Null)]),
    ));
    b.add(Type::Float);
    a.merge(b);
    assert!(a.float);
    assert!(!a.nullable);
    assert_eq!(a.variants_count(), 2);
    let fields = &a.objects[0].1.fields;
    assert_eq!(fields.len(), 3);
    assert_eq!(fields[0].0, "x");
    assert!(fields[0].1.nullable && fields[0].1.unsigned);
    assert_eq!(fields[1].0, "y");
    assert!(!fields[1].1.nullable && fields[1].1.boolean && fields[1].1.string);
    assert_eq!(fields[2].0, "z");
    assert!(fields[2].1.nullable);
    assert_eq!(fields[2].1.variants_count(), 0);
}

#[test]
fn repeated_attribute_names_are_widened() {
    let doc = object(vec![("a", Value::Unsigned(1)), ("a", text("x"))]);
    match shape(doc) {
        Type::Object(_, scheme) => {
            assert_eq!(scheme.fields.len(), 1);
            assert!(scheme.fields[0].1.unsigned && scheme.fields[0].1.string);
            assert!(!scheme.fields[0].1.nullable);
        }
        _ => panic!("an object was expected"),
    }
}

#[test]
fn single_shapes_are_canonicalized() {
    let mut b = SchemaBuilder::new();
    assert_eq!(SchemaTypes::parse(&mut b, &Type::Bool), SchemaTypes::Bool);
    assert_eq!(SchemaTypes::parse(&mut b, &Type::U64), SchemaTypes::U64);
    assert_eq!(SchemaTypes::parse(&mut b, &Type::I64), SchemaTypes::I64);
    assert_eq!(SchemaTypes::parse(&mut b, &Type::Float), SchemaTypes::Float);
    assert_eq!(SchemaTypes::parse(&mut b, &Type::String), SchemaTypes::String);
    assert!(b.defs.is_empty());
    let o = shape(object(vec![("k", Value::Array(vec![object(vec![])]))]));
    assert_eq!(SchemaTypes::parse(&mut b, &o), SchemaTypes::Struct(0));
    assert_eq!(b.next_id(), 2);
    let root = SchemaType { is_nullable: false, typ: SchemaTypes::Struct(0) };
    assert!(root.is_struct());
    assert!(!root.is_enum());
    let s = b.build(root);
    assert_eq!(s.defs.len(), 3);
    assert_eq!(s.defs[2], Definition::Pending);
    assert_eq!(
        s.print(),
        "pub struct Root {\n    \"k\": Vec<Struct1>,\n}\n\npub struct Struct0 {\n    \"k\": Vec<Struct1>,\n}\n\npub struct Struct1 {\n}\n"
    );
}

#[test]
fn built_schema_is_closed() {
    let mut c = Criteria::new();
    c.add("body", "type");
    let docs = vec![
        planet(),
        star(),
        object(vec![("body", Value::Array(vec![object(vec![("k", Value::Null)]), Value::Float]))]),
    ];
    let s = schema_of(c, docs);
    assert_eq!(s.root, SchemaType { is_nullable: false, typ: SchemaTypes::Struct(0) });
    assert!(matches!(s.defs[0], Definition::Struct(_)));
    assert!(s.defs.iter().all(|d| *d != Definition::Pending));
    let e = schema_of(Criteria::new(), vec![Value::Bool(true), Value::Unsigned(1)]);
    assert_eq!(e.root, SchemaType { is_nullable: false, typ: SchemaTypes::Enum(0) });
    assert!(matches!(e.defs[0], Definition::Enum(_)));
    assert_eq!(e.print(), "pub enum Root {\n    Bool(bool),\n    U64(u64),\n}\n\npub enum Enum0 {\n    Bool(bool),\n    U64(u64),\n}\n");
}
