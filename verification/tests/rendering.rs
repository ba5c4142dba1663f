use schema_gen::schema::text::decimal_string;
use schema_gen::schema::{Definition, Enum, Schema, SchemaType, SchemaTypes, Struct, Variant};

#[test]
fn numbers_are_written_in_decimal() {
    assert_eq!(decimal_string(0), "0");
    assert_eq!(decimal_string(7), "7");
    assert_eq!(decimal_string(10), "10");
    assert_eq!(decimal_string(1234567890), "1234567890");
    assert_eq!(decimal_string(u64::MAX), "18446744073709551615");
}

#[test]
fn types_are_written() {
    let plain = |typ| SchemaType { is_nullable: false, typ };
    assert_eq!(plain(SchemaTypes::Unit).to_text(), "()");
    assert_eq!(plain(SchemaTypes::Bool).to_text(), "bool");
    assert_eq!(plain(SchemaTypes::U64).to_text(), "u64");
    assert_eq!(plain(SchemaTypes::I64).to_text(), "i64");
    assert_eq!(plain(SchemaTypes::Float).to_text(), "f64");
    assert_eq!(plain(SchemaTypes::String).to_text(), "String");
    assert_eq!(plain(SchemaTypes::Struct(12)).to_text(), "Struct12");
    assert_eq!(plain(SchemaTypes::Enum(3)).to_text(), "Enum3");
    let nested = SchemaType {
        is_nullable: true,
        typ: SchemaTypes::Array(Box::new(SchemaType {
            is_nullable: true,
            typ: SchemaTypes::Array(Box::new(plain(SchemaTypes::I64))),
        })),
    };
    assert_eq!(nested.to_text(), "Option<Vec<Option<Vec<i64>>>>");
}

#[test]
fn variants_are_named() {
    assert_eq!(Variant::primitive("Bool").to_text(), "Bool");
    assert_eq!(Variant::Struct(4).to_text(), "Struct4");
    assert_eq!(Variant::Enum(40).to_text(), "Enum40");
    assert_eq!(SchemaTypes::Unit.varinat(), Variant::Primitive("Unit".to_string()));
    assert_eq!(SchemaTypes::Bool.varinat(), Variant::Primitive("Bool".to_string()));
    assert_eq!(SchemaTypes::U64.varinat(), Variant::Primitive("U64".to_string()));
    assert_eq!(SchemaTypes::I64.varinat(), Variant::Primitive("I64".to_string()));
    assert_eq!(SchemaTypes::Float.varinat(), Variant::Primitive("Float".to_string()));
    assert_eq!(SchemaTypes::String.varinat(), Variant::Primitive("String".to_string()));
    let array = SchemaTypes::Array(Box::new(SchemaType { is_nullable: false, typ: SchemaTypes::Unit }));
    assert_eq!(array.varinat(), Variant::Primitive("Array".to_string()));
    assert_eq!(SchemaTypes::Struct(9).varinat(), Variant::Struct(9));
    assert_eq!(SchemaTypes::Enum(8).varinat(), Variant::Enum(8));
}

#[test]
fn struct_is_printed() {
    let st = Struct(vec![
        ("id".to_string(), SchemaType { is_nullable: false, typ: SchemaTypes::U64 }),
        ("name".to_string(), SchemaType { is_nullable: true, typ: SchemaTypes::String }),
    ]);
    assert_eq!(
        st.print("Thing"),
        "pub struct Thing {\n    \"id\": u64,\n    \"name\": Option<String>,\n}\n"
    );
    assert_eq!(Struct(vec![]).print("Empty"), "pub struct Empty {\n}\n");
}

#[test]
fn enum_is_printed() {
    let mut e = Enum::new();
    e.add(Variant::primitive("Bool"), SchemaTypes::Bool);
    e.add(Variant::Struct(2), SchemaTypes::Struct(2));
    assert_eq!(e.print("Choice"), "pub enum Choice {\n    Bool(bool),\n    Struct2(Struct2),\n}\n");
}

#[test]
fn schema_prints_root_then_structs_then_enums() {
    let mut e = Enum::new();
    e.add(Variant::primitive("Bool"), SchemaTypes::Bool);
    e.add(Variant::primitive("U64"), SchemaTypes::U64);
    let s = Schema {
        root: SchemaType { is_nullable: false, typ: SchemaTypes::Enum(0) },
        defs: vec![
            Definition::Enum(e),
            Definition::Struct(Struct(vec![])),
            Definition::Pending,
            Definition::Struct(Struct(vec![(
                "k".to_string(),
                SchemaType { is_nullable: false, typ: SchemaTypes::Enum(0) },
            )])),
        ],
    };
    assert_eq!(
        s.print(),
        "pub enum Root {\n    Bool(bool),\n    U64(u64),\n}\n\n\
         pub struct Struct1 {\n}\n\n\
         pub struct Struct3 {\n    \"k\": Enum0,\n}\n\n\
         pub enum Enum0 {\n    Bool(bool),\n    U64(u64),\n}\n"
    );
}

#[test]
fn root_without_definition_is_wrapped() {
    let s = Schema {
        root: SchemaType { is_nullable: true, typ: SchemaTypes::Struct(5) },
        defs: vec![],
    };
    assert_eq!(s.print(), "pub struct Root(Option<Struct5>)\n");
    let a = Schema {
        root: SchemaType {
            is_nullable: false,
            typ: SchemaTypes::Array(Box::new(SchemaType {
                is_nullable: false,
                typ: SchemaTypes::Struct(0),
            })),
        },
        defs: vec![Definition::Struct(Struct(vec![]))],
    };
    assert_eq!(a.print(), "pub struct Root(Vec<Struct0>)\n\npub struct Struct0 {\n}\n");
}

#[test]
fn enum_keeps_one_arm_per_tag_in_the_order_of_tags() {
    let mut e = Enum::new();
    e.add(Variant::Enum(1), SchemaTypes::Enum(1));
    e.add(Variant::Struct(7), SchemaTypes::Struct(7));
    e.add(Variant::primitive("U64"), SchemaTypes::U64);
    e.add(Variant::Struct(2), SchemaTypes::Struct(2));
    e.add(Variant::primitive("Bool"), SchemaTypes::Unit);
    e.add(Variant::primitive("Bool"), SchemaTypes::Bool);
    e.add(Variant::Enum(0), SchemaTypes::Enum(0));
    assert_eq!(
        e.print("E"),
        "pub enum E {\n    Bool(bool),\n    U64(u64),\n    Struct2(Struct2),\n    Struct7(Struct7),\n    Enum0(Enum0),\n    Enum1(Enum1),\n}\n"
    );
    assert!(Variant::primitive("Bool").less(&Variant::primitive("U64")));
    assert!(!Variant::primitive("U64").less(&Variant::primitive("Bool")));
    assert!(Variant::primitive("zzz").less(&Variant::Struct(0)));
    assert!(Variant::Struct(9).less(&Variant::Enum(0)));
    assert!(!Variant::Enum(0).less(&Variant::Struct(9)));
    assert!(!Variant::Struct(3).less(&Variant::Struct(3)));
    assert!(Variant::Struct(3).same(&Variant::Struct(3)));
    assert!(!Variant::Struct(3).same(&Variant::Enum(3)));
    assert!(Variant::primitive("a").same(&Variant::primitive("a")));
    assert!(!Variant::primitive("a").same(&Variant::primitive("b")));
}

#[test]
fn defaults_are_empty() {
    assert_eq!(Enum::default().print("E"), "pub enum E {\n}\n");
    assert!(schema_gen::schema::SchemaBuilder::default().defs.is_empty());
    assert_eq!(schema_gen::schema::criteria::Criteria::default().is_split_enum(""), None);
}
