//! The text of a schema: one declaration per struct and enum.

use vstd::prelude::*;
use crate::schema::text::{decimal, decimal_string};
use crate::schema::{Def, Definition, Enum, Schema, SchemaType, SchemaTypes, Struct, Variant, VariantModel};

verus! {

/// The text of the type of a position: a nullable one is wrapped in `Option`.
pub open spec fn type_text(t: SchemaType) -> Seq<char>
    decreases t,
{
    if t.is_nullable {
        "Option<"@ + shape_text(t.typ) + ">"@
    } else {
        shape_text(t.typ)
    }
}

/// The text of a shape: a struct or an enum is named by its kind and id, an
/// array wraps the type of its elements in `Vec`.
pub open spec fn shape_text(s: SchemaTypes) -> Seq<char>
    decreases s,
{
    match s {
        SchemaTypes::Unit => "()"@,
        SchemaTypes::Bool => "bool"@,
        SchemaTypes::U64 => "u64"@,
        SchemaTypes::I64 => "i64"@,
        SchemaTypes::Float => "f64"@,
        SchemaTypes::String => "String"@,
        SchemaTypes::Array(t) => "Vec<"@ + type_text(*t) + ">"@,
        SchemaTypes::Struct(id) => "Struct"@ + decimal(id as nat),
        SchemaTypes::Enum(id) => "Enum"@ + decimal(id as nat),
    }
}

/// The name of an arm.
pub open spec fn variant_text(v: VariantModel) -> Seq<char> {
    match v {
        VariantModel::Primitive(s) => s,
        VariantModel::Struct(id) => "Struct"@ + decimal(id as nat),
        VariantModel::Enum(id) => "Enum"@ + decimal(id as nat),
    }
}

/// The line of one field of a struct.
pub open spec fn field_line(f: (Seq<char>, SchemaType)) -> Seq<char> {
    "    \""@ + f.0 + "\": "@ + type_text(f.1) + ",\n"@
}

/// The lines of the first `n` fields.
pub open spec fn field_lines(fields: Seq<(Seq<char>, SchemaType)>, n: nat) -> Seq<char>
    decreases n,
{
    if n == 0 || n > fields.len() {
        Seq::empty()
    } else {
        field_lines(fields, (n - 1) as nat) + field_line(fields[n - 1])
    }
}

/// The declaration of a struct under a name.
pub open spec fn struct_text(fields: Seq<(Seq<char>, SchemaType)>, name: Seq<char>) -> Seq<char> {
    "pub struct "@ + name + " {\n"@ + field_lines(fields, fields.len()) + "}\n"@
}

/// The line of one arm of an enum.
pub open spec fn arm_line(a: (VariantModel, SchemaTypes)) -> Seq<char> {
    "    "@ + variant_text(a.0) + "("@ + shape_text(a.1) + "),\n"@
}

/// The lines of the first `n` arms.
pub open spec fn arm_lines(arms: Seq<(VariantModel, SchemaTypes)>, n: nat) -> Seq<char>
    decreases n,
{
    if n == 0 || n > arms.len() {
        Seq::empty()
    } else {
        arm_lines(arms, (n - 1) as nat) + arm_line(arms[n - 1])
    }
}

/// The declaration of an enum under a name.
pub open spec fn enum_text(arms: Seq<(VariantModel, SchemaTypes)>, name: Seq<char>) -> Seq<char> {
    "pub enum "@ + name + " {\n"@ + arm_lines(arms, arms.len()) + "}\n"@
}

/// The block of one definition after the root: an empty line and the
/// declaration, named by kind and id. In the pass over the structs an enum
/// gives nothing, and a struct nothing in the pass over the enums.
pub open spec fn block_text(d: Def, id: nat, structs: bool) -> Seq<char> {
    match d {
        Def::Struct(f) => if structs {
            "\n"@ + struct_text(f, "Struct"@ + decimal(id))
        } else {
            Seq::empty()
        },
        Def::Enum(a) => if structs {
            Seq::empty()
        } else {
            "\n"@ + enum_text(a, "Enum"@ + decimal(id))
        },
        Def::Pending => Seq::empty(),
    }
}

/// The blocks of the first `n` definitions in one pass, by ascending id.
pub open spec fn def_blocks(defs: Seq<Def>, n: nat, structs: bool) -> Seq<char>
    decreases n,
{
    if n == 0 || n > defs.len() {
        Seq::empty()
    } else {
        def_blocks(defs, (n - 1) as nat, structs) + block_text(defs[n - 1], (n - 1) as nat, structs)
    }
}

/// The declaration of the root: the struct or the enum of the root under the
/// name `Root`, or a wrapper around the type of a root that is neither.
pub open spec fn root_text(root: SchemaType, defs: Seq<Def>) -> Seq<char> {
    match root.typ {
        SchemaTypes::Struct(id) => if id < defs.len() && defs[id as int] is Struct {
            struct_text(defs[id as int]->Struct_0, "Root"@)
        } else {
            "pub struct Root("@ + type_text(root) + ")\n"@
        },
        SchemaTypes::Enum(id) => if id < defs.len() && defs[id as int] is Enum {
            enum_text(defs[id as int]->Enum_0, "Root"@)
        } else {
            "pub struct Root("@ + type_text(root) + ")\n"@
        },
        _ => "pub struct Root("@ + type_text(root) + ")\n"@,
    }
}

/// The text of a schema: the root, then the structs, then the enums.
pub open spec fn schema_text(root: SchemaType, defs: Seq<Def>) -> Seq<char> {
    root_text(root, defs) + def_blocks(defs, defs.len(), true) + def_blocks(
        defs,
        defs.len(),
        false,
    )
}

/// The name of a definition: its kind and its id.
fn numbered(kind: &str, id: u64) -> (r: String)
    ensures
        r@ == kind@ + decimal(id as nat),
{
    let mut s = String::from_str(kind);
    let digits = decimal_string(id);
    s.append(digits.as_str());
    s
}

impl SchemaType {
    /// Writes the type.
    pub fn to_text(&self) -> (r: String)
        ensures
            r@ == type_text(*self),
        decreases self,
    {
        if self.is_nullable {
            let mut s = String::from_str("Option<");
            let inner = self.typ.to_text();
            s.append(inner.as_str());
            s.append(">");
            s
        } else {
            self.typ.to_text()
        }
    }

    /// Writes the wrapper that declares a root which is neither struct nor enum.
    fn wrapper(&self) -> (r: String)
        ensures
            r@ == "pub struct Root("@ + type_text(*self) + ")\n"@,
    {
        let mut s = String::from_str("pub struct Root(");
        let inner = self.to_text();
        s.append(inner.as_str());
        s.append(")\n");
        s
    }
}

impl SchemaTypes {
    /// Writes the shape.
    pub fn to_text(&self) -> (r: String)
        ensures
            r@ == shape_text(*self),
        decreases self,
    {
        match self {
            SchemaTypes::Unit => String::from_str("()"),
            SchemaTypes::Bool => String::from_str("bool"),
            SchemaTypes::U64 => String::from_str("u64"),
            SchemaTypes::I64 => String::from_str("i64"),
            SchemaTypes::Float => String::from_str("f64"),
            SchemaTypes::String => String::from_str("String"),
            SchemaTypes::Array(t) => {
                let mut s = String::from_str("Vec<");
                let inner = t.to_text();
                s.append(inner.as_str());
                s.append(">");
                s
            },
            SchemaTypes::Struct(id) => numbered("Struct", *id),
            SchemaTypes::Enum(id) => numbered("Enum", *id),
        }
    }
}

impl Variant {
    /// Writes the name of the arm.
    pub fn to_text(&self) -> (r: String)
        ensures
            r@ == variant_text(self@),
    {
        match self {
            Variant::Primitive(s) => s.clone(),
            Variant::Struct(id) => numbered("Struct", *id),
            Variant::Enum(id) => numbered("Enum", *id),
        }
    }
}

impl Struct {
    /// Writes the declaration of the struct under a name.
    pub fn print(&self, name: &str) -> (r: String)
        ensures
            r@ == struct_text(self@, name@),
    {
        let mut s = String::from_str("pub struct ");
        s.append(name);
        s.append(" {\n");
        let ghost head = s@;
        let mut i: usize = 0;
        while i < self.0.len()
            invariant
                i <= self.0@.len(),
                self@.len() == self.0@.len(),
                s@ == head + field_lines(self@, i as nat),
            decreases self.0@.len() - i,
        {
            let mut line = String::from_str("    \"");
            line.append(self.0[i].0.as_str());
            line.append("\": ");
            let t = self.0[i].1.to_text();
            line.append(t.as_str());
            line.append(",\n");
            assert(line@ == field_line(self@[i as int]));
            s.append(line.as_str());
            assert(s@ =~= head + field_lines(self@, (i + 1) as nat));
            i += 1;
        }
        s.append("}\n");
        s
    }
}

impl Enum {
    /// Writes the declaration of the enum under a name.
    pub fn print(&self, name: &str) -> (r: String)
        ensures
            r@ == enum_text(self@, name@),
    {
        let mut s = String::from_str("pub enum ");
        s.append(name);
        s.append(" {\n");
        let ghost head = s@;
        let mut i: usize = 0;
        while i < self.0.len()
            invariant
                i <= self.0@.len(),
                self@.len() == self.0@.len(),
                s@ == head + arm_lines(self@, i as nat),
            decreases self.0@.len() - i,
        {
            let mut line = String::from_str("    ");
            let v = self.0[i].0.to_text();
            line.append(v.as_str());
            line.append("(");
            let t = self.0[i].1.to_text();
            line.append(t.as_str());
            line.append("),\n");
            assert(line@ == arm_line(self@[i as int]));
            s.append(line.as_str());
            assert(s@ =~= head + arm_lines(self@, (i + 1) as nat));
            i += 1;
        }
        s.append("}\n");
        s
    }
}

impl Definition {
    /// Writes the block of the definition in one of the two passes.
    fn block(&self, id: u64, structs: bool) -> (r: String)
        ensures
            r@ == block_text(self@, id as nat, structs),
    {
        match self {
            Definition::Struct(st) => if structs {
                let mut s = String::from_str("\n");
                let name = numbered("Struct", id);
                let body = st.print(name.as_str());
                s.append(body.as_str());
                s
            } else {
                String::new()
            },
            Definition::Enum(e) => if structs {
                String::new()
            } else {
                let mut s = String::from_str("\n");
                let name = numbered("Enum", id);
                let body = e.print(name.as_str());
                s.append(body.as_str());
                s
            },
            Definition::Pending => String::new(),
        }
    }
}

impl Schema {
    /// Writes the declaration of the root.
    fn print_root(&self) -> (r: String)
        ensures
            r@ == root_text(self.root, self.table()),
    {
        match &self.root.typ {
            SchemaTypes::Struct(id) => {
                if *id < self.defs.len() as u64 {
                    match &self.defs[*id as usize] {
                        Definition::Struct(st) => st.print("Root"),
                        _ => self.root.wrapper(),
                    }
                } else {
                    self.root.wrapper()
                }
            },
            SchemaTypes::Enum(id) => {
                if *id < self.defs.len() as u64 {
                    match &self.defs[*id as usize] {
                        Definition::Enum(e) => e.print("Root"),
                        _ => self.root.wrapper(),
                    }
                } else {
                    self.root.wrapper()
                }
            },
            _ => self.root.wrapper(),
        }
    }

    /// Writes the blocks of one pass over the definitions.
    fn print_blocks(&self, structs: bool) -> (r: String)
        ensures
            r@ == def_blocks(self.table(), self.table().len(), structs),
    {
        let mut s = String::new();
        let mut i: usize = 0;
        while i < self.defs.len()
            invariant
                i <= self.defs@.len(),
                self.table().len() == self.defs@.len(),
                s@ == def_blocks(self.table(), i as nat, structs),
            decreases self.defs@.len() - i,
        {
            let block = self.defs[i].block(i as u64, structs);
            s.append(block.as_str());
            i += 1;
        }
        s
    }

    /// Writes the schema: the root first, then every struct by ascending id,
    /// then every enum by ascending id.
    pub fn print(&self) -> (r: String)
        ensures
            r@ == schema_text(self.root, self.table()),
    {
        let mut s = self.print_root();
        let structs = self.print_blocks(true);
        s.append(structs.as_str());
        let enums = self.print_blocks(false);
        s.append(enums.as_str());
        s
    }
}

} // verus!
