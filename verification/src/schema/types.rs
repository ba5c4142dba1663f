//! The shape algebra: one observed shape, and the aggregate of the shapes seen
//! at one position.

use vstd::prelude::*;
use crate::schema::laws::{law_widening_keeps, within};
use crate::schema::model::{
    empty_model, fields, fields_map, has_key, index_of, lemma_fields_step_found,
    lemma_fields_step_new, lemma_index_of, lemma_insert_keys, lemma_objects_step_found,
    lemma_objects_step_new, lemma_shapes_with_null, lemma_update_keys, merge, merge_fields,
    merged_objects, objects_map, partial_fields, scheme_wf, shapes, single, sorted, type_wf,
    types_wf, variants, with_field, with_null, Fields, SchemeModel, TypeModel, TypesModel,
};
use crate::schema::text::{
    lemma_lex_asymmetric, lemma_lex_irreflexive, lemma_lex_total, lemma_lex_transitive,
    lex_less, str_less,
};

verus! {

/// One concrete shape observed at a position.
#[derive(Debug)]
pub enum Type {
    Null,
    Bool,
    U64,
    I64,
    Float,
    String,
    Array(Types),
    Object(String, ObjectScheme),
}

/// The distinct shapes observed at one position. The scalar kinds are flags;
/// all arrays share one entry; the objects stand one per label, in the order
/// of the labels.
#[derive(Debug)]
pub struct Types {
    pub nullable: bool,
    pub boolean: bool,
    pub unsigned: bool,
    pub signed: bool,
    pub float: bool,
    pub string: bool,
    pub array: Option<Box<Types>>,
    pub objects: Vec<(String, ObjectScheme)>,
}

/// The fields of an object position, in the order of their names.
#[derive(Debug)]
pub struct ObjectScheme {
    pub fields: Vec<(String, Types)>,
}

/// The names of the entries stand in strict order.
pub open spec fn keys_sorted<V>(s: Seq<(String, V)>) -> bool {
    forall|i: int, j: int|
        0 <= i < j < s.len() ==> lex_less((#[trigger] s[i]).0@, (#[trigger] s[j]).0@)
}

/// Finds the place of a name in an ordered list: the index of the first entry
/// that is not below it, and whether that entry carries the name.
fn position<V>(v: &Vec<(String, V)>, key: &String) -> (r: (usize, bool))
    requires
        keys_sorted(v@),
    ensures
        r.0 <= v@.len(),
        forall|i: int| 0 <= i < r.0 ==> lex_less((#[trigger] v@[i]).0@, key@),
        r.1 == (r.0 < v@.len() && v@[r.0 as int].0@ == key@),
        !r.1 ==> forall|i: int| r.0 <= i < v@.len() ==> lex_less(key@, (#[trigger] v@[i]).0@),
        r.1 == (exists|i: int| 0 <= i < v@.len() && (#[trigger] v@[i]).0@ == key@),
{
    let mut i: usize = 0;
    while i < v.len()
        invariant
            i <= v@.len(),
            keys_sorted(v@),
            forall|j: int| 0 <= j < i ==> lex_less((#[trigger] v@[j]).0@, key@),
        decreases v@.len() - i,
    {
        if str_less(v[i].0.as_str(), key.as_str()) {
            i += 1;
        } else {
            let found = v[i].0 == *key;
            proof {
                let at = v@[i as int].0@;
                if !found {
                    lemma_lex_total(at, key@);
                    assert forall|j: int| i <= j < v@.len() implies lex_less(
                        key@,
                        (#[trigger] v@[j]).0@,
                    ) by {
                        if j > i {
                            assert(lex_less(v@[i as int].0@, v@[j].0@));
                            lemma_lex_transitive(key@, at, v@[j].0@);
                        }
                    }
                }
                assert forall|j: int| 0 <= j < v@.len() && (#[trigger] v@[j]).0@ == key@ implies j
                    == i by {
                    lemma_lex_irreflexive(key@);
                    if j > i {
                        assert(lex_less(v@[i as int].0@, v@[j].0@));
                        if !found {
                            lemma_lex_asymmetric(key@, v@[j].0@);
                        }
                    }
                }
            }
            return (i, found);
        }
    }
    proof {
        assert forall|j: int| 0 <= j < v@.len() implies (#[trigger] v@[j]).0@ != key@ by {
            lemma_lex_irreflexive(key@);
        }
    }
    (i, false)
}

impl Type {
    /// The shape as contracts see it.
    pub open spec fn view(&self) -> TypeModel {
        match self {
            Type::Null => TypeModel::Null,
            Type::Bool => TypeModel::Bool,
            Type::U64 => TypeModel::U64,
            Type::I64 => TypeModel::I64,
            Type::Float => TypeModel::Float,
            Type::String => TypeModel::String,
            Type::Array(ts) => TypeModel::Array(ts.view()),
            Type::Object(l, s) => TypeModel::Object(l@, s.view()),
        }
    }
}

impl ObjectScheme {
    /// The fields as contracts see them.
    pub open spec fn view(&self) -> SchemeModel
        decreases self,
    {
        SchemeModel {
            fields: Seq::new(
                self.fields@.len(),
                |i: int|
                    if 0 <= i < self.fields@.len() {
                        (self.fields@[i].0@, self.fields@[i].1.view())
                    } else {
                        (Seq::empty(), empty_model())
                    },
            ),
        }
    }

    /// A scheme without fields.
    pub fn new() -> (r: ObjectScheme)
        ensures
            r@.fields =~= Seq::empty(),
            scheme_wf(r@),
    {
        ObjectScheme { fields: Vec::new() }
    }

    /// Takes in one attribute of an object: a name seen before is widened by
    /// the shape, a new name gets the shape alone.
    #[verifier::rlimit(40)]
    pub fn insert(&mut self, name: String, t: Type)
        requires
            scheme_wf(old(self)@),
            type_wf(t@),
        ensures
            scheme_wf(final(self)@),
            fields_map(final(self)@.fields) == with_field(
                fields_map(old(self)@.fields),
                name@,
                single(t@),
            ),
    {
        let ghost before = self@.fields;
        let ghost raw = self.fields@;
        proof {
            assert forall|a: int, b: int| 0 <= a < b < raw.len() implies lex_less(
                (#[trigger] raw[a]).0@,
                (#[trigger] raw[b]).0@,
            ) by {
                assert(before[a].0 == raw[a].0@ && before[b].0 == raw[b].0@);
            }
        }
        let (pos, found) = position(&self.fields, &name);
        proof {
            if has_key(before, name@) {
                assert(raw[index_of(before, name@)].0@ == name@);
            }
            if found {
                assert(before[pos as int].0 == name@);
                lemma_index_of(before, pos as int);
            }
            assert(found == has_key(before, name@));
        }
        if found {
            let (key, mut cur) = self.fields.remove(pos);
            proof {
                assert(cur@ == before[pos as int].1);
                assert(types_wf(before[pos as int].1));
            }
            cur.add(t);
            self.fields.insert(pos, (key, cur));
            proof {
                assert(self@.fields =~= before.update(pos as int, (before[pos as int].0, cur@)));
                lemma_update_keys(before, pos as int, cur@);
                assert(fields_map(self@.fields) =~= with_field(
                    fields_map(before),
                    name@,
                    single(t@),
                ));
            }
        } else {
            let ts = Types::single(t);
            self.fields.insert(pos, (name, ts));
            proof {
                let e = (name@, ts@);
                let after = before.insert(pos as int, e);
                assert(self@.fields =~= after);
                assert forall|a: int, b: int| 0 <= a < b < after.len() implies lex_less(
                    (#[trigger] after[a]).0,
                    (#[trigger] after[b]).0,
                ) by {
                    let a0 = if a < pos { a } else { a - 1 };
                    let b0 = if b < pos { b } else { b - 1 };
                    if a != pos && b != pos {
                        assert(after[a] == before[a0] && after[b] == before[b0]);
                    } else if a == pos {
                        assert(after[b] == before[b0]);
                        assert(before[b0].0 == raw[b0].0@);
                    } else {
                        assert(after[a] == before[a0]);
                        assert(before[a0].0 == raw[a0].0@);
                    }
                }
                lemma_insert_keys(before, pos as int, e);
                assert(fields_map(self@.fields) =~= with_field(
                    fields_map(before),
                    name@,
                    single(t@),
                ));
            }
        }
    }

    /// Unites the fields of another object of the same label with these: a
    /// field of both is merged, a field of one alone becomes nullable.
    #[verifier::rlimit(40)]
    pub fn merge(&mut self, other: ObjectScheme)
        requires
            scheme_wf(old(self)@),
            scheme_wf(other@),
        ensures
            scheme_wf(final(self)@),
            fields(final(self)@) == merge_fields(fields(old(self)@), fields(other@)),
        decreases other,
    {
        let ghost x0 = self@.fields;
        let ghost y0 = other@.fields;
        let ghost other0 = other;
        let n = self.fields.len();
        let mut i: usize = 0;
        while i < n
            invariant
                i <= n,
                n == self.fields@.len(),
                x0.len() == n,
                other0 == other,
                y0 == other@.fields,
                scheme_wf(other@),
                sorted(x0),
                forall|j: int| 0 <= j < n ==> (#[trigger] self@.fields[j]).0 == x0[j].0,
                forall|j: int|
                    0 <= j < n ==> (#[trigger] self@.fields[j]).1 == (if j < i && !has_key(
                        y0,
                        x0[j].0,
                    ) {
                        TypesModel { nullable: true, ..x0[j].1 }
                    } else {
                        x0[j].1
                    }),
            decreases n - i,
        {
            proof {
                assert forall|a: int, b: int| 0 <= a < b < other.fields@.len() implies lex_less(
                    (#[trigger] other.fields@[a]).0@,
                    (#[trigger] other.fields@[b]).0@,
                ) by {
                    assert(y0[a].0 == other.fields@[a].0@ && y0[b].0 == other.fields@[b].0@);
                }
            }
            let ghost before = self@.fields;
            let (_, present) = position(&other.fields, &self.fields[i].0);
            proof {
                let key = self.fields@[i as int].0@;
                assert(before[i as int].0 == key);
                if present {
                    let w = choose|w: int|
                        0 <= w < other.fields@.len() && (#[trigger] other.fields@[w]).0@ == key;
                    assert(y0[w].0 == key);
                }
                if has_key(y0, key) {
                    let w = index_of(y0, key);
                    assert(other.fields@[w].0@ == key);
                }
                assert(present == has_key(y0, x0[i as int].0));
            }
            if !present {
                let (key, mut t) = self.fields.remove(i);
                t.nullable = true;
                self.fields.insert(i, (key, t));
                proof {
                    assert(t@.objects =~= before[i as int].1.objects);
                    assert(t@ == TypesModel { nullable: true, ..before[i as int].1 });
                    assert(self@.fields =~= before.update(i as int, (before[i as int].0, t@)));
                }
            }
            i += 1;
        }
        let ghost x1 = self@.fields;
        let ghost xm = fields_map(x0);
        let ghost ym = fields_map(y0);
        proof {
            assert forall|a: int, b: int| 0 <= a < b < x1.len() implies lex_less(
                (#[trigger] x1[a]).0,
                (#[trigger] x1[b]).0,
            ) by {
                assert(x0[a].0 == x1[a].0 && x0[b].0 == x1[b].0);
            }
            assert forall|j: int| 0 <= j < x1.len() implies types_wf((#[trigger] x1[j]).1) by {
                assert(types_wf(x0[j].1));
            }
            assert forall|f: Seq<char>| has_key(x1, f) <==> has_key(x0, f) by {
                if has_key(x1, f) {
                    assert(x0[index_of(x1, f)].0 == f);
                }
                if has_key(x0, f) {
                    assert(x1[index_of(x0, f)].0 == f);
                }
            }
            assert forall|f: Seq<char>| has_key(x0, f) implies #[trigger] fields_map(x1)[f] == (
            if has_key(y0, f) {
                xm[f]
            } else {
                with_null(xm[f])
            }) by {
                let j = index_of(x0, f);
                lemma_index_of(x0, j);
                assert(x1[j].0 == f);
                lemma_index_of(x1, j);
            }
            assert(y0.skip(y0.len() as int) =~= Seq::empty());
            assert(fields_map(x1) =~= partial_fields(xm, ym, fields_map(y0.skip(y0.len() as int))));
        }
        let ObjectScheme { fields: taken } = other;
        let mut rest = taken;
        while rest.len() > 0
            invariant
                rest@.len() <= other0.fields@.len(),
                rest@ =~= other0.fields@.take(rest@.len() as int),
                other0 == other,
                y0 == other0@.fields,
                xm == fields_map(x0),
                ym == fields_map(y0),
                scheme_wf(other0@),
                scheme_wf(self@),
                fields_map(self@.fields) =~= partial_fields(
                    xm,
                    ym,
                    fields_map(y0.skip(rest@.len() as int)),
                ),
            decreases rest@.len(),
        {
            let ghost k = rest@.len() as int;
            let ghost before = self@.fields;
            let ghost seen = y0.skip(k);
            let ghost seen_next = y0.skip(k - 1);
            let ghost e = y0[k - 1];
            let (name, mut ts) = rest.pop().unwrap();
            proof {
                assert((name, ts) == other0.fields@[k - 1]);
                assert(y0[k - 1] == (name@, ts@));
                assert(fields_map(y0)[name@] == shapes(ts@)) by {
                    lemma_index_of(y0, k - 1);
                }
                assert(types_wf(y0[k - 1].1));
                assert(seen_next =~= seen.insert(0, y0[k - 1]));
                assert forall|a: int, b: int| 0 <= a < b < seen_next.len() implies lex_less(
                    (#[trigger] seen_next[a]).0,
                    (#[trigger] seen_next[b]).0,
                ) by {
                    assert(seen_next[a] == y0[a + k - 1] && seen_next[b] == y0[b + k - 1]);
                }
                lemma_insert_keys(seen, 0, y0[k - 1]);
                lemma_index_of(y0, k - 1);
                assert forall|a: int, b: int| 0 <= a < b < self.fields@.len() implies lex_less(
                    (#[trigger] self.fields@[a]).0@,
                    (#[trigger] self.fields@[b]).0@,
                ) by {
                    assert(before[a].0 == self.fields@[a].0@ && before[b].0 == self.fields@[b].0@);
                }
            }
            let ghost raw = self.fields@;
            let (pos, found) = position(&self.fields, &name);
            if found {
                let (key, mut cur) = self.fields.remove(pos);
                proof {
                    assert(cur@ == before[pos as int].1);
                    assert(before[pos as int].0 == name@);
                    assert(types_wf(before[pos as int].1));
                    lemma_index_of(before, pos as int);
                }
                cur.merge(ts);
                self.fields.insert(pos, (key, cur));
                proof {
                    assert(self@.fields =~= before.update(
                        pos as int,
                        (before[pos as int].0, cur@),
                    ));
                    lemma_update_keys(before, pos as int, cur@);
                    lemma_fields_step_found(xm, ym, before, seen, e, pos as int, cur@);
                }
            } else {
                ts.nullable = true;
                self.fields.insert(pos, (name, ts));
                proof {
                    assert(ts@.objects =~= e.1.objects);
                    assert(ts@ == TypesModel { nullable: true, ..e.1 });
                    lemma_shapes_with_null(e.1);
                    let e1 = (name@, ts@);
                    let after = before.insert(pos as int, e1);
                    assert(self@.fields =~= after);
                    assert forall|a: int, b: int| 0 <= a < b < after.len() implies lex_less(
                        (#[trigger] after[a]).0,
                        (#[trigger] after[b]).0,
                    ) by {
                        let a0 = if a < pos { a } else { a - 1 };
                        let b0 = if b < pos { b } else { b - 1 };
                        if a != pos && b != pos {
                            assert(after[a] == before[a0] && after[b] == before[b0]);
                        } else if a == pos {
                            assert(after[b] == before[b0]);
                            assert(before[b0].0 == raw[b0].0@);
                        } else {
                            assert(after[a] == before[a0]);
                            assert(before[a0].0 == raw[a0].0@);
                        }
                    }
                    lemma_insert_keys(before, pos as int, e1);
                    lemma_fields_step_new(xm, ym, before, seen, e, pos as int);
                }
            }
        }
        proof {
            assert(y0.skip(0) =~= y0);
            assert(fields(old(self)@).map =~= xm);
            assert(fields(other0@).map =~= ym);
            assert(fields(self@).map =~= fields_map(self@.fields));
            assert(fields_map(y0.skip(0)) == ym);
            let fx = fields(old(self)@);
            let fy = fields(other0@);
            assert(fx.map == xm && fy.map == ym);
            assert(partial_fields(xm, ym, ym) =~= merge_fields(fx, fy).map);
            assert(fields(self@).map =~= merge_fields(fx, fy).map);
        }
    }
}

impl Types {
    /// The aggregate as contracts see it.
    pub open spec fn view(&self) -> TypesModel
        decreases self,
    {
        TypesModel {
            nullable: self.nullable,
            boolean: self.boolean,
            unsigned: self.unsigned,
            signed: self.signed,
            float: self.float,
            string: self.string,
            array: match self.array {
                Some(a) => Some(Box::new(a.view())),
                None => None,
            },
            objects: Seq::new(
                self.objects@.len(),
                |i: int|
                    if 0 <= i < self.objects@.len() {
                        (self.objects@[i].0@, self.objects@[i].1.view())
                    } else {
                        (Seq::empty(), SchemeModel { fields: Seq::empty() })
                    },
            ),
        }
    }

    /// The aggregate of a position at which nothing was seen.
    pub fn empty() -> (r: Types)
        ensures
            r@ == empty_model(),
            types_wf(r@),
    {
        let r = Types {
            nullable: false,
            boolean: false,
            unsigned: false,
            signed: false,
            float: false,
            string: false,
            array: None,
            objects: Vec::new(),
        };
        assert(r@.objects =~= Seq::empty());
        r
    }

    /// The aggregate that holds one shape.
    pub fn single(t: Type) -> (r: Types)
        requires
            type_wf(t@),
        ensures
            types_wf(r@),
            shapes(r@) == single(t@),
    {
        let mut r = Types::empty();
        match t {
            Type::Null => {
                r.nullable = true;
            },
            Type::Bool => {
                r.boolean = true;
            },
            Type::U64 => {
                r.unsigned = true;
            },
            Type::I64 => {
                r.signed = true;
            },
            Type::Float => {
                r.float = true;
            },
            Type::String => {
                r.string = true;
            },
            Type::Array(ts) => {
                r.array = Some(Box::new(ts));
            },
            Type::Object(label, scheme) => {
                let ghost e = (label@, scheme@);
                r.objects.push((label, scheme));
                proof {
                    let none = Seq::<(Seq<char>, SchemeModel)>::empty();
                    assert(r@.objects =~= none.insert(0, e));
                    assert(r@.objects[0] == e);
                    lemma_insert_keys(none, 0, e);
                    assert(shapes(r@).objects =~= Map::<Seq<char>, Fields>::empty().insert(
                        e.0,
                        fields(e.1),
                    ));
                }
            },
        }
        proof {
            assert(shapes(r@).objects =~= single(t@).objects);
        }
        r
    }

    /// Widens the aggregate by one observed shape.
    pub fn add(&mut self, t: Type)
        requires
            types_wf(old(self)@),
            type_wf(t@),
        ensures
            types_wf(final(self)@),
            shapes(final(self)@) == merge(shapes(old(self)@), single(t@)),
            within(shapes(old(self)@), shapes(final(self)@)),
            old(self)@.nullable ==> final(self)@.nullable,
    {
        let s = Types::single(t);
        self.merge(s);
    }

    /// Widens the aggregate by all that another aggregate of the same position holds.
    #[verifier::rlimit(40)]
    pub fn merge(&mut self, other: Types)
        requires
            types_wf(old(self)@),
            types_wf(other@),
        ensures
            types_wf(final(self)@),
            shapes(final(self)@) == merge(shapes(old(self)@), shapes(other@)),
            within(shapes(old(self)@), shapes(final(self)@)),
        decreases other,
    {
        proof {
            law_widening_keeps(shapes(self@), shapes(other@));
        }
        let ghost a0 = self@;
        let ghost b0 = other@;
        let ghost other0 = other;
        let Types { nullable, boolean, unsigned, signed, float, string, array, objects } = other;
        self.nullable = self.nullable || nullable;
        self.boolean = self.boolean || boolean;
        self.unsigned = self.unsigned || unsigned;
        self.signed = self.signed || signed;
        self.float = self.float || float;
        self.string = self.string || string;
        match array {
            Some(b) => {
                match self.array.take() {
                    Some(a) => {
                        let mut inner = *a;
                        inner.merge(*b);
                        self.array = Some(Box::new(inner));
                    },
                    None => {
                        self.array = Some(b);
                    },
                }
            },
            None => {},
        }
        let ghost arr = self@.array;
        let ghost am = objects_map(a0.objects);
        proof {
            assert(self@.objects =~= a0.objects);
            assert(b0.objects.skip(b0.objects.len() as int) =~= Seq::empty());
            assert(objects_map(self@.objects) =~= merged_objects(
                am,
                objects_map(b0.objects.skip(b0.objects.len() as int)),
            ));
        }
        let mut rest = objects;
        while rest.len() > 0
            invariant
                rest@.len() <= other0.objects@.len(),
                rest@ =~= other0.objects@.take(rest@.len() as int),
                other0 == other,
                b0 == other0@,
                am == objects_map(a0.objects),
                types_wf(b0),
                types_wf(self@),
                self@.nullable == (a0.nullable || b0.nullable),
                self@.boolean == (a0.boolean || b0.boolean),
                self@.unsigned == (a0.unsigned || b0.unsigned),
                self@.signed == (a0.signed || b0.signed),
                self@.float == (a0.float || b0.float),
                self@.string == (a0.string || b0.string),
                self@.array == arr,
                objects_map(self@.objects) =~= merged_objects(
                    am,
                    objects_map(b0.objects.skip(rest@.len() as int)),
                ),
            decreases rest@.len(),
        {
            let ghost k = rest@.len() as int;
            let ghost before = self@.objects;
            let ghost seen = b0.objects.skip(k);
            let ghost seen_next = b0.objects.skip(k - 1);
            let ghost e = b0.objects[k - 1];
            let (label, scheme) = rest.pop().unwrap();
            proof {
                assert((label, scheme) == other0.objects@[k - 1]);
                assert(b0.objects[k - 1] == (label@, scheme@));
                assert(scheme_wf(b0.objects[k - 1].1));
                assert(seen_next =~= seen.insert(0, b0.objects[k - 1]));
                assert forall|a: int, b: int| 0 <= a < b < seen_next.len() implies lex_less(
                    (#[trigger] seen_next[a]).0,
                    (#[trigger] seen_next[b]).0,
                ) by {
                    assert(seen_next[a] == b0.objects[a + k - 1] && seen_next[b] == b0.objects[b + k - 1]);
                }
                lemma_insert_keys(seen, 0, b0.objects[k - 1]);
                assert forall|a: int, b: int| 0 <= a < b < self.objects@.len() implies lex_less(
                    (#[trigger] self.objects@[a]).0@,
                    (#[trigger] self.objects@[b]).0@,
                ) by {
                    assert(before[a].0 == self.objects@[a].0@ && before[b].0
                        == self.objects@[b].0@);
                }
            }
            let ghost raw = self.objects@;
            let (pos, found) = position(&self.objects, &label);
            if found {
                let (key, mut cur) = self.objects.remove(pos);
                proof {
                    assert(cur@ == before[pos as int].1);
                    assert(before[pos as int].0 == label@);
                    assert(scheme_wf(before[pos as int].1));
                    lemma_index_of(before, pos as int);
                }
                cur.merge(scheme);
                self.objects.insert(pos, (key, cur));
                proof {
                    assert(self@.objects =~= before.update(
                        pos as int,
                        (before[pos as int].0, cur@),
                    ));
                    lemma_update_keys(before, pos as int, cur@);
                    lemma_objects_step_found(am, before, seen, e, pos as int, cur@);
                }
            } else {
                self.objects.insert(pos, (label, scheme));
                proof {
                    let after = before.insert(pos as int, e);
                    assert(self@.objects =~= after);
                    assert forall|a: int, b: int| 0 <= a < b < after.len() implies lex_less(
                        (#[trigger] after[a]).0,
                        (#[trigger] after[b]).0,
                    ) by {
                        let a0 = if a < pos { a } else { a - 1 };
                        let b0 = if b < pos { b } else { b - 1 };
                        if a != pos && b != pos {
                            assert(after[a] == before[a0] && after[b] == before[b0]);
                        } else if a == pos {
                            assert(after[b] == before[b0]);
                            assert(before[b0].0 == raw[b0].0@);
                        } else {
                            assert(after[a] == before[a0]);
                            assert(before[a0].0 == raw[a0].0@);
                        }
                    }
                    lemma_insert_keys(before, pos as int, e);
                    lemma_objects_step_new(am, before, seen, e, pos as int);
                }
            }
        }
        proof {
            assert(b0.objects.skip(0) =~= b0.objects);
            let l = shapes(self@);
            let r = merge(shapes(a0), shapes(b0));
            assert(shapes(a0).objects =~= am);
            assert(shapes(b0).objects =~= objects_map(b0.objects));
            assert(l.objects =~= objects_map(self@.objects));
            assert(r.objects =~= merged_objects(am, objects_map(b0.objects)));
            assert(l.array == r.array);
        }
    }

    /// The number of distinct non-null shapes, counted up to two.
    pub fn arity(&self) -> (r: u8)
        ensures
            r == (if variants(self@) < 2 {
                variants(self@)
            } else {
                2
            }),
    {
        let mut n: u8 = if self.objects.len() >= 2 {
            2
        } else if self.objects.len() == 1 {
            1
        } else {
            0
        };
        if self.boolean && n < 2 {
            n += 1;
        }
        if self.unsigned && n < 2 {
            n += 1;
        }
        if self.signed && n < 2 {
            n += 1;
        }
        if self.float && n < 2 {
            n += 1;
        }
        if self.string && n < 2 {
            n += 1;
        }
        if self.array.is_some() && n < 2 {
            n += 1;
        }
        n
    }

    /// Whether null was seen at the position, or the position was absent.
    pub fn is_nullable(&self) -> (r: bool)
        ensures
            r == self@.nullable,
    {
        self.nullable
    }

    /// The number of distinct non-null shapes; the largest `usize` where the
    /// number does not fit.
    pub fn variants_count(&self) -> (r: usize)
        ensures
            r == (if variants(self@) <= usize::MAX {
                variants(self@)
            } else {
                usize::MAX as nat
            }),
    {
        let flags: usize = Types::one(self.boolean) + Types::one(self.unsigned) + Types::one(
            self.signed,
        ) + Types::one(self.float) + Types::one(self.string) + Types::one(self.array.is_some());
        let n: usize = self.objects.len();
        if n <= usize::MAX - flags {
            n + flags
        } else {
            usize::MAX
        }
    }

    /// One for a shape that is present.
    fn one(present: bool) -> (r: usize)
        ensures
            r == (if present {
                1nat
            } else {
                0
            }),
    {
        if present {
            1
        } else {
            0
        }
    }
}

} // verus!
