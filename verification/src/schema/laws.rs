//! What holds of widening and of canonicalization, whatever the documents are.

use vstd::prelude::*;
use crate::schema::model::{
    empty_model, fields, fields_map, has_key, index_of, lemma_index_of, merge, merge_fields,
    objects_map, scheme_wf, shapes, sorted, types_wf, variants, with_null, Fields, SchemeModel,
    Shapes, TypesModel,
};
use crate::schema::text::{lemma_lex_asymmetric, lemma_lex_irreflexive, lex_less};
use crate::schema::value::{value_shapes, Value};
use crate::schema::{
    canon_elem, canon_fields, canon_objects, canon_scheme, canon_types, Def, SchemaTypes,
};

verus! {

/// Marking one side nullable before widening is marking the result nullable.
pub proof fn lemma_merge_with_null(a: Shapes, b: Shapes)
    ensures
        merge(with_null(a), b) == with_null(merge(a, b)),
        merge(a, with_null(b)) == with_null(merge(a, b)),
        with_null(with_null(a)) == with_null(a),
{
    assert(merge(with_null(a), b).objects =~= merge(a, b).objects);
    assert(merge(a, with_null(b)).objects =~= merge(a, b).objects);
}

/// Widening is commutative.
pub proof fn lemma_merge_commutative(a: Shapes, b: Shapes)
    ensures
        merge(a, b) == merge(b, a),
    decreases a,
{
    match (a.array, b.array) {
        (Some(x), Some(y)) => {
            lemma_merge_commutative(*x, *y);
        },
        _ => {},
    }
    assert forall|l: Seq<char>| a.objects.contains_key(l) && b.objects.contains_key(l) implies
        merge_fields(a.objects[l], b.objects[l]) == merge_fields(b.objects[l], a.objects[l]) by {
        lemma_merge_fields_commutative(a.objects[l], b.objects[l]);
    }
    assert(merge(a, b).objects =~= merge(b, a).objects);
}

/// Uniting the fields of two objects is commutative.
pub proof fn lemma_merge_fields_commutative(x: Fields, y: Fields)
    ensures
        merge_fields(x, y) == merge_fields(y, x),
    decreases x,
{
    assert forall|f: Seq<char>| x.map.contains_key(f) && y.map.contains_key(f) implies merge(
        x.map[f],
        y.map[f],
    ) == merge(y.map[f], x.map[f]) by {
        lemma_merge_commutative(x.map[f], y.map[f]);
    }
    assert(merge_fields(x, y).map =~= merge_fields(y, x).map);
}

/// Widening is associative.
#[verifier::rlimit(40)]
pub proof fn lemma_merge_associative(a: Shapes, b: Shapes, c: Shapes)
    ensures
        merge(merge(a, b), c) == merge(a, merge(b, c)),
    decreases a,
{
    match (a.array, b.array, c.array) {
        (Some(x), Some(y), Some(z)) => {
            lemma_merge_associative(*x, *y, *z);
        },
        _ => {},
    }
    let ab = merge(a, b);
    let bc = merge(b, c);
    assert(merge(ab, c).array == merge(a, bc).array);
    assert forall|l: Seq<char>| merge(ab, c).objects.contains_key(l) implies merge(
        ab,
        c,
    ).objects[l] == merge(a, bc).objects[l] by {
        if a.objects.contains_key(l) && b.objects.contains_key(l) && c.objects.contains_key(l) {
            lemma_merge_fields_associative(a.objects[l], b.objects[l], c.objects[l]);
        }
    }
    assert(merge(ab, c).objects =~= merge(a, bc).objects);
}

/// Uniting the fields of objects is associative.
#[verifier::rlimit(40)]
pub proof fn lemma_merge_fields_associative(x: Fields, y: Fields, z: Fields)
    ensures
        merge_fields(merge_fields(x, y), z) == merge_fields(x, merge_fields(y, z)),
    decreases x,
{
    let xy = merge_fields(x, y);
    let yz = merge_fields(y, z);
    assert forall|f: Seq<char>| merge_fields(xy, z).map.contains_key(f) implies merge_fields(
        xy,
        z,
    ).map[f] == merge_fields(x, yz).map[f] by {
        let hx = x.map.contains_key(f);
        let hy = y.map.contains_key(f);
        let hz = z.map.contains_key(f);
        if hx && hy && hz {
            lemma_merge_associative(x.map[f], y.map[f], z.map[f]);
        } else if hx && hy {
            lemma_merge_with_null(x.map[f], y.map[f]);
        } else if hx && hz {
            lemma_merge_with_null(x.map[f], z.map[f]);
        } else if hy && hz {
            lemma_merge_with_null(y.map[f], z.map[f]);
        } else if hx {
            lemma_merge_with_null(x.map[f], x.map[f]);
        } else if hy {
            lemma_merge_with_null(y.map[f], y.map[f]);
        } else {
            lemma_merge_with_null(z.map[f], z.map[f]);
        }
    }
    assert(merge_fields(xy, z).map =~= merge_fields(x, yz).map);
}

/// Widening an aggregate by itself changes nothing.
pub proof fn lemma_merge_idempotent(a: Shapes)
    ensures
        merge(a, a) == a,
    decreases a,
{
    match a.array {
        Some(x) => {
            lemma_merge_idempotent(*x);
        },
        None => {},
    }
    assert forall|l: Seq<char>| a.objects.contains_key(l) implies merge_fields(
        a.objects[l],
        a.objects[l],
    ) == a.objects[l] by {
        lemma_merge_fields_idempotent(a.objects[l]);
    }
    assert(merge(a, a).objects =~= a.objects);
}

/// Uniting the fields of an object with themselves changes nothing.
pub proof fn lemma_merge_fields_idempotent(x: Fields)
    ensures
        merge_fields(x, x) == x,
    decreases x,
{
    assert forall|f: Seq<char>| x.map.contains_key(f) implies merge(x.map[f], x.map[f])
        == x.map[f] by {
        lemma_merge_idempotent(x.map[f]);
    }
    assert(merge_fields(x, x).map =~= x.map);
}

/// Order-independence of two documents: an aggregate widened by two documents
/// is the same whichever came first.
pub proof fn law_widening_order(a: Shapes, x: Shapes, y: Shapes)
    ensures
        merge(merge(a, x), y) == merge(merge(a, y), x),
{
    lemma_merge_associative(a, x, y);
    lemma_merge_associative(a, y, x);
    lemma_merge_commutative(x, y);
}

/// A document that was taken in before changes nothing when it comes again.
pub proof fn law_widening_repeat(a: Shapes, x: Shapes)
    ensures
        merge(merge(a, x), x) == merge(a, x),
{
    lemma_merge_associative(a, x, x);
    lemma_merge_idempotent(x);
}

/// The aggregate after a sequence of documents, each given by its own aggregate.
pub open spec fn absorb(a: Shapes, docs: Seq<Shapes>) -> Shapes
    decreases docs.len(),
{
    if docs.len() == 0 {
        a
    } else {
        merge(absorb(a, docs.drop_last()), docs.last())
    }
}

/// Taking a document out of the middle of a sequence and in at its end gives
/// the same aggregate.
pub proof fn lemma_absorb_remove(a: Shapes, docs: Seq<Shapes>, i: int)
    requires
        0 <= i < docs.len(),
    ensures
        absorb(a, docs) == merge(absorb(a, docs.remove(i)), docs[i]),
    decreases docs.len(),
{
    if i == docs.len() - 1 {
        assert(docs.remove(i) =~= docs.drop_last());
    } else {
        lemma_absorb_remove(a, docs.drop_last(), i);
        assert(docs.remove(i).drop_last() =~= docs.drop_last().remove(i));
        assert(docs.remove(i).last() == docs.last());
        law_widening_order(absorb(a, docs.drop_last().remove(i)), docs[i], docs.last());
    }
}

/// Order-independence: two sequences of documents that hold the same
/// documents, each as often as the other, give the same aggregate.
pub proof fn law_order_independence(a: Shapes, first: Seq<Shapes>, second: Seq<Shapes>)
    requires
        first.to_multiset() == second.to_multiset(),
    ensures
        absorb(a, first) == absorb(a, second),
    decreases first.len(),
{
    first.to_multiset_ensures();
    second.to_multiset_ensures();
    if first.len() == 0 {
        assert(second.len() == 0);
    } else {
        let x = first.last();
        assert(first.contains(x)) by {
            assert(first[first.len() - 1] == x);
        }
        assert(second.to_multiset().count(x) > 0);
        assert(second.contains(x));
        let i = choose|i: int| 0 <= i < second.len() && second[i] == x;
        let rest = second.remove(i);
        assert(first.drop_last() =~= first.remove(first.len() - 1));
        assert(first.drop_last().to_multiset() == first.to_multiset().remove(x));
        assert(rest.to_multiset() == second.to_multiset().remove(x));
        law_order_independence(a, first.drop_last(), rest);
        lemma_absorb_remove(a, second, i);
    }
}

/// All that `a` holds, `b` holds too, at the position itself and at every
/// position below it: each kind, each array, each object and field, and each
/// mark of nullability.
pub open spec fn within(a: Shapes, b: Shapes) -> bool
    decreases a,
{
    &&& a.nullable ==> b.nullable
    &&& a.boolean ==> b.boolean
    &&& a.unsigned ==> b.unsigned
    &&& a.signed ==> b.signed
    &&& a.float ==> b.float
    &&& a.string ==> b.string
    &&& match a.array {
        Some(x) => b.array is Some && within(*x, *b.array.unwrap()),
        None => true,
    }
    &&& forall|l: Seq<char>| #[trigger]
        a.objects.contains_key(l) ==> b.objects.contains_key(l) && fields_within(
            a.objects[l],
            b.objects[l],
        )
}

pub open spec fn fields_within(x: Fields, y: Fields) -> bool
    decreases x,
{
    forall|f: Seq<char>| #[trigger]
        x.map.contains_key(f) ==> y.map.contains_key(f) && within(x.map[f], y.map[f])
}

/// An aggregate holds all that it holds, also after it was marked nullable.
pub proof fn lemma_within_self(a: Shapes)
    ensures
        within(a, a),
        within(a, with_null(a)),
    decreases a,
{
    match a.array {
        Some(x) => {
            lemma_within_self(*x);
        },
        None => {},
    }
    assert forall|l: Seq<char>| #[trigger] a.objects.contains_key(l) implies fields_within(
        a.objects[l],
        a.objects[l],
    ) by {
        lemma_fields_within_self(a.objects[l]);
    }
}

pub proof fn lemma_fields_within_self(x: Fields)
    ensures
        fields_within(x, x),
    decreases x,
{
    assert forall|f: Seq<char>| #[trigger] x.map.contains_key(f) implies within(
        x.map[f],
        x.map[f],
    ) by {
        lemma_within_self(x.map[f]);
    }
}

/// Nullability monotonicity: widening loses nothing. What the aggregate held
/// before, it holds after; a position that was nullable stays nullable, at
/// every depth.
pub proof fn law_widening_keeps(a: Shapes, b: Shapes)
    ensures
        within(a, merge(a, b)),
    decreases a,
{
    let m = merge(a, b);
    match (a.array, b.array) {
        (Some(x), Some(y)) => {
            law_widening_keeps(*x, *y);
        },
        (Some(x), None) => {
            lemma_within_self(*x);
        },
        _ => {},
    }
    assert forall|l: Seq<char>| #[trigger] a.objects.contains_key(l) implies m.objects.contains_key(
        l,
    ) && fields_within(a.objects[l], m.objects[l]) by {
        if b.objects.contains_key(l) {
            law_fields_keep(a.objects[l], b.objects[l]);
        } else {
            lemma_fields_within_self(a.objects[l]);
        }
    }
}

/// Uniting the fields of two objects loses nothing of the first.
pub proof fn law_fields_keep(x: Fields, y: Fields)
    ensures
        fields_within(x, merge_fields(x, y)),
    decreases x,
{
    let m = merge_fields(x, y);
    assert forall|f: Seq<char>| #[trigger] x.map.contains_key(f) implies m.map.contains_key(f)
        && within(x.map[f], m.map[f]) by {
        if y.map.contains_key(f) {
            law_widening_keeps(x.map[f], y.map[f]);
        } else {
            lemma_within_self(x.map[f]);
        }
    }
}

/// Two ordered lists with the same names hold them at the same places.
#[verifier::rlimit(40)]
pub proof fn lemma_same_keys<V>(s1: Seq<(Seq<char>, V)>, s2: Seq<(Seq<char>, V)>)
    requires
        sorted(s1),
        sorted(s2),
        forall|k: Seq<char>| has_key(s1, k) <==> has_key(s2, k),
    ensures
        s1.len() == s2.len(),
        forall|i: int| 0 <= i < s1.len() ==> (#[trigger] s1[i]).0 == s2[i].0,
    decreases s1.len(),
{
    if s1.len() == 0 {
        if s2.len() > 0 {
            assert(s2[0].0 == s2[0].0);
            assert(has_key(s2, s2[0].0));
        }
    } else if s2.len() == 0 {
        assert(s1[0].0 == s1[0].0);
        assert(has_key(s1, s1[0].0));
    } else {
        let n1 = s1.len() - 1;
        let n2 = s2.len() - 1;
        let a = s1[n1].0;
        let b = s2[n2].0;
        assert(has_key(s1, a));
        assert(has_key(s2, b));
        let j = index_of(s2, a);
        let i = index_of(s1, b);
        if a != b {
            assert(lex_less_at(s2, j, n2));
            assert(lex_less_at(s1, i, n1));
            lemma_lex_asymmetric(a, b);
        }
        let t1 = s1.drop_last();
        let t2 = s2.drop_last();
        assert forall|k: Seq<char>| has_key(t1, k) <==> has_key(t2, k) by {
            lemma_lex_irreflexive(a);
            if has_key(t1, k) {
                let x = index_of(t1, k);
                assert(s1[x].0 == k);
                assert(lex_less_at(s1, x, n1));
                assert(has_key(s1, k));
                let y = index_of(s2, k);
                assert(t2[y].0 == k);
            }
            if has_key(t2, k) {
                let y = index_of(t2, k);
                assert(s2[y].0 == k);
                assert(lex_less_at(s2, y, n2));
                assert(has_key(s2, k));
                let x = index_of(s1, k);
                assert(t1[x].0 == k);
            }
        }
        assert(sorted(t1)) by {
            assert forall|p: int, q: int| 0 <= p < q < t1.len() implies lex_less(
                (#[trigger] t1[p]).0,
                (#[trigger] t1[q]).0,
            ) by {
                assert(t1[p] == s1[p] && t1[q] == s1[q]);
            }
        }
        assert(sorted(t2)) by {
            assert forall|p: int, q: int| 0 <= p < q < t2.len() implies lex_less(
                (#[trigger] t2[p]).0,
                (#[trigger] t2[q]).0,
            ) by {
                assert(t2[p] == s2[p] && t2[q] == s2[q]);
            }
        }
        lemma_same_keys(t1, t2);
        assert forall|p: int| 0 <= p < s1.len() implies (#[trigger] s1[p]).0 == s2[p].0 by {
            if p < n1 {
                assert(t1[p] == s1[p] && t2[p] == s2[p]);
            }
        }
    }
}

/// In an ordered list the name at an earlier place is below the name at a later one.
pub open spec fn lex_less_at<V>(s: Seq<(Seq<char>, V)>, i: int, j: int) -> bool {
    i < j ==> lex_less(s[i].0, s[j].0)
}

/// An ordered model is determined by the aggregate that it stands for.
#[verifier::rlimit(40)]
pub proof fn lemma_canonical(m1: TypesModel, m2: TypesModel)
    requires
        types_wf(m1),
        types_wf(m2),
        shapes(m1) == shapes(m2),
    ensures
        m1 == m2,
    decreases m1,
{
    match (m1.array, m2.array) {
        (Some(x), Some(y)) => {
            assert(shapes(m1).array == Some(Box::new(shapes(*x))));
            assert(shapes(m2).array == Some(Box::new(shapes(*y))));
            lemma_canonical(*x, *y);
        },
        (None, None) => {},
        _ => {
            assert(shapes(m1).array is Some != shapes(m2).array is Some);
        },
    }
    let s1 = m1.objects;
    let s2 = m2.objects;
    assert(shapes(m1).objects =~= objects_map(s1));
    assert(shapes(m2).objects =~= objects_map(s2));
    assert forall|k: Seq<char>| has_key(s1, k) <==> has_key(s2, k) by {
        assert(objects_map(s1).contains_key(k) <==> has_key(s1, k));
        assert(objects_map(s2).contains_key(k) <==> has_key(s2, k));
    }
    lemma_same_keys(s1, s2);
    assert forall|i: int| 0 <= i < s1.len() implies s1[i] == s2[i] by {
        lemma_index_of(s1, i);
        lemma_index_of(s2, i);
        let k = s1[i].0;
        assert(objects_map(s1)[k] == fields(s1[i].1));
        assert(objects_map(s2)[k] == fields(s2[i].1));
        lemma_canonical_scheme(s1[i].1, s2[i].1);
    }
    assert(s1 =~= s2);
}

/// The ordered fields of an object are determined by the fields that they stand for.
#[verifier::rlimit(40)]
pub proof fn lemma_canonical_scheme(x: SchemeModel, y: SchemeModel)
    requires
        scheme_wf(x),
        scheme_wf(y),
        fields(x) == fields(y),
    ensures
        x == y,
    decreases x,
{
    let s1 = x.fields;
    let s2 = y.fields;
    assert(fields(x).map =~= fields_map(s1));
    assert(fields(y).map =~= fields_map(s2));
    assert forall|k: Seq<char>| has_key(s1, k) <==> has_key(s2, k) by {
        assert(fields_map(s1).contains_key(k) <==> has_key(s1, k));
        assert(fields_map(s2).contains_key(k) <==> has_key(s2, k));
    }
    lemma_same_keys(s1, s2);
    assert forall|i: int| 0 <= i < s1.len() implies s1[i] == s2[i] by {
        lemma_index_of(s1, i);
        lemma_index_of(s2, i);
        let k = s1[i].0;
        assert(fields_map(s1)[k] == shapes(s1[i].1));
        assert(fields_map(s2)[k] == shapes(s2[i].1));
        lemma_canonical(s1[i].1, s2[i].1);
    }
    assert(s1 =~= s2);
}

/// The schema does not depend on the order of the documents: two aggregates
/// that took in the same documents, each as often as the other, are the same
/// model, and so give the same schema with the same ids.
pub proof fn law_schema_order_independence(
    m1: TypesModel,
    m2: TypesModel,
    first: Seq<Shapes>,
    second: Seq<Shapes>,
    d: Seq<Def>,
)
    requires
        types_wf(m1),
        types_wf(m2),
        first.to_multiset() == second.to_multiset(),
        shapes(m1) == absorb(shapes(empty_model()), first),
        shapes(m2) == absorb(shapes(empty_model()), second),
    ensures
        m1 == m2,
        canon_types(m1, d) == canon_types(m2, d),
{
    law_order_independence(shapes(empty_model()), first, second);
    lemma_canonical(m1, m2);
}

/// The aggregate of a generator after it took in a sequence of documents.
pub open spec fn taken_in(c: Map<Seq<char>, Seq<char>>, a: Shapes, docs: Seq<Value>) -> Shapes
    decreases docs.len(),
{
    if docs.len() == 0 {
        a
    } else {
        merge(taken_in(c, a, docs.drop_last()), value_shapes(c, Seq::empty(), docs.last()))
    }
}

/// Taking a document out of the middle of a sequence and in at its end gives
/// the same aggregate.
pub proof fn lemma_taken_in_remove(
    c: Map<Seq<char>, Seq<char>>,
    a: Shapes,
    docs: Seq<Value>,
    i: int,
)
    requires
        0 <= i < docs.len(),
    ensures
        taken_in(c, a, docs) == merge(
            taken_in(c, a, docs.remove(i)),
            value_shapes(c, Seq::empty(), docs[i]),
        ),
    decreases docs.len(),
{
    if i == docs.len() - 1 {
        assert(docs.remove(i) =~= docs.drop_last());
    } else {
        lemma_taken_in_remove(c, a, docs.drop_last(), i);
        assert(docs.remove(i).drop_last() =~= docs.drop_last().remove(i));
        assert(docs.remove(i).last() == docs.last());
        law_widening_order(
            taken_in(c, a, docs.drop_last().remove(i)),
            value_shapes(c, Seq::empty(), docs[i]),
            value_shapes(c, Seq::empty(), docs.last()),
        );
    }
}

/// Order-independence of a generator: two sequences that hold the same
/// documents, each as often as the other, leave the same aggregate.
pub proof fn law_documents_order(
    c: Map<Seq<char>, Seq<char>>,
    a: Shapes,
    first: Seq<Value>,
    second: Seq<Value>,
)
    requires
        first.to_multiset() == second.to_multiset(),
    ensures
        taken_in(c, a, first) == taken_in(c, a, second),
    decreases first.len(),
{
    first.to_multiset_ensures();
    second.to_multiset_ensures();
    if first.len() == 0 {
        assert(second.len() == 0);
    } else {
        let x = first.last();
        assert(first.contains(x)) by {
            assert(first[first.len() - 1] == x);
        }
        assert(second.to_multiset().count(x) > 0);
        assert(second.contains(x));
        let i = choose|i: int| 0 <= i < second.len() && second[i] == x;
        let rest = second.remove(i);
        assert(first.drop_last() =~= first.remove(first.len() - 1));
        assert(first.drop_last().to_multiset() == first.to_multiset().remove(x));
        assert(rest.to_multiset() == second.to_multiset().remove(x));
        law_documents_order(c, a, first.drop_last(), rest);
        lemma_taken_in_remove(c, a, second, i);
    }
}

/// The schema of a generator does not depend on the order of its documents:
/// two generators with the same criteria that took in the same documents,
/// each as often as the other, hold the same aggregate and build the same
/// schema, with the same ids.
pub proof fn law_generator_order(
    c: Map<Seq<char>, Seq<char>>,
    m1: TypesModel,
    m2: TypesModel,
    first: Seq<Value>,
    second: Seq<Value>,
)
    requires
        types_wf(m1),
        types_wf(m2),
        first.to_multiset() == second.to_multiset(),
        shapes(m1) == taken_in(c, shapes(empty_model()), first),
        shapes(m2) == taken_in(c, shapes(empty_model()), second),
    ensures
        m1 == m2,
        canon_types(m1, Seq::empty()) == canon_types(m2, Seq::empty()),
{
    law_documents_order(c, shapes(empty_model()), first, second);
    lemma_canonical(m1, m2);
}

/// The second table continues the first: the definitions of the first stand
/// unchanged, and every definition after them is complete.
pub open spec fn extends(d: Seq<Def>, e: Seq<Def>) -> bool {
    &&& d.len() <= e.len()
    &&& forall|i: int| 0 <= i < d.len() ==> #[trigger] e[i] == d[i]
    &&& forall|i: int| d.len() <= i < e.len() ==> !(#[trigger] e[i] is Pending)
}

/// Canonicalizing a position continues the table.
pub proof fn lemma_types_extend(m: TypesModel, d: Seq<Def>)
    ensures
        extends(d, canon_types(m, d).1),
    decreases m, 1nat,
{
    let a = canon_elem(m, d);
    let o = canon_objects(m.objects, m.objects.len(), a.1);
    lemma_elem_extends(m, d);
    lemma_objects_extend(m.objects, m.objects.len(), a.1);
    if variants(m) >= 2 {
        let base = d.push(Def::Pending);
        assert(base[d.len() as int] == Def::Pending);
        assert(o.1[d.len() as int] == a.1[d.len() as int]);
    }
}

/// Canonicalizing the array of a position continues the table, after the id
/// that the enum of the position has taken.
pub proof fn lemma_elem_extends(m: TypesModel, d: Seq<Def>)
    ensures
        extends(
            if variants(m) >= 2 {
                d.push(Def::Pending)
            } else {
                d
            },
            canon_elem(m, d).1,
        ),
    decreases m, 0nat,
{
    let base = if variants(m) >= 2 {
        d.push(Def::Pending)
    } else {
        d
    };
    match m.array {
        Some(x) => {
            lemma_types_extend(*x, base);
        },
        None => {},
    }
}

/// Canonicalizing objects continues the table.
pub proof fn lemma_objects_extend(s: Seq<(Seq<char>, SchemeModel)>, n: nat, d: Seq<Def>)
    requires
        n <= s.len(),
    ensures
        extends(d, canon_objects(s, n, d).1),
        canon_objects(s, n, d).0.len() == n,
        n > 0 ==> canon_objects(s, n, d).0[0] == d.len() as u64 && d.len() < canon_objects(
            s,
            n,
            d,
        ).1.len() && canon_objects(s, n, d).1[d.len() as int] is Struct,
    decreases s, n,
{
    if n > 0 {
        let prev = canon_objects(s, (n - 1) as nat, d);
        lemma_objects_extend(s, (n - 1) as nat, d);
        lemma_scheme_extends(s[n - 1].1, prev.1);
        let r = canon_scheme(s[n - 1].1, prev.1);
        if n > 1 {
            assert(r.1[d.len() as int] == prev.1[d.len() as int]);
        }
    }
}

/// Canonicalizing an object continues the table with its struct, under the next id.
pub proof fn lemma_scheme_extends(s: SchemeModel, d: Seq<Def>)
    ensures
        extends(d, canon_scheme(s, d).1),
        d.len() < canon_scheme(s, d).1.len(),
        canon_scheme(s, d).1[d.len() as int] is Struct,
    decreases s, 0nat,
{
    let base = d.push(Def::Pending);
    lemma_fields_extend(s.fields, s.fields.len(), base);
}

/// Canonicalizing the fields of an object continues the table.
pub proof fn lemma_fields_extend(s: Seq<(Seq<char>, TypesModel)>, n: nat, d: Seq<Def>)
    requires
        n <= s.len(),
    ensures
        extends(d, canon_fields(s, n, d).1),
    decreases s, n,
{
    if n > 0 {
        let prev = canon_fields(s, (n - 1) as nat, d);
        lemma_fields_extend(s, (n - 1) as nat, d);
        lemma_types_extend(s[n - 1].1, prev.1);
    }
}

/// A schema is closed: built from an empty table, it holds no definition that
/// is incomplete, and a root that is a struct or an enum has the id 0 and
/// stands in the table as what it is.
pub proof fn law_schema_closed(m: TypesModel)
    ensures
        forall|i: int|
            0 <= i < canon_types(m, Seq::empty()).1.len() ==> !(#[trigger] canon_types(
                m,
                Seq::empty(),
            ).1[i] is Pending),
        canon_types(m, Seq::empty()).0.typ is Struct ==> canon_types(m, Seq::empty()).0.typ
            == SchemaTypes::Struct(0) && canon_types(m, Seq::empty()).1.len() > 0 && canon_types(
            m,
            Seq::empty(),
        ).1[0] is Struct,
        canon_types(m, Seq::empty()).0.typ is Enum ==> canon_types(m, Seq::empty()).0.typ
            == SchemaTypes::Enum(0) && canon_types(m, Seq::empty()).1.len() > 0 && canon_types(
            m,
            Seq::empty(),
        ).1[0] is Enum,
{
    let d = Seq::<Def>::empty();
    lemma_types_extend(m, d);
    let a = canon_elem(m, d);
    lemma_elem_extends(m, d);
    lemma_objects_extend(m.objects, m.objects.len(), a.1);
}

} // verus!
