//! Laws of the merge: what holds of every example and every order.
use crate::hints::Hints;
use crate::inferred::{accepts, extends, required_keys, step, unique_keys, InferredSchema, Prop, Shape};
use crate::schema::optional_keys;
use crate::number::{classify_default, fits_spec, join_spec, lemma_join_laws, NumType, NumberLit};
use crate::value::{member_keys, string_member, Value};
use vstd::prelude::*;

verus! {

/// Merging the same example twice leaves the top level of a position as
/// merging it once.
pub proof fn law_merge_idempotent(sh: Shape, v: Value, path: Seq<Seq<char>>, hints: Hints)
    ensures
        step(step(sh, v, path, hints), v, path, hints) == step(sh, v, path, hints),
{
    match v {
        Value::Number(n) => {
            let c = classify_default(n, hints.default_num_type);
            if let Shape::Number(k) = sh {
                lemma_join_laws(k, c, c);
            }
            lemma_join_laws(c, c, c);
        },
        Value::String(s) => {
            if let Shape::Enum(e) = sh {
                assert(e.insert(s@).insert(s@) =~= e.insert(s@));
            } else {
                assert(set![s@].insert(s@) =~= set![s@]);
            }
        },
        Value::Object(ms) => {
            let mk = member_keys(ms@, None);
            match sh {
                Shape::Properties(keys, req) => {
                    assert(keys + mk + mk =~= keys + mk);
                    assert(req.intersect(mk).intersect(mk) =~= req.intersect(mk));
                },
                Shape::Discriminator(t, tags) => {
                    if let Some(tv) = string_member(ms@, t) {
                        assert(tags.insert(tv).insert(tv) =~= tags.insert(tv));
                    }
                },
                Shape::Unknown => {
                    assert(mk + mk =~= mk);
                    assert(mk.intersect(mk) =~= mk);
                    let tag = hints.discriminator.tag_at(path);
                    if tag is Some && string_member(ms@, tag->0) is Some {
                        let tv = string_member(ms@, tag->0)->0;
                        assert(set![tv].insert(tv) =~= set![tv]);
                    }
                },
                _ => {},
            }
        },
        _ => {},
    }
}

/// The top level of a position does not depend on the order in which two
/// examples are merged into it.
#[verifier::rlimit(60)]
pub proof fn law_merge_commutes(sh: Shape, a: Value, b: Value, path: Seq<Seq<char>>, hints: Hints)
    ensures
        step(step(sh, a, path, hints), b, path, hints) == step(step(sh, b, path, hints), a, path, hints),
{
    let d = hints.default_num_type;
    match (a, b) {
        (Value::Number(x), Value::Number(y)) => {
            let cx = classify_default(x, d);
            let cy = classify_default(y, d);
            if let Shape::Number(k) = sh {
                lemma_join_laws(k, cx, cy);
                lemma_join_laws(k, cy, cx);
                lemma_join_laws(cx, cy, cy);
            }
            lemma_join_laws(cx, cy, cy);
        },
        (Value::String(x), Value::String(y)) => {
            if let Shape::Enum(e) = sh {
                assert(e.insert(x@).insert(y@) =~= e.insert(y@).insert(x@));
            } else {
                assert(set![x@].insert(y@) =~= set![y@].insert(x@));
            }
        },
        (Value::Object(x), Value::Object(y)) => {
            let kx = member_keys(x@, None);
            let ky = member_keys(y@, None);
            match sh {
                Shape::Properties(keys, req) => {
                    assert(keys + kx + ky =~= keys + ky + kx);
                    assert(req.intersect(kx).intersect(ky) =~= req.intersect(ky).intersect(kx));
                },
                Shape::Discriminator(t, tags) => {
                    if string_member(x@, t) is Some && string_member(y@, t) is Some {
                        let tx = string_member(x@, t)->0;
                        let ty = string_member(y@, t)->0;
                        assert(tags.insert(tx).insert(ty) =~= tags.insert(ty).insert(tx));
                    }
                },
                Shape::Unknown => {
                    assert(kx + ky =~= ky + kx);
                    assert(kx.intersect(ky) =~= ky.intersect(kx));
                    let tag = hints.discriminator.tag_at(path);
                    if tag is Some && string_member(x@, tag->0) is Some {
                        let tx = string_member(x@, tag->0)->0;
                        let ty = string_member(y@, tag->0)->0;
                        assert(set![tx].insert(ty) =~= set![ty].insert(tx));
                    }
                },
                _ => {},
            }
        },
        _ => {},
    }
}

/// A property that one example lacked stays optional after any later
/// example.
pub proof fn law_demotion_permanent(sh: Shape, v: Value, path: Seq<Seq<char>>, hints: Hints, k: Seq<char>)
    requires
        sh matches Shape::Properties(_, req) && !req.contains(k),
    ensures
        step(sh, v, path, hints) matches Shape::Properties(_, req2) ==> !req2.contains(k),
{
}

/// Every example folded in so far stays accepted: if `before` accepts each
/// of `seen`, and a merge of `v` turned it into `after` (which accepts `v`
/// and whatever `before` accepts), then `after` accepts each of `seen` and `v`.
pub proof fn law_every_example_accepted(
    before: InferredSchema,
    after: InferredSchema,
    seen: Seq<Value>,
    v: Value,
    d: NumType,
)
    requires
        forall|i: int| 0 <= i < seen.len() ==> accepts(before, #[trigger] seen[i], d),
        accepts(after, v, d),
        extends(before, after, d),
    ensures
        forall|i: int| 0 <= i < seen.push(v).len() ==> accepts(after, #[trigger] seen.push(v)[i], d),
{
    assert forall|i: int| 0 <= i < seen.push(v).len() implies accepts(after, #[trigger] seen.push(v)[i], d) by {
        if i < seen.len() {
            assert(seen.push(v)[i] == seen[i]);
            assert(accepts(before, seen[i], d));
        }
    }
}

/// Where property names are unique, no name is both required and optional.
pub proof fn law_required_optional_disjoint(ps: Seq<Prop>)
    requires
        unique_keys(ps),
    ensures
        required_keys(ps).disjoint(optional_keys(ps)),
{
    assert forall|k: Seq<char>| !(required_keys(ps).contains(k) && optional_keys(ps).contains(k)) by {
        if required_keys(ps).contains(k) && optional_keys(ps).contains(k) {
            let i = choose|i: int| 0 <= i < ps.len() && ps[i].key@ == k && ps[i].required;
            let j = choose|j: int| 0 <= j < ps.len() && ps[j].key@ == k && !ps[j].required;
            assert(i != j);
            if i < j {
                assert(ps[i].key@ != ps[j].key@);
            } else {
                assert(ps[j].key@ != ps[i].key@);
            }
        }
    }
}

} // verus!
