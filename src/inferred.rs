//! The inferred-schema tree and the merge of one example into it.
use crate::hints::{path_view, Hints};
use crate::number::{
    classify_default, classify_with_default, fits_spec, join, join_spec,
    lemma_classify_default_fits, lemma_fits_widens, lemma_join_is_least_upper_bound, NumType,
};
use crate::timestamp::{is_rfc3339, is_timestamp};
use crate::value::{get_string_member, has_member, member_keys, string_member, Member, Value};
use vstd::prelude::*;
use vstd::string::*;

verus! {

broadcast use vstd::std_specs::vec::group_vec_axioms;

/// The inference state at one position of the document tree.
#[derive(Debug, PartialEq, Eq)]
pub struct InferredSchema {
    /// Whether `null` has been seen here.
    pub nullable: bool,
    pub variant: Variant,
}

/// What has been seen at one position, apart from `null`.
#[derive(Debug, PartialEq, Eq)]
pub enum Variant {
    /// Nothing but `null` yet.
    Unknown,
    Boolean,
    /// The join of the kinds that the numbers seen here add (see
    /// `classify_default`).
    Number(NumType),
    String,
    /// Only strings that are RFC 3339 timestamps.
    Timestamp,
    /// The strings seen, at a position that the enum hint names.
    Enum(Vec<String>),
    /// One schema for the members of every array seen here.
    Elements(Box<InferredSchema>),
    /// An object: each key seen, and whether it was in every example.
    Properties(Vec<Prop>),
    /// A free-form map, at a position that the values hint names.
    Values(Box<InferredSchema>),
    /// A tagged union: the tag property, and one branch per tag value.
    Discriminator(String, Vec<Branch>),
    /// Shapes that no single form describes.
    Any,
}

/// One property of an object position.
#[derive(Debug, PartialEq, Eq)]
pub struct Prop {
    pub key: String,
    pub required: bool,
    pub schema: InferredSchema,
}

/// The properties seen beside one value of a tag property.
#[derive(Debug, PartialEq, Eq)]
pub struct Branch {
    pub tag_value: String,
    pub props: Vec<Prop>,
}

/// The top level of a position's state, as a mathematical value.
pub enum Shape {
    Unknown,
    Boolean,
    Number(NumType),
    String,
    Timestamp,
    Enum(Set<Seq<char>>),
    Elements,
    /// All keys seen, and the keys seen in every example.
    Properties(Set<Seq<char>>, Set<Seq<char>>),
    Values,
    /// The tag property, and the tag values seen.
    Discriminator(Seq<char>, Set<Seq<char>>),
    Any,
}

pub open spec fn string_set(v: Seq<String>) -> Set<Seq<char>> {
    Set::new(|s: Seq<char>| exists|i: int| 0 <= i < v.len() && v[i]@ == s)
}

pub open spec fn prop_keys(ps: Seq<Prop>) -> Set<Seq<char>> {
    Set::new(|k: Seq<char>| exists|i: int| 0 <= i < ps.len() && ps[i].key@ == k)
}

pub open spec fn required_keys(ps: Seq<Prop>) -> Set<Seq<char>> {
    Set::new(|k: Seq<char>| exists|i: int| 0 <= i < ps.len() && ps[i].key@ == k && ps[i].required)
}

pub open spec fn branch_tags(bs: Seq<Branch>) -> Set<Seq<char>> {
    Set::new(|t: Seq<char>| exists|i: int| 0 <= i < bs.len() && bs[i].tag_value@ == t)
}

pub open spec fn opt_view(o: Option<String>) -> Option<Seq<char>> {
    match o {
        Some(s) => Some(s@),
        None => None,
    }
}

impl Variant {
    pub open spec fn shape(&self) -> Shape {
        match self {
            Variant::Unknown => Shape::Unknown,
            Variant::Boolean => Shape::Boolean,
            Variant::Number(n) => Shape::Number(*n),
            Variant::String => Shape::String,
            Variant::Timestamp => Shape::Timestamp,
            Variant::Enum(v) => Shape::Enum(string_set(v@)),
            Variant::Elements(_) => Shape::Elements,
            Variant::Properties(ps) => Shape::Properties(prop_keys(ps@), required_keys(ps@)),
            Variant::Values(_) => Shape::Values,
            Variant::Discriminator(t, bs) => Shape::Discriminator(t@, branch_tags(bs@)),
            Variant::Any => Shape::Any,
        }
    }
}

impl InferredSchema {
    pub open spec fn shape(&self) -> Shape {
        self.variant.shape()
    }
}

/// The state after one more string `s` at a position: `ts` tells whether it
/// is a timestamp, `enum_hinted` whether the enum hint names the position.
pub open spec fn string_step(sh: Shape, s: Seq<char>, ts: bool, enum_hinted: bool) -> Shape {
    match sh {
        Shape::Unknown => if enum_hinted {
            Shape::Enum(set![s])
        } else if ts {
            Shape::Timestamp
        } else {
            Shape::String
        },
        Shape::String => Shape::String,
        Shape::Timestamp => if ts {
            Shape::Timestamp
        } else {
            Shape::String
        },
        Shape::Enum(e) => Shape::Enum(e.insert(s)),
        _ => Shape::Any,
    }
}

/// The top level of a position's state after the example `v` is merged in
/// at `path`.
pub open spec fn step(sh: Shape, v: Value, path: Seq<Seq<char>>, hints: Hints) -> Shape {
    match v {
        Value::Null => sh,
        Value::Bool(_) => match sh {
            Shape::Unknown | Shape::Boolean => Shape::Boolean,
            _ => Shape::Any,
        },
        Value::Number(n) => match sh {
            Shape::Unknown => Shape::Number(classify_default(n, hints.default_num_type)),
            Shape::Number(k) => Shape::Number(
                join_spec(k, classify_default(n, hints.default_num_type)),
            ),
            _ => Shape::Any,
        },
        Value::String(s) => string_step(sh, s@, is_rfc3339(s@), hints.enums.has(path)),
        Value::Array(_) => match sh {
            Shape::Unknown | Shape::Elements => Shape::Elements,
            _ => Shape::Any,
        },
        Value::Object(ms) => object_step(sh, ms@, path, hints),
    }
}

/// The top level of a position's state after the object with members `ms`
/// is merged in at `path`.
pub open spec fn object_step(sh: Shape, ms: Seq<Member>, path: Seq<Seq<char>>, hints: Hints) -> Shape {
    match sh {
        Shape::Unknown => {
            let tag = hints.discriminator.tag_at(path);
            if tag is Some {
                if string_member(ms, tag->0) is Some {
                    Shape::Discriminator(tag->0, set![string_member(ms, tag->0)->0])
                } else {
                    Shape::Any
                }
            } else if hints.values.has(path) {
                Shape::Values
            } else {
                Shape::Properties(member_keys(ms, None), member_keys(ms, None))
            }
        },
        Shape::Properties(keys, req) => Shape::Properties(
            keys + member_keys(ms, None),
            req.intersect(member_keys(ms, None)),
        ),
        Shape::Values => Shape::Values,
        Shape::Discriminator(t, tags) => match string_member(ms, t) {
            Some(tv) => Shape::Discriminator(t, tags.insert(tv)),
            None => Shape::Any,
        },
        _ => Shape::Any,
    }
}

/// Whether the tree `n` accepts the example `v`, at every level; `d` is the
/// default numeric kind.
pub open spec fn accepts(n: InferredSchema, v: Value, d: NumType) -> bool
    decreases v,
{
    if n.variant is Any {
        true
    } else {
        match v {
            Value::Null => n.nullable,
            Value::Bool(_) => n.variant is Boolean,
            Value::Number(x) => match n.variant {
                Variant::Number(k) => fits_spec(k, x),
                _ => false,
            },
            Value::String(s) => match n.variant {
                Variant::String => true,
                Variant::Timestamp => is_rfc3339(s@),
                Variant::Enum(e) => string_set(e@).contains(s@),
                _ => false,
            },
            Value::Array(a) => match n.variant {
                Variant::Elements(c) => forall|i: int|
                    0 <= i < a@.len() ==> accepts(*c, #[trigger] a@[i], d),
                _ => false,
            },
            Value::Object(ms) => match n.variant {
                Variant::Properties(ps) => props_accept(ps@, ms@, None, d),
                Variant::Values(c) => forall|j: int|
                    0 <= j < ms@.len() ==> accepts(*c, #[trigger] ms@[j].value, d),
                Variant::Discriminator(t, bs) => string_member(ms@, t@) is Some && (exists|b: int|
                    is_first_branch(bs@, string_member(ms@, t@)->0, b)) && props_accept(
                    bs@[branch_index(bs@, string_member(ms@, t@)->0)].props@,
                    ms@,
                    Some(t@),
                    d,
                ),
                _ => false,
            },
        }
    }
}

/// Whether `b` is the first branch of `bs` for the tag value `tv`.
pub open spec fn is_first_branch(bs: Seq<Branch>, tv: Seq<char>, b: int) -> bool {
    &&& 0 <= b < bs.len()
    &&& bs[b].tag_value@ == tv
    &&& forall|c: int| 0 <= c < b ==> bs[c].tag_value@ != tv
}

/// The first branch of `bs` for the tag value `tv`.
pub open spec fn branch_index(bs: Seq<Branch>, tv: Seq<char>) -> int {
    choose|b: int| is_first_branch(bs, tv, b)
}

proof fn lemma_branch_index(bs: Seq<Branch>, tv: Seq<char>, b: int)
    requires
        is_first_branch(bs, tv, b),
    ensures
        branch_index(bs, tv) == b,
{
    let k = branch_index(bs, tv);
    assert(is_first_branch(bs, tv, k));
    assert(!(k < b) && !(b < k));
}

/// Whether the properties `ps` accept the members of `ms` but `skip`: every
/// required key is among them, and each of them is accepted by a property
/// of its name.
pub open spec fn props_accept(ps: Seq<Prop>, ms: Seq<Member>, skip: Option<Seq<char>>, d: NumType) -> bool
    decreases ms,
{
    &&& required_keys(ps).subset_of(member_keys(ms, skip))
    &&& forall|j: int|
        0 <= j < ms.len() && skip != Some(ms[j].key@) ==> exists|i: int|
            0 <= i < ps.len() && ps[i].key@ == ms[j].key@ && accepts(
                ps[i].schema,
                #[trigger] ms[j].value,
                d,
            )
}

/// Whether `b` accepts every example that `a` accepts.
pub open spec fn extends(a: InferredSchema, b: InferredSchema, d: NumType) -> bool {
    forall|e: Value| accepts(a, e, d) ==> #[trigger] accepts(b, e, d)
}

/// Whether `b` keeps the properties of `a`, in place, each accepting what
/// it accepted.
pub open spec fn props_extend(a: Seq<Prop>, b: Seq<Prop>, d: NumType) -> bool {
    &&& a.len() <= b.len()
    &&& forall|i: int|
        0 <= i < a.len() ==> #[trigger] b[i].key@ == a[i].key@ && extends(a[i].schema, b[i].schema, d)
}

proof fn lemma_extends_trans(a: InferredSchema, b: InferredSchema, c: InferredSchema, d: NumType)
    requires
        extends(a, b, d),
        extends(b, c, d),
    ensures
        extends(a, c, d),
{
    assert forall|e: Value| accepts(a, e, d) implies #[trigger] accepts(c, e, d) by {
        assert(accepts(b, e, d));
    }
}

proof fn lemma_props_accept_intro(ps: Seq<Prop>, ms: Seq<Member>, skip: Option<Seq<char>>, d: NumType)
    requires
        required_keys(ps).subset_of(member_keys(ms, skip)),
        forall|j: int|
            0 <= j < ms.len() && skip != Some(ms[j].key@) ==> exists|i: int|
                0 <= i < ps.len() && ps[i].key@ == ms[j].key@ && accepts(
                    ps[i].schema,
                    #[trigger] ms[j].value,
                    d,
                ),
    ensures
        props_accept(ps, ms, skip, d),
{
    assert forall|j: int| 0 <= j < ms.len() && skip != Some(ms[j].key@) implies exists|i: int|
        0 <= i < ps.len() && ps[i].key@ == ms[j].key@ && accepts(
            ps[i].schema,
            #[trigger] ms[j].value,
            d,
        ) by {
        let _ = ms[j].value;
    }
}

proof fn lemma_branches_kept(t: String, b0: Vec<Branch>, b2: Vec<Branch>, e: Value, nl: bool, d: NumType)
    requires
        b2@.len() >= b0@.len(),
        forall|b: int|
            0 <= b < b0@.len() ==> (#[trigger] b2@[b]).tag_value@ == b0@[b].tag_value@
                && props_extend(b0@[b].props@, b2@[b].props@, d)
                && required_keys(b2@[b].props@).subset_of(required_keys(b0@[b].props@)),
        accepts(InferredSchema { nullable: nl, variant: Variant::Discriminator(t, b0) }, e, d),
    ensures
        accepts(InferredSchema { nullable: nl, variant: Variant::Discriminator(t, b2) }, e, d),
{
    if let Value::Object(m0) = e {
        let tv0 = string_member(m0@, t@)->0;
        let k = branch_index(b0@, tv0);
        assert(is_first_branch(b0@, tv0, k));
        assert(b2@[k].tag_value@ == b0@[k].tag_value@);
        assert forall|c: int| 0 <= c < k implies b2@[c].tag_value@ != tv0 by {
            assert(b2@[c].tag_value@ == b0@[c].tag_value@);
        }
        assert(is_first_branch(b2@, tv0, k));
        lemma_branch_index(b2@, tv0, k);
        lemma_props_accept_kept(b0@[k].props@, b2@[k].props@, m0@, Some(t@), d);
        let n2 = InferredSchema { nullable: nl, variant: Variant::Discriminator(t, b2) };
        assert(string_member(m0@, t@) is Some);
        assert(exists|b: int| is_first_branch(b2@, tv0, b));
        assert(props_accept(b2@[branch_index(b2@, tv0)].props@, m0@, Some(t@), d));
        assert(accepts(n2, e, d));
    }
}

proof fn lemma_props_accept_kept(a: Seq<Prop>, b: Seq<Prop>, ms: Seq<Member>, skip: Option<Seq<char>>, d: NumType)
    requires
        props_extend(a, b, d),
        required_keys(b).subset_of(required_keys(a)),
        props_accept(a, ms, skip, d),
    ensures
        props_accept(b, ms, skip, d),
{
    assert forall|j: int| 0 <= j < ms.len() && skip != Some(ms[j].key@) implies exists|i: int|
        0 <= i < b.len() && b[i].key@ == ms[j].key@ && accepts(
            b[i].schema,
            #[trigger] ms[j].value,
            d,
        ) by {
        let i = choose|i: int|
            0 <= i < a.len() && a[i].key@ == ms[j].key@ && accepts(a[i].schema, ms[j].value, d);
        assert(b[i].key@ == a[i].key@);
        assert(accepts(b[i].schema, ms[j].value, d));
    }
}

/// Whether no two of the strings `v` are equal.
pub open spec fn unique_strings(v: Seq<String>) -> bool {
    forall|i: int, j: int| 0 <= i < j < v.len() ==> v[i]@ != v[j]@
}

/// Whether no two of the properties `ps` share a name.
pub open spec fn unique_keys(ps: Seq<Prop>) -> bool {
    forall|i: int, j: int| 0 <= i < j < ps.len() ==> ps[i].key@ != ps[j].key@
}

/// Whether no two of the branches `bs` share a tag value.
pub open spec fn unique_tags(bs: Seq<Branch>) -> bool {
    forall|i: int, j: int| 0 <= i < j < bs.len() ==> bs[i].tag_value@ != bs[j].tag_value@
}

/// The invariant of the tree: at every position, enum items, property
/// names and tag values are each unique.
pub open spec fn wf(n: InferredSchema) -> bool
    decreases n,
{
    match n.variant {
        Variant::Enum(e) => unique_strings(e@) && sorted_strings(e@),
        Variant::Elements(c) => wf(*c),
        Variant::Values(c) => wf(*c),
        Variant::Properties(ps) => unique_keys(ps@) && forall|i: int| #![trigger ps@[i]]
            0 <= i < ps@.len() ==> wf(ps@[i].schema),
        Variant::Discriminator(_, bs) => unique_tags(bs@) && forall|b: int| #![trigger bs@[b]]
            0 <= b < bs@.len() ==> unique_keys(bs@[b].props@) && forall|i: int|
                #![trigger bs@[b].props@[i]]
                0 <= i < bs@[b].props@.len() ==> wf(bs@[b].props@[i].schema),
        _ => true,
    }
}

/// The invariant of a list of properties: unique names, each sub-tree
/// well formed.
pub open spec fn props_wf(ps: Seq<Prop>) -> bool {
    unique_keys(ps) && forall|i: int| #![trigger ps[i]] 0 <= i < ps.len() ==> wf(ps[i].schema)
}

/// The invariant of the branches of a tagged union.
pub open spec fn branches_wf(bs: Seq<Branch>) -> bool {
    unique_tags(bs) && forall|b: int| #![trigger bs[b]] 0 <= b < bs.len() ==> props_wf(bs[b].props@)
}

proof fn lemma_wf_props(n: InferredSchema, ps: Vec<Prop>)
    requires
        n.variant == Variant::Properties(ps),
    ensures
        wf(n) == props_wf(ps@),
{
    if props_wf(ps@) {
        assert forall|i: int| #![trigger ps@[i]] 0 <= i < ps@.len() implies wf(ps@[i].schema) by {
            let _ = ps@[i];
        }
    }
    if wf(n) {
        assert forall|i: int| #![trigger ps@[i]] 0 <= i < ps@.len() implies wf(ps@[i].schema) by {
            let _ = ps@[i];
        }
    }
}

proof fn lemma_wf_branches(n: InferredSchema, t: String, bs: Vec<Branch>)
    requires
        n.variant == Variant::Discriminator(t, bs),
    ensures
        wf(n) == branches_wf(bs@),
{
    if branches_wf(bs@) {
        assert forall|b: int| #![trigger bs@[b]] 0 <= b < bs@.len() implies unique_keys(bs@[b].props@) && forall|i: int|
            #![trigger bs@[b].props@[i]] 0 <= i < bs@[b].props@.len() ==> wf(bs@[b].props@[i].schema) by {
            assert(props_wf(bs@[b].props@));
            assert forall|i: int| #![trigger bs@[b].props@[i]] 0 <= i < bs@[b].props@.len() implies wf(bs@[b].props@[i].schema) by {
                let _ = bs@[b].props@[i];
            }
        }
    }
    if wf(n) {
        assert forall|b: int| #![trigger bs[b]] 0 <= b < bs@.len() implies props_wf(bs@[b].props@) by {
            let _ = bs@[b];
            assert forall|i: int| #![trigger bs@[b].props@[i]] 0 <= i < bs@[b].props@.len() implies wf(bs@[b].props@[i].schema) by {
                let _ = bs@[b].props@[i];
            }
        }
    }
}

/// The state of a position not visited yet.
pub open spec fn unvisited() -> InferredSchema {
    InferredSchema { nullable: false, variant: Variant::Unknown }
}

/// The state of the property named `k` among `ps`, or the state of a
/// position not visited yet.
pub open spec fn old_child(ps: Seq<Prop>, k: Seq<char>) -> InferredSchema {
    if exists|i: int| 0 <= i < ps.len() && ps[i].key@ == k {
        ps[choose|i: int| 0 <= i < ps.len() && ps[i].key@ == k].schema
    } else {
        unvisited()
    }
}

/// Whether member `j` is the only member of `ms[0..n]` with its name.
pub open spec fn once_in(ms: Seq<Member>, j: int, n: int) -> bool {
    &&& 0 <= j < n <= ms.len()
    &&& forall|l: int| 0 <= l < n && l != j ==> ms[l].key@ != ms[j].key@
}

/// Whether `new` is what merging `v` at `path` into `old` gives: the flag and
/// top level as `step` says, and, at an object position, each property named
/// by exactly one member is that member's value merged into the property's
/// old state (`Unknown` for a new name), at the path extended by the name,
/// while every property that the object does not name keeps its state; at
/// an array position the element state is the fold of `merged` over the
/// elements, and at a free-form map the value state the fold over the member
/// values, at the path extended by `-`; at a tagged union the branch of the
/// example's tag value is its other members merged like an object's, and
/// every other branch is kept.
#[verifier::rlimit(80)]
pub open spec fn merged(old: InferredSchema, v: Value, path: Seq<Seq<char>>, hints: Hints, new: InferredSchema) -> bool
    decreases v,
{
    &&& new.nullable == (old.nullable || v is Null)
    &&& new.shape() == step(old.shape(), v, path, hints)
    &&& match (new.variant, v) {
        (Variant::Properties(ps2), Value::Object(ms)) => {
            let ps1 = match old.variant {
                Variant::Properties(p) => p@,
                _ => Seq::<Prop>::empty(),
            };
            &&& forall|j: int, i: int| #![trigger ms@[j], ps2@[i]]
                once_in(ms@, j, ms@.len() as int) && 0 <= i < ps2@.len() && ps2@[i].key@ == ms@[j].key@
                    ==> merged(old_child(ps1, ms@[j].key@), ms@[j].value, path.push(ms@[j].key@), hints, ps2@[i].schema)
            &&& forall|i: int| #![trigger ps2@[i]]
                0 <= i < ps2@.len() && !member_keys(ms@, None).contains(ps2@[i].key@)
                    ==> ps2@[i].schema == old_child(ps1, ps2@[i].key@)
        },
        (Variant::Elements(c2), Value::Array(a)) => {
            let start = match old.variant {
                Variant::Elements(c) => *c,
                _ => unvisited(),
            };
            exists|cs: Seq<InferredSchema>| #![trigger cs[0]]
                cs.len() == a@.len() + 1 && cs[0] == start && cs[a@.len() as int] == *c2 && forall|i: int|
                    #![trigger a@[i]]
                    0 <= i < a@.len() ==> merged(cs[i], a@[i], path, hints, cs[i + 1])
        },
        (Variant::Values(c2), Value::Object(ms)) => {
            let start = match old.variant {
                Variant::Values(c) => *c,
                _ => unvisited(),
            };
            exists|cs: Seq<InferredSchema>| #![trigger cs[0]]
                cs.len() == ms@.len() + 1 && cs[0] == start && cs[ms@.len() as int] == *c2
                    && forall|i: int| #![trigger ms@[i]]
                    0 <= i < ms@.len() ==> merged(cs[i], ms@[i].value, path.push("-"@), hints, cs[i + 1])
        },
        (Variant::Discriminator(t2, bs2), Value::Object(ms)) => {
            let bs1 = match old.variant {
                Variant::Discriminator(_, b) => b@,
                _ => Seq::<Branch>::empty(),
            };
            let tv = string_member(ms@, t2@)->0;
            let nb = bs2@[branch_index(bs2@, tv)].props@;
            let ob = old_branch(bs1, tv);
            &&& forall|j: int, i: int| #![trigger ms@[j], nb[i]]
                once_in(ms@, j, ms@.len() as int) && Some(t2@) != Some(ms@[j].key@) && 0 <= i < nb.len()
                    && nb[i].key@ == ms@[j].key@ ==> merged(old_child(ob, ms@[j].key@), ms@[j].value, path.push(ms@[j].key@), hints, nb[i].schema)
            &&& props_merged_shape(ob, nb, ms@, t2@)
            &&& forall|b: int| #![trigger bs1[b]]
                0 <= b < bs1.len() && bs1[b].tag_value@ != tv ==> bs2@[b] == bs1[b]
        },
        _ => true,
    }
}

/// The properties of the branch of `bs` for tag value `tv`, or none.
pub open spec fn old_branch(bs: Seq<Branch>, tv: Seq<char>) -> Seq<Prop> {
    if exists|b: int| is_first_branch(bs, tv, b) {
        bs[branch_index(bs, tv)].props@
    } else {
        Seq::empty()
    }
}

/// Whether the properties `nb` are the object `ms` (without member `skip`)
/// merged at `path` into the properties `ob`, property by property.
pub open spec fn props_merged_shape(ob: Seq<Prop>, nb: Seq<Prop>, ms: Seq<Member>, skip: Seq<char>) -> bool {
    forall|i: int| #![trigger nb[i]]
        0 <= i < nb.len() && !member_keys(ms, Some(skip)).contains(nb[i].key@) ==> nb[i].schema
            == old_child(ob, nb[i].key@)
}

proof fn lemma_once_shrinks(ms: Seq<Member>, j: int, n: int)
    requires
        once_in(ms, j, n + 1),
        j < n,
    ensures
        once_in(ms, j, n),
        ms[n].key@ != ms[j].key@,
{
}

proof fn lemma_once_fresh_key(ms: Seq<Member>, n: int, skip: Option<Seq<char>>)
    requires
        once_in(ms, n, n + 1),
    ensures
        !member_keys(ms.take(n), skip).contains(ms[n].key@),
{
    if member_keys(ms.take(n), skip).contains(ms[n].key@) {
        let l = choose|l: int| 0 <= l < ms.take(n).len() && ms.take(n)[l].key@ == ms[n].key@;
        assert(ms.take(n)[l] == ms[l]);
    }
}

proof fn lemma_old_child_at(ps: Seq<Prop>, k: int)
    requires
        unique_keys(ps),
        0 <= k < ps.len(),
    ensures
        old_child(ps, ps[k].key@) == ps[k].schema,
{
    let c = choose|i: int| 0 <= i < ps.len() && ps[i].key@ == ps[k].key@;
    assert(!(c < k) && !(k < c));
}

/// Lexicographic order of character sequences, by code point.
pub open spec fn chars_lt(a: Seq<char>, b: Seq<char>) -> bool
    decreases a.len(),
{
    if b.len() == 0 {
        false
    } else if a.len() == 0 {
        true
    } else if a[0] != b[0] {
        (a[0] as u32) <= (b[0] as u32)
    } else {
        chars_lt(a.drop_first(), b.drop_first())
    }
}

/// Whether the strings `v` are in strictly increasing order.
pub open spec fn sorted_strings(v: Seq<String>) -> bool {
    forall|i: int| #![trigger v[i]] 0 <= i < v.len() - 1 ==> chars_lt(v[i]@, v[i + 1]@)
}

proof fn lemma_chars_lt_total(a: Seq<char>, b: Seq<char>)
    requires
        a != b,
    ensures
        chars_lt(a, b) || chars_lt(b, a),
    decreases a.len(),
{
    if a.len() > 0 && b.len() > 0 && a[0] == b[0] {
        if a.drop_first() == b.drop_first() {
            assert(a =~= seq![a[0]] + a.drop_first());
            assert(b =~= seq![b[0]] + b.drop_first());
        }
        lemma_chars_lt_total(a.drop_first(), b.drop_first());
    } else if a.len() == 0 && b.len() == 0 {
        assert(a =~= b);
    }
}

/// Whether `a` comes before `b` in lexicographic order.
pub fn string_lt(a: &String, b: &String) -> (r: bool)
    ensures
        r == chars_lt(a@, b@),
{
    let na = a.as_str().unicode_len();
    let nb = b.as_str().unicode_len();
    let mut i: usize = 0;
    assert(a@.skip(0) =~= a@ && b@.skip(0) =~= b@);
    while i < na && i < nb
        invariant
            na == a@.len(),
            nb == b@.len(),
            i <= na && i <= nb,
            chars_lt(a@, b@) == chars_lt(a@.skip(i as int), b@.skip(i as int)),
        decreases na - i,
    {
        let ca = a.as_str().get_char(i);
        let cb = b.as_str().get_char(i);
        assert(a@.skip(i as int)[0] == ca && b@.skip(i as int)[0] == cb);
        if ca != cb {
            return (ca as u32) <= (cb as u32);
        }
        assert(a@.skip(i as int).drop_first() =~= a@.skip(i + 1));
        assert(b@.skip(i as int).drop_first() =~= b@.skip(i + 1));
        i = i + 1;
    }
    assert(a@.skip(i as int).len() == na - i && b@.skip(i as int).len() == nb - i);
    i == na && i < nb
}

/// The state of a position not visited yet.
pub fn unknown() -> (r: InferredSchema)
    ensures
        r == unvisited(),
        !r.nullable,
        wf(r),
        r.shape() == Shape::Unknown,
{
    InferredSchema { nullable: false, variant: Variant::Unknown }
}

/// `path` extended by one property name.
pub fn extend_path(path: &Vec<String>, key: &String) -> (r: Vec<String>)
    ensures
        path_view(r@) == path_view(path@).push(key@),
{
    let mut r: Vec<String> = Vec::new();
    let mut i: usize = 0;
    while i < path.len()
        invariant
            0 <= i <= path@.len(),
            r@.len() == i,
            forall|j: int| 0 <= j < i ==> r@[j]@ == path@[j]@,
        decreases path@.len() - i,
    {
        r.push(path[i].clone());
        i = i + 1;
    }
    r.push(key.clone());
    assert(path_view(r@) =~= path_view(path@).push(key@));
    r
}

/// Whether `s` is among the strings of `v`.
fn contains_string(v: &Vec<String>, s: &String) -> (r: bool)
    ensures
        r == string_set(v@).contains(s@),
{
    let mut i: usize = 0;
    while i < v.len()
        invariant
            0 <= i <= v@.len(),
            forall|j: int| 0 <= j < i ==> v@[j]@ != s@,
        decreases v@.len() - i,
    {
        if v[i] == *s {
            return true;
        }
        i = i + 1;
    }
    false
}

/// Merges one string into the state `variant`: `ts` tells whether it is a
/// timestamp, `enum_hinted` whether the enum hint names the position.
pub fn infer_string(variant: Variant, s: &String, ts: bool, enum_hinted: bool) -> (r: Variant)
    ensures
        r.shape() == string_step(variant.shape(), s@, ts, enum_hinted),
        wf(InferredSchema { nullable: false, variant }) ==> wf(InferredSchema { nullable: false, variant: r }),
{
    match variant {
        Variant::Unknown => if enum_hinted {
            let mut v: Vec<String> = Vec::new();
            v.push(s.clone());
            assert(unique_strings(v@));
            assert(string_set(v@) =~= set![s@]) by {
                assert(v@[0]@ == s@);
            }
            Variant::Enum(v)
        } else if ts {
            Variant::Timestamp
        } else {
            Variant::String
        },
        Variant::String => Variant::String,
        Variant::Timestamp => if ts {
            Variant::Timestamp
        } else {
            Variant::String
        },
        Variant::Enum(mut v) => {
            let ghost old_v = v@;
            if !contains_string(&v, s) {
                let mut p: usize = 0;
                while p < v.len() && string_lt(&v[p], s)
                    invariant
                        v@ == old_v,
                        p <= v@.len(),
                        forall|q: int| 0 <= q < p ==> chars_lt(#[trigger] v@[q]@, s@),
                    decreases v@.len() - p,
                {
                    p = p + 1;
                }
                proof {
                    if p < v@.len() {
                        assert(v@[p as int]@ != s@);
                        lemma_chars_lt_total(v@[p as int]@, s@);
                    }
                }
                v.insert(p, s.clone());
                assert(v@ == old_v.insert(p as int, *s));
                assert forall|i: int, j: int| 0 <= i < j < v@.len() && unique_strings(old_v) implies v@[i]@ != v@[j]@ by {
                    if i == p as int {
                        assert(v@[j] == old_v[j - 1]);
                    } else if j == p as int {
                        assert(v@[i] == old_v[i]);
                    } else {
                        let oi = if i < p { i } else { i - 1 };
                        let oj = if j < p { j } else { j - 1 };
                        assert(v@[i] == old_v[oi] && v@[j] == old_v[oj]);
                    }
                }
                assert forall|i: int| #![trigger v@[i]] 0 <= i < v@.len() - 1 && sorted_strings(old_v) implies chars_lt(v@[i]@, v@[i + 1]@) by {
                    if i + 1 < p {
                        assert(v@[i] == old_v[i] && v@[i + 1] == old_v[i + 1]);
                        assert(chars_lt(old_v[i]@, old_v[i + 1]@));
                    } else if i + 1 == p as int {
                        assert(v@[i] == old_v[i]);
                    } else if i == p as int {
                        assert(v@[i + 1] == old_v[i]);
                    } else {
                        assert(v@[i] == old_v[i - 1] && v@[i + 1] == old_v[i]);
                        assert(chars_lt(old_v[i - 1]@, old_v[i - 1 + 1]@));
                    }
                }
                assert(string_set(v@) =~= string_set(old_v).insert(s@)) by {
                    assert(v@[p as int]@ == s@);
                    assert forall|x: Seq<char>| string_set(old_v).contains(x) implies string_set(
                        v@,
                    ).contains(x) by {
                        let j = choose|j: int| 0 <= j < old_v.len() && old_v[j]@ == x;
                        if j < p {
                            assert(v@[j] == old_v[j]);
                        } else {
                            assert(v@[j + 1] == old_v[j]);
                        }
                    }
                    assert forall|x: Seq<char>| string_set(v@).contains(x) implies string_set(old_v).insert(s@).contains(x) by {
                        let j = choose|j: int| 0 <= j < v@.len() && v@[j]@ == x;
                        if j < p {
                            assert(v@[j] == old_v[j]);
                        } else if j > p {
                            assert(v@[j] == old_v[j - 1]);
                        }
                    }
                }
            } else {
                assert(string_set(v@) =~= string_set(v@).insert(s@));
            }
            Variant::Enum(v)
        },
        _ => Variant::Any,
    }
}

proof fn lemma_push_prop(ps: Seq<Prop>, p: Prop)
    ensures
        prop_keys(ps.push(p)) == prop_keys(ps).insert(p.key@),
        required_keys(ps.push(p)) == (if p.required {
            required_keys(ps).insert(p.key@)
        } else {
            required_keys(ps)
        }),
{
    let q = ps.push(p);
    assert(q[ps.len() as int] == p);
    assert forall|k: Seq<char>| prop_keys(q).contains(k) implies prop_keys(ps).insert(
        p.key@,
    ).contains(k) by {
        let j = choose|j: int| 0 <= j < q.len() && q[j].key@ == k;
        if j < ps.len() {
            assert(q[j] == ps[j]);
        }
    }
    assert forall|k: Seq<char>| prop_keys(ps).contains(k) implies prop_keys(q).contains(k) by {
        let j = choose|j: int| 0 <= j < ps.len() && ps[j].key@ == k;
        assert(q[j] == ps[j]);
    }
    assert(prop_keys(q) =~= prop_keys(ps).insert(p.key@));
    assert forall|k: Seq<char>| required_keys(q).contains(k) implies (if p.required {
        required_keys(ps).insert(p.key@)
    } else {
        required_keys(ps)
    }).contains(k) by {
        let j = choose|j: int| 0 <= j < q.len() && q[j].key@ == k && q[j].required;
        if j < ps.len() {
            assert(q[j] == ps[j]);
        }
    }
    assert forall|k: Seq<char>| required_keys(ps).contains(k) implies required_keys(q).contains(
        k,
    ) by {
        let j = choose|j: int| 0 <= j < ps.len() && ps[j].key@ == k && ps[j].required;
        assert(q[j] == ps[j]);
    }
    if p.required {
        assert(required_keys(q) =~= required_keys(ps).insert(p.key@));
    } else {
        assert(required_keys(q) =~= required_keys(ps));
    }
}

proof fn lemma_replace_prop(ps: Seq<Prop>, j: int, p: Prop)
    requires
        0 <= j < ps.len(),
        p.key@ == ps[j].key@,
        p.required == ps[j].required,
    ensures
        prop_keys(ps.update(j, p)) == prop_keys(ps),
        required_keys(ps.update(j, p)) == required_keys(ps),
{
    let q = ps.update(j, p);
    assert forall|k: Seq<char>| prop_keys(q).contains(k) <==> prop_keys(ps).contains(k) by {
        if prop_keys(q).contains(k) {
            let i = choose|i: int| 0 <= i < q.len() && q[i].key@ == k;
            assert(ps[i].key@ == k);
        }
        if prop_keys(ps).contains(k) {
            let i = choose|i: int| 0 <= i < ps.len() && ps[i].key@ == k;
            assert(q[i].key@ == k);
        }
    }
    assert forall|k: Seq<char>| required_keys(q).contains(k) <==> required_keys(ps).contains(k) by {
        if required_keys(q).contains(k) {
            let i = choose|i: int| 0 <= i < q.len() && q[i].key@ == k && q[i].required;
            assert(ps[i].key@ == k && ps[i].required);
        }
        if required_keys(ps).contains(k) {
            let i = choose|i: int| 0 <= i < ps.len() && ps[i].key@ == k && ps[i].required;
            assert(q[i].key@ == k && q[i].required);
        }
    }
    assert(prop_keys(q) =~= prop_keys(ps));
    assert(required_keys(q) =~= required_keys(ps));
}

proof fn lemma_push_branch(bs: Seq<Branch>, b: Branch)
    ensures
        branch_tags(bs.push(b)) == branch_tags(bs).insert(b.tag_value@),
{
    let q = bs.push(b);
    assert(q[bs.len() as int] == b);
    assert forall|t: Seq<char>| branch_tags(q).contains(t) implies branch_tags(bs).insert(
        b.tag_value@,
    ).contains(t) by {
        let j = choose|j: int| 0 <= j < q.len() && q[j].tag_value@ == t;
        if j < bs.len() {
            assert(q[j] == bs[j]);
        }
    }
    assert forall|t: Seq<char>| branch_tags(bs).contains(t) implies branch_tags(q).contains(t) by {
        let j = choose|j: int| 0 <= j < bs.len() && bs[j].tag_value@ == t;
        assert(q[j] == bs[j]);
    }
    assert(branch_tags(q) =~= branch_tags(bs).insert(b.tag_value@));
}

proof fn lemma_replace_branch(bs: Seq<Branch>, j: int, b: Branch)
    requires
        0 <= j < bs.len(),
        b.tag_value@ == bs[j].tag_value@,
    ensures
        branch_tags(bs.update(j, b)) == branch_tags(bs),
{
    let q = bs.update(j, b);
    assert forall|t: Seq<char>| branch_tags(q).contains(t) <==> branch_tags(bs).contains(t) by {
        if branch_tags(q).contains(t) {
            let i = choose|i: int| 0 <= i < q.len() && q[i].tag_value@ == t;
            assert(bs[i].tag_value@ == t);
        }
        if branch_tags(bs).contains(t) {
            let i = choose|i: int| 0 <= i < bs.len() && bs[i].tag_value@ == t;
            assert(q[i].tag_value@ == t);
        }
    }
    assert(branch_tags(q) =~= branch_tags(bs));
}

proof fn lemma_member_keys_take(ms: Seq<Member>, i: int, skip: Option<Seq<char>>)
    requires
        0 <= i < ms.len(),
    ensures
        member_keys(ms.take(i + 1), skip) == (if skip == Some(ms[i].key@) {
            member_keys(ms.take(i), skip)
        } else {
            member_keys(ms.take(i), skip).insert(ms[i].key@)
        }),
{
    let a = ms.take(i);
    let b = ms.take(i + 1);
    assert(b[i] == ms[i]);
    assert forall|k: Seq<char>| member_keys(a, skip).contains(k) implies member_keys(
        b,
        skip,
    ).contains(k) by {
        let j = choose|j: int| 0 <= j < a.len() && a[j].key@ == k;
        assert(b[j] == a[j]);
    }
    assert forall|k: Seq<char>| member_keys(b, skip).contains(k) && k != ms[i].key@ implies member_keys(
        a,
        skip,
    ).contains(k) by {
        let j = choose|j: int| 0 <= j < b.len() && b[j].key@ == k;
        assert(a[j] == b[j]);
    }
    if skip == Some(ms[i].key@) {
        assert(member_keys(b, skip) =~= member_keys(a, skip));
    } else {
        assert(member_keys(b, skip) =~= member_keys(a, skip).insert(ms[i].key@));
    }
}

/// The position of the property named `k`.
fn find_prop(ps: &Vec<Prop>, k: &String) -> (r: Option<usize>)
    ensures
        r matches Some(j) ==> j < ps@.len() && ps@[j as int].key@ == k@,
        r is None ==> !prop_keys(ps@).contains(k@),
{
    let mut i: usize = 0;
    while i < ps.len()
        invariant
            0 <= i <= ps@.len(),
            forall|j: int| 0 <= j < i ==> ps@[j].key@ != k@,
        decreases ps@.len() - i,
    {
        if ps[i].key == *k {
            return Some(i);
        }
        i = i + 1;
    }
    None
}

/// The position of the branch for tag value `t`.
fn find_branch(bs: &Vec<Branch>, t: &String) -> (r: Option<usize>)
    ensures
        r matches Some(j) ==> is_first_branch(bs@, t@, j as int),
        r is None ==> !branch_tags(bs@).contains(t@),
{
    let mut i: usize = 0;
    while i < bs.len()
        invariant
            0 <= i <= bs@.len(),
            forall|j: int| 0 <= j < i ==> bs@[j].tag_value@ != t@,
        decreases bs@.len() - i,
    {
        if bs[i].tag_value == *t {
            return Some(i);
        }
        i = i + 1;
    }
    None
}

/// Marks optional every required property that the object `ms` lacks.
fn demote(ps: Vec<Prop>, ms: &Vec<Member>, skip: &Option<String>) -> (r: Vec<Prop>)
    ensures
        prop_keys(r@) == prop_keys(ps@),
        required_keys(r@) == required_keys(ps@).intersect(member_keys(ms@, opt_view(*skip))),
        r@.len() == ps@.len(),
        forall|j: int|
            0 <= j < ps@.len() ==> (#[trigger] r@[j]).key@ == ps@[j].key@ && r@[j].schema
                == ps@[j].schema,
{
    let ghost ps0 = ps@;
    let ghost mk = member_keys(ms@, opt_view(*skip));
    let mut ps = ps;
    let mut i: usize = 0;
    while i < ps.len()
        invariant
            ps@.len() == ps0.len(),
            0 <= i <= ps@.len(),
            mk == member_keys(ms@, opt_view(*skip)),
            forall|j: int| 0 <= j < ps0.len() ==> ps@[j].key@ == ps0[j].key@,
            forall|j: int| 0 <= j < ps0.len() ==> ps@[j].schema == ps0[j].schema,
            forall|j: int|
                0 <= j < i ==> ps@[j].required == (ps0[j].required && mk.contains(ps0[j].key@)),
            forall|j: int| i <= j < ps0.len() ==> ps@[j].required == ps0[j].required,
        decreases ps0.len() - i,
    {
        let p = ps.remove(i);
        let keep = p.required && has_member(ms, &p.key, skip);
        ps.insert(i, Prop { key: p.key, required: keep, schema: p.schema });
        i = i + 1;
    }
    assert forall|k: Seq<char>| prop_keys(ps@).contains(k) <==> prop_keys(ps0).contains(k) by {
        if prop_keys(ps@).contains(k) {
            let j = choose|j: int| 0 <= j < ps@.len() && ps@[j].key@ == k;
            assert(ps0[j].key@ == k);
        }
        if prop_keys(ps0).contains(k) {
            let j = choose|j: int| 0 <= j < ps0.len() && ps0[j].key@ == k;
            assert(ps@[j].key@ == k);
        }
    }
    assert forall|k: Seq<char>|
        required_keys(ps@).contains(k) <==> required_keys(ps0).intersect(mk).contains(k) by {
        if required_keys(ps@).contains(k) {
            let j = choose|j: int| 0 <= j < ps@.len() && ps@[j].key@ == k && ps@[j].required;
            assert(ps0[j].key@ == k && ps0[j].required);
        }
        if required_keys(ps0).contains(k) && mk.contains(k) {
            let j = choose|j: int| 0 <= j < ps0.len() && ps0[j].key@ == k && ps0[j].required;
            assert(ps@[j].key@ == k && ps@[j].required);
        }
    }
    assert(prop_keys(ps@) =~= prop_keys(ps0));
    assert(required_keys(ps@) =~= required_keys(ps0).intersect(mk));
    ps
}

/// Merges each member of `ms` but `skip` into the property of its name,
/// adding a property for each new name, required when `fresh`.
#[verifier::rlimit(100)]
#[verifier::spinoff_prover]
fn add_props(
    ps: Vec<Prop>,
    ms: &Vec<Member>,
    skip: &Option<String>,
    fresh: bool,
    path: &Vec<String>,
    hints: &Hints,
) -> (r: Vec<Prop>)
    ensures
        prop_keys(r@) == prop_keys(ps@) + member_keys(ms@, opt_view(*skip)),
        required_keys(r@) == required_keys(ps@) + (if fresh {
            member_keys(ms@, opt_view(*skip)).difference(prop_keys(ps@))
        } else {
            Set::empty()
        }),
        props_extend(ps@, r@, hints.default_num_type),
        forall|j: int|
            0 <= j < ms@.len() && opt_view(*skip) != Some(ms@[j].key@) ==> exists|i: int|
                0 <= i < r@.len() && r@[i].key@ == ms@[j].key@ && accepts(
                    r@[i].schema,
                    #[trigger] ms@[j].value,
                    hints.default_num_type,
                ),
        props_wf(ps@) ==> props_wf(r@),
        props_wf(ps@) ==> forall|j: int, i: int| #![trigger ms@[j], r@[i]]
            once_in(ms@, j, ms@.len() as int) && opt_view(*skip) != Some(ms@[j].key@) && 0 <= i < r@.len()
                && r@[i].key@ == ms@[j].key@ ==> merged(
                old_child(ps@, ms@[j].key@),
                ms@[j].value,
                path_view(path@).push(ms@[j].key@),
                *hints,
                r@[i].schema,
            ),
        props_wf(ps@) ==> forall|i: int| #![trigger r@[i]]
            0 <= i < r@.len() && !member_keys(ms@, opt_view(*skip)).contains(r@[i].key@)
                ==> r@[i].schema == old_child(ps@, r@[i].key@),
    decreases ms, 0nat,
{
    let ghost sk = opt_view(*skip);
    let ghost d = hints.default_num_type;
    let ghost ps0 = ps@;
    let mut ps = ps;
    let mut i: usize = 0;
    while i < ms.len()
        invariant
            0 <= i <= ms@.len(),
            sk == opt_view(*skip),
            prop_keys(ps@) == prop_keys(ps0) + member_keys(ms@.take(i as int), sk),
            required_keys(ps@) == required_keys(ps0) + (if fresh {
                member_keys(ms@.take(i as int), sk).difference(prop_keys(ps0))
            } else {
                Set::empty()
            }),
            d == hints.default_num_type,
            props_extend(ps0, ps@, d),
            props_wf(ps0) ==> props_wf(ps@),
            props_wf(ps0) ==> forall|j: int, k: int| #![trigger ms@[j], ps@[k]]
                once_in(ms@, j, i as int) && sk != Some(ms@[j].key@) && 0 <= k < ps@.len()
                    && ps@[k].key@ == ms@[j].key@ ==> merged(
                    old_child(ps0, ms@[j].key@),
                    ms@[j].value,
                    path_view(path@).push(ms@[j].key@),
                    *hints,
                    ps@[k].schema,
                ),
            props_wf(ps0) ==> forall|k: int| #![trigger ps@[k]]
                0 <= k < ps@.len() && !member_keys(ms@.take(i as int), sk).contains(ps@[k].key@)
                    ==> ps@[k].schema == old_child(ps0, ps@[k].key@),
            forall|j: int|
                0 <= j < i && sk != Some(ms@[j].key@) ==> exists|k: int|
                    0 <= k < ps@.len() && ps@[k].key@ == ms@[j].key@ && accepts(
                        ps@[k].schema,
                        #[trigger] ms@[j].value,
                        d,
                    ),
        decreases ms@.len() - i,
    {
        let m = &ms[i];
        proof {
            lemma_member_keys_take(ms@, i as int, sk);
        }
        let skipped = match skip {
            Some(s) => *s == m.key,
            None => false,
        };
        let ghost before = ps@;
        if !skipped {
            let sub = extend_path(path, &m.key);
            match find_prop(&ps, &m.key) {
                Some(j) => {
                    let p = ps.remove(j);
                    let schema = p.schema.infer(&m.value, &sub, hints);
                    let np = Prop { key: p.key, required: p.required, schema };
                    ps.insert(j, np);
                    proof {
                        assert(ps@ =~= before.update(j as int, np));
                        lemma_replace_prop(before, j as int, np);
                        if props_wf(ps0) {
                            assert(props_wf(before));
                            assert(wf(before[j as int].schema));
                            assert forall|a: int, b: int| 0 <= a < b < ps@.len() implies ps@[a].key@ != ps@[b].key@ by {
                                assert(ps@[a].key@ == before[a].key@ && ps@[b].key@ == before[b].key@);
                            }
                            assert forall|k: int| #![trigger ps@[k]] 0 <= k < ps@.len() implies wf(ps@[k].schema) by {
                                if k != j {
                                    assert(ps@[k] == before[k]);
                                }
                            }
                        }
                        if props_wf(ps0) {
                            let n = i as int;
                            let kk = ms@[n].key@;
                            assert(before[j as int].key@ == kk);
                            assert forall|jm: int, k: int| #![trigger ms@[jm], ps@[k]]
                                once_in(ms@, jm, n + 1) && sk != Some(ms@[jm].key@) && 0 <= k < ps@.len()
                                    && ps@[k].key@ == ms@[jm].key@ implies merged(
                                    old_child(ps0, ms@[jm].key@),
                                    ms@[jm].value,
                                    path_view(path@).push(ms@[jm].key@),
                                    *hints,
                                    ps@[k].schema,
                                ) by {
                                if jm == n {
                                    assert(ps@[k].key@ == before[k].key@);
                                    assert(k == j) by {
                                        if k != j {
                                            if k < j {
                                                assert(before[k].key@ != before[j as int].key@);
                                            } else {
                                                assert(before[j as int].key@ != before[k].key@);
                                            }
                                        }
                                    }
                                    lemma_once_fresh_key(ms@, n, sk);
                                    assert(before[j as int].schema == old_child(ps0, kk));
                                    assert(ps@[k] == np);
                                } else {
                                    lemma_once_shrinks(ms@, jm, n);
                                    assert(ps@[k].key@ == before[k].key@);
                                    assert(k != j);
                                    assert(ps@[k] == before[k]);
                                }
                            }
                            assert forall|k: int| #![trigger ps@[k]]
                                0 <= k < ps@.len() && !member_keys(ms@.take(n + 1), sk).contains(ps@[k].key@)
                                    implies ps@[k].schema == old_child(ps0, ps@[k].key@) by {
                                assert(member_keys(ms@.take(n + 1), sk).contains(kk));
                                assert(ps@[k].key@ == before[k].key@);
                                assert(k != j);
                                assert(ps@[k] == before[k]);
                            }
                        }
                        assert(prop_keys(before).contains(m.key@));
                        assert forall|k: int| 0 <= k < ps0.len() implies #[trigger] ps@[k].key@
                            == ps0[k].key@ && extends(ps0[k].schema, ps@[k].schema, d) by {
                            assert(before[k].key@ == ps0[k].key@);
                            if k == j {
                                assert(ps@[k] == np);
                                lemma_extends_trans(ps0[k].schema, before[k].schema, np.schema, d);
                            } else {
                                assert(ps@[k] == before[k]);
                            }
                        }
                        assert forall|jj: int| 0 <= jj < i + 1 && sk != Some(ms@[jj].key@) implies exists|k: int|
                            0 <= k < ps@.len() && ps@[k].key@ == ms@[jj].key@ && accepts(
                                ps@[k].schema,
                                #[trigger] ms@[jj].value,
                                d,
                            ) by {
                            if jj < i {
                                let k = choose|k: int|
                                    0 <= k < before.len() && before[k].key@ == ms@[jj].key@
                                        && accepts(before[k].schema, ms@[jj].value, d);
                                if k == j {
                                    assert(accepts(ps@[k].schema, ms@[jj].value, d));
                                } else {
                                    assert(ps@[k] == before[k]);
                                }
                            } else {
                                assert(ps@[j as int] == np);
                            }
                        }
                    }
                },
                None => {
                    let schema = unknown().infer(&m.value, &sub, hints);
                    let np = Prop { key: m.key.clone(), required: fresh, schema };
                    ps.push(np);
                    proof {
                        lemma_push_prop(before, np);
                        if props_wf(ps0) {
                            let n = i as int;
                            let kk = ms@[n].key@;
                            assert(!prop_keys(ps0).contains(kk));
                            assert(old_child(ps0, kk) == unvisited()) by {
                                if exists|x: int| 0 <= x < ps0.len() && ps0[x].key@ == kk {
                                    let x = choose|x: int| 0 <= x < ps0.len() && ps0[x].key@ == kk;
                                    assert(prop_keys(ps0).contains(kk));
                                }
                            }
                            assert forall|jm: int, k: int| #![trigger ms@[jm], ps@[k]]
                                once_in(ms@, jm, n + 1) && sk != Some(ms@[jm].key@) && 0 <= k < ps@.len()
                                    && ps@[k].key@ == ms@[jm].key@ implies merged(
                                    old_child(ps0, ms@[jm].key@),
                                    ms@[jm].value,
                                    path_view(path@).push(ms@[jm].key@),
                                    *hints,
                                    ps@[k].schema,
                                ) by {
                                if jm == n {
                                    if k < before.len() {
                                        assert(ps@[k] == before[k]);
                                        assert(prop_keys(before).contains(kk));
                                    }
                                    assert(ps@[k] == np);
                                } else {
                                    lemma_once_shrinks(ms@, jm, n);
                                    if k < before.len() {
                                        assert(ps@[k] == before[k]);
                                    } else {
                                        assert(ps@[k] == np);
                                    }
                                }
                            }
                            assert forall|k: int| #![trigger ps@[k]]
                                0 <= k < ps@.len() && !member_keys(ms@.take(n + 1), sk).contains(ps@[k].key@)
                                    implies ps@[k].schema == old_child(ps0, ps@[k].key@) by {
                                assert(member_keys(ms@.take(n + 1), sk).contains(kk));
                                if k < before.len() {
                                    assert(ps@[k] == before[k]);
                                } else {
                                    assert(ps@[k] == np);
                                }
                            }
                        }
                        if props_wf(ps0) {
                            assert(props_wf(before));
                            assert forall|a: int, b: int| 0 <= a < b < ps@.len() implies ps@[a].key@ != ps@[b].key@ by {
                                assert(ps@[a] == before[a]);
                                if b < before.len() {
                                    assert(ps@[b] == before[b]);
                                } else {
                                    assert(ps@[b] == np);
                                    assert(!(prop_keys(before).contains(ps@[a].key@) && ps@[a].key@ == np.key@));
                                }
                            }
                            assert forall|k: int| #![trigger ps@[k]] 0 <= k < ps@.len() implies wf(ps@[k].schema) by {
                                if k < before.len() {
                                    assert(ps@[k] == before[k]);
                                }
                            }
                        }
                        assert forall|k: int| 0 <= k < ps0.len() implies #[trigger] ps@[k].key@
                            == ps0[k].key@ && extends(ps0[k].schema, ps@[k].schema, d) by {
                            assert(ps@[k] == before[k]);
                        }
                        assert forall|jj: int| 0 <= jj < i + 1 && sk != Some(ms@[jj].key@) implies exists|k: int|
                            0 <= k < ps@.len() && ps@[k].key@ == ms@[jj].key@ && accepts(
                                ps@[k].schema,
                                #[trigger] ms@[jj].value,
                                d,
                            ) by {
                            if jj < i {
                                let k = choose|k: int|
                                    0 <= k < before.len() && before[k].key@ == ms@[jj].key@
                                        && accepts(before[k].schema, ms@[jj].value, d);
                                assert(ps@[k] == before[k]);
                            } else {
                                assert(ps@[before.len() as int] == np);
                            }
                        }
                    }
                },
            }
        }
        proof {
            if skipped {
                assert(sk == Some(ms@[i as int].key@));
                if props_wf(ps0) {
                    assert forall|jm: int, k: int| #![trigger ms@[jm], ps@[k]]
                        once_in(ms@, jm, i + 1) && sk != Some(ms@[jm].key@) && 0 <= k < ps@.len()
                            && ps@[k].key@ == ms@[jm].key@ implies merged(
                            old_child(ps0, ms@[jm].key@),
                            ms@[jm].value,
                            path_view(path@).push(ms@[jm].key@),
                            *hints,
                            ps@[k].schema,
                        ) by {
                        lemma_once_shrinks(ms@, jm, i as int);
                    }
                }
            }
            let a = member_keys(ms@.take(i as int), sk);
            let b = member_keys(ms@.take(i + 1), sk);
            assert(prop_keys(ps@) =~= prop_keys(ps0) + b);
            if fresh {
                assert(required_keys(ps@) =~= required_keys(ps0) + b.difference(prop_keys(ps0)));
            } else {
                assert(required_keys(ps@) =~= required_keys(ps0) + Set::empty());
            }
        }
        i = i + 1;
    }
    assert(ms@.take(ms@.len() as int) =~= ms@);
    ps
}

/// Merges the object `ms` into the properties `ps`.
fn merge_props(
    ps: Vec<Prop>,
    ms: &Vec<Member>,
    skip: &Option<String>,
    path: &Vec<String>,
    hints: &Hints,
) -> (r: Vec<Prop>)
    ensures
        prop_keys(r@) == prop_keys(ps@) + member_keys(ms@, opt_view(*skip)),
        required_keys(r@) == required_keys(ps@).intersect(member_keys(ms@, opt_view(*skip))),
        props_extend(ps@, r@, hints.default_num_type),
        props_accept(r@, ms@, opt_view(*skip), hints.default_num_type),
        props_wf(ps@) ==> props_wf(r@),
        props_wf(ps@) ==> forall|j: int, i: int| #![trigger ms@[j], r@[i]]
            once_in(ms@, j, ms@.len() as int) && opt_view(*skip) != Some(ms@[j].key@) && 0 <= i < r@.len()
                && r@[i].key@ == ms@[j].key@ ==> merged(
                old_child(ps@, ms@[j].key@),
                ms@[j].value,
                path_view(path@).push(ms@[j].key@),
                *hints,
                r@[i].schema,
            ),
        props_wf(ps@) ==> forall|i: int| #![trigger r@[i]]
            0 <= i < r@.len() && !member_keys(ms@, opt_view(*skip)).contains(r@[i].key@)
                ==> r@[i].schema == old_child(ps@, r@[i].key@),
    decreases ms, 1nat,
{
    let ghost d = hints.default_num_type;
    let dm = demote(ps, ms, skip);
    let r = add_props(dm, ms, skip, false, path, hints);
    assert(required_keys(r@) =~= required_keys(dm@));
    proof {
        assert forall|k: int| 0 <= k < ps@.len() implies #[trigger] r@[k].key@ == ps@[k].key@
            && extends(ps@[k].schema, r@[k].schema, d) by {
            assert(dm@[k].key@ == ps@[k].key@);
            assert(r@[k].key@ == dm@[k].key@);
            assert(extends(dm@[k].schema, r@[k].schema, d));
        }
        lemma_props_accept_intro(r@, ms@, opt_view(*skip), d);
        assert(dm@.len() == ps@.len());
        assert(props_extend(ps@, r@, d));
        if props_wf(ps@) {
            assert forall|a: int, b: int| 0 <= a < b < dm@.len() implies dm@[a].key@ != dm@[b].key@ by {
                assert(dm@[a].key@ == ps@[a].key@ && dm@[b].key@ == ps@[b].key@);
            }
            assert forall|k: int| #![trigger dm@[k]] 0 <= k < dm@.len() implies wf(dm@[k].schema) by {
                assert(dm@[k].schema == ps@[k].schema);
            }
            assert(props_wf(dm@));
            assert forall|kk: Seq<char>| #[trigger] old_child(dm@, kk) == old_child(ps@, kk) by {
                if exists|x: int| 0 <= x < ps@.len() && ps@[x].key@ == kk {
                    let x = choose|x: int| 0 <= x < ps@.len() && ps@[x].key@ == kk;
                    lemma_old_child_at(ps@, x);
                    assert(dm@[x].key@ == kk && dm@[x].schema == ps@[x].schema);
                    lemma_old_child_at(dm@, x);
                } else {
                    if exists|x: int| 0 <= x < dm@.len() && dm@[x].key@ == kk {
                        let x = choose|x: int| 0 <= x < dm@.len() && dm@[x].key@ == kk;
                        assert(ps@[x].key@ == kk);
                    }
                }
            }
        }
    }
    r
}

/// Merges the object `ms`, whose tag property `t` holds `tv`, into the
/// branches `bs`.
fn merge_branch(
    bs: Vec<Branch>,
    t: &String,
    tv: String,
    ms: &Vec<Member>,
    path: &Vec<String>,
    hints: &Hints,
) -> (r: Vec<Branch>)
    ensures
        branch_tags(r@) == branch_tags(bs@).insert(tv@),
        exists|b: int| is_first_branch(r@, tv@, b),
        props_accept(r@[branch_index(r@, tv@)].props@, ms@, Some(t@), hints.default_num_type),
        r@.len() >= bs@.len(),
        forall|b: int|
            0 <= b < bs@.len() ==> (#[trigger] r@[b]).tag_value@ == bs@[b].tag_value@
                && props_extend(bs@[b].props@, r@[b].props@, hints.default_num_type)
                && required_keys(r@[b].props@).subset_of(required_keys(bs@[b].props@)),
        branches_wf(bs@) ==> branches_wf(r@),
        branches_wf(bs@) ==> forall|j: int, i: int| #![trigger ms@[j], r@[branch_index(r@, tv@)].props@[i]]
            once_in(ms@, j, ms@.len() as int) && Some(t@) != Some(ms@[j].key@) && 0 <= i < r@[branch_index(r@, tv@)].props@.len()
                && r@[branch_index(r@, tv@)].props@[i].key@ == ms@[j].key@ ==> merged(
                old_child(old_branch(bs@, tv@), ms@[j].key@),
                ms@[j].value,
                path_view(path@).push(ms@[j].key@),
                *hints,
                r@[branch_index(r@, tv@)].props@[i].schema,
            ),
        branches_wf(bs@) ==> props_merged_shape(old_branch(bs@, tv@), r@[branch_index(r@, tv@)].props@, ms@, t@),
        forall|b: int| #![trigger bs@[b]]
            0 <= b < bs@.len() && bs@[b].tag_value@ != tv@ ==> r@[b] == bs@[b],
    decreases ms, 2nat,
{
    let ghost d = hints.default_num_type;
    let ghost before = bs@;
    let mut bs = bs;
    let skip = Some(t.clone());
    match find_branch(&bs, &tv) {
        Some(j) => {
            let b = bs.remove(j);
            let props = merge_props(b.props, ms, &skip, path, hints);
            let nb = Branch { tag_value: b.tag_value, props };
            bs.insert(j, nb);
            proof {
                assert(bs@ =~= before.update(j as int, nb));
                lemma_replace_branch(before, j as int, nb);
                assert(is_first_branch(before, tv@, j as int));
                lemma_branch_index(before, tv@, j as int);
                assert(old_branch(before, tv@) == before[j as int].props@);
                assert(bs@[j as int] == nb);
                assert forall|b: int| #![trigger before[b]] 0 <= b < before.len() && before[b].tag_value@ != tv@ implies bs@[b] == before[b] by {
                    assert(b != j);
                }
                if branches_wf(before) {
                    assert(props_wf(before[j as int].props@));
                    assert forall|a: int, c: int| 0 <= a < c < bs@.len() implies bs@[a].tag_value@ != bs@[c].tag_value@ by {
                        assert(bs@[a].tag_value@ == before[a].tag_value@ && bs@[c].tag_value@ == before[c].tag_value@);
                    }
                    assert forall|k: int| #![trigger bs@[k]] 0 <= k < bs@.len() implies props_wf(bs@[k].props@) by {
                        if k != j {
                            assert(bs@[k] == before[k]);
                        }
                    }
                }
                assert(before[j as int].tag_value@ == tv@);
                assert(branch_tags(before).contains(tv@));
                assert(is_first_branch(bs@, tv@, j as int));
                lemma_branch_index(bs@, tv@, j as int);
                assert(branch_tags(before).insert(tv@) =~= branch_tags(before));
                assert(bs@[j as int] == nb);
                assert forall|k: int| 0 <= k < before.len() implies (#[trigger] bs@[k]).tag_value@
                    == before[k].tag_value@ && props_extend(before[k].props@, bs@[k].props@, d)
                    && required_keys(bs@[k].props@).subset_of(required_keys(before[k].props@)) by {
                    if k != j {
                        assert(bs@[k] == before[k]);
                        assert forall|i: int| 0 <= i < before[k].props@.len() implies #[trigger] bs@[k].props@[i].key@
                            == before[k].props@[i].key@ && extends(before[k].props@[i].schema, bs@[k].props@[i].schema, d) by {}
                    }
                }
            }
        },
        None => {
            let props = add_props(Vec::new(), ms, &skip, true, path, hints);
            let nb = Branch { tag_value: tv, props };
            bs.push(nb);
            proof {
                lemma_push_branch(before, nb);
                assert(!exists|b: int| is_first_branch(before, tv@, b)) by {
                    if exists|b: int| is_first_branch(before, tv@, b) {
                        let b = choose|b: int| is_first_branch(before, tv@, b);
                        assert(branch_tags(before).contains(tv@));
                    }
                }
                assert(old_branch(before, tv@) == Seq::<Prop>::empty());
                assert forall|b: int| #![trigger before[b]] 0 <= b < before.len() && before[b].tag_value@ != tv@ implies bs@[b] == before[b] by {}
                assert(props_wf(Seq::<Prop>::empty()));
                if branches_wf(before) {
                    assert forall|a: int, c: int| 0 <= a < c < bs@.len() implies bs@[a].tag_value@ != bs@[c].tag_value@ by {
                        assert(bs@[a] == before[a]);
                        if c < before.len() {
                            assert(bs@[c] == before[c]);
                        } else {
                            assert(bs@[c] == nb);
                            assert(!(branch_tags(before).contains(bs@[a].tag_value@) && bs@[a].tag_value@ == nb.tag_value@));
                        }
                    }
                    assert forall|k: int| #![trigger bs@[k]] 0 <= k < bs@.len() implies props_wf(bs@[k].props@) by {
                        if k < before.len() {
                            assert(bs@[k] == before[k]);
                        }
                    }
                }
                assert(prop_keys(Seq::<Prop>::empty()) =~= Set::<Seq<char>>::empty());
                assert(required_keys(Seq::<Prop>::empty()) =~= Set::<Seq<char>>::empty());
                assert(bs@[before.len() as int] == nb);
                lemma_props_accept_intro(nb.props@, ms@, Some(t@), d);
                assert forall|c: int| 0 <= c < before.len() implies bs@[c].tag_value@ != tv@ by {
                    assert(bs@[c] == before[c]);
                }
                assert(is_first_branch(bs@, tv@, before.len() as int));
                lemma_branch_index(bs@, tv@, before.len() as int);
                assert forall|k: int| 0 <= k < before.len() implies (#[trigger] bs@[k]).tag_value@
                    == before[k].tag_value@ && props_extend(before[k].props@, bs@[k].props@, d)
                    && required_keys(bs@[k].props@).subset_of(required_keys(before[k].props@)) by {
                    assert(bs@[k] == before[k]);
                    assert forall|i: int| 0 <= i < before[k].props@.len() implies #[trigger] bs@[k].props@[i].key@
                        == before[k].props@[i].key@ && extends(before[k].props@[i].schema, bs@[k].props@[i].schema, d) by {}
                }
            }
        },
    }
    bs
}

/// Merges every member of the array `a` into `c`.
fn fold_elements(c: InferredSchema, a: &Vec<Value>, path: &Vec<String>, hints: &Hints) -> (r:
    InferredSchema)
    ensures
        extends(c, r, hints.default_num_type),
        forall|i: int| 0 <= i < a@.len() ==> accepts(r, #[trigger] a@[i], hints.default_num_type),
        wf(c) ==> wf(r),
        wf(c) ==> exists|cs: Seq<InferredSchema>| #![trigger cs[0]]
            cs.len() == a@.len() + 1 && cs[0] == c && cs[a@.len() as int] == r && forall|i: int|
                #![trigger a@[i]]
                0 <= i < a@.len() ==> merged(cs[i], a@[i], path_view(path@), *hints, cs[i + 1]),
    decreases a, 0nat,
{
    let ghost d = hints.default_num_type;
    let ghost c0 = c;
    let ghost mut cs: Seq<InferredSchema> = seq![c];
    let mut c = c;
    let mut i: usize = 0;
    while i < a.len()
        invariant
            0 <= i <= a@.len(),
            d == hints.default_num_type,
            extends(c0, c, d),
            forall|j: int| 0 <= j < i ==> accepts(c, #[trigger] a@[j], d),
            wf(c0) ==> wf(c),
            cs.len() == i + 1,
            cs[0] == c0,
            cs[i as int] == c,
            wf(c0) ==> forall|j: int| #![trigger a@[j]]
                0 <= j < i ==> merged(cs[j], a@[j], path_view(path@), *hints, cs[j + 1]),
        decreases a@.len() - i,
    {
        let ghost prev = c;
        let ghost cs0 = cs;
        c = c.infer(&a[i], path, hints);
        proof {
            cs = cs.push(c);
            assert forall|j: int| #![trigger a@[j]] 0 <= j < i + 1 && wf(c0) implies merged(cs[j], a@[j], path_view(path@), *hints, cs[j + 1]) by {
                if j < i {
                    assert(cs[j] == cs0[j] && cs[j + 1] == cs0[j + 1]);
                }
            }
        }
        proof {
            lemma_extends_trans(c0, prev, c, d);
            assert forall|j: int| 0 <= j < i + 1 implies accepts(c, #[trigger] a@[j], d) by {
                if j < i {
                    assert(accepts(prev, a@[j], d));
                }
            }
        }
        i = i + 1;
    }
    c
}

/// Merges every member value of the map `ms` into `c`. Map members are
/// visited at the map's path extended by the name `-`.
fn fold_values(c: InferredSchema, ms: &Vec<Member>, path: &Vec<String>, hints: &Hints) -> (r:
    InferredSchema)
    ensures
        extends(c, r, hints.default_num_type),
        forall|j: int|
            0 <= j < ms@.len() ==> accepts(r, #[trigger] ms@[j].value, hints.default_num_type),
        wf(c) ==> wf(r),
        wf(c) ==> exists|cs: Seq<InferredSchema>| #![trigger cs[0]]
            cs.len() == ms@.len() + 1 && cs[0] == c && cs[ms@.len() as int] == r && forall|i: int|
                #![trigger ms@[i]]
                0 <= i < ms@.len() ==> merged(cs[i], ms@[i].value, path_view(path@).push("-"@), *hints, cs[i + 1]),
    decreases ms, 0nat,
{
    let ghost d = hints.default_num_type;
    let ghost c0 = c;
    let dash = String::from_str("-");
    let sub = extend_path(path, &dash);
    let ghost mut cs: Seq<InferredSchema> = seq![c];
    let mut c = c;
    let mut i: usize = 0;
    while i < ms.len()
        invariant
            0 <= i <= ms@.len(),
            d == hints.default_num_type,
            extends(c0, c, d),
            forall|j: int| 0 <= j < i ==> accepts(c, #[trigger] ms@[j].value, d),
            wf(c0) ==> wf(c),
            path_view(sub@) == path_view(path@).push("-"@),
            cs.len() == i + 1,
            cs[0] == c0,
            cs[i as int] == c,
            wf(c0) ==> forall|j: int| #![trigger ms@[j]]
                0 <= j < i ==> merged(cs[j], ms@[j].value, path_view(path@).push("-"@), *hints, cs[j + 1]),
        decreases ms@.len() - i,
    {
        let ghost prev = c;
        let ghost cs0 = cs;
        c = c.infer(&ms[i].value, &sub, hints);
        proof {
            cs = cs.push(c);
            assert forall|j: int| #![trigger ms@[j]] 0 <= j < i + 1 && wf(c0) implies merged(cs[j], ms@[j].value, path_view(path@).push("-"@), *hints, cs[j + 1]) by {
                if j < i {
                    assert(cs[j] == cs0[j] && cs[j + 1] == cs0[j + 1]);
                }
            }
        }
        proof {
            lemma_extends_trans(c0, prev, c, d);
            assert forall|j: int| 0 <= j < i + 1 implies accepts(c, #[trigger] ms@[j].value, d) by {
                if j < i {
                    assert(accepts(prev, ms@[j].value, d));
                }
            }
        }
        i = i + 1;
    }
    c
}

/// The branches of a tagged union whose first example is the object `ms`,
/// whose tag property `t` holds `tv`.
fn first_branch(t: &String, tv: String, ms: &Vec<Member>, path: &Vec<String>, hints: &Hints) -> (r: Vec<Branch>)
    ensures
        branch_tags(r@) == set![tv@],
        is_first_branch(r@, tv@, 0),
        branch_index(r@, tv@) == 0,
        props_accept(r@[0].props@, ms@, Some(t@), hints.default_num_type),
        branches_wf(r@),
        forall|j: int, i: int| #![trigger ms@[j], r@[0].props@[i]]
            once_in(ms@, j, ms@.len() as int) && Some(t@) != Some(ms@[j].key@) && 0 <= i < r@[0].props@.len()
                && r@[0].props@[i].key@ == ms@[j].key@ ==> merged(
                old_child(Seq::empty(), ms@[j].key@),
                ms@[j].value,
                path_view(path@).push(ms@[j].key@),
                *hints,
                r@[0].props@[i].schema,
            ),
        props_merged_shape(Seq::empty(), r@[0].props@, ms@, t@),
    decreases ms, 1nat,
{
    let ghost d = hints.default_num_type;
    let props = add_props(Vec::new(), ms, &Some(t.clone()), true, path, hints);
    let mut bs: Vec<Branch> = Vec::new();
    let nb = Branch { tag_value: tv, props };
    bs.push(nb);
    proof {
        lemma_push_branch(Seq::empty(), nb);
        assert(bs@ =~= Seq::<Branch>::empty().push(nb));
        assert(Set::<Seq<char>>::empty().insert(nb.tag_value@) =~= set![nb.tag_value@]);
        assert(branch_tags(Seq::empty()) =~= Set::<Seq<char>>::empty());
        assert(prop_keys(Seq::<Prop>::empty()) =~= Set::<Seq<char>>::empty());
        assert(required_keys(Seq::<Prop>::empty()) =~= Set::<Seq<char>>::empty());
        assert(bs@[0] == nb);
        lemma_props_accept_intro(nb.props@, ms@, Some(t@), d);
        assert(is_first_branch(bs@, nb.tag_value@, 0));
        lemma_branch_index(bs@, nb.tag_value@, 0);
        assert(props_wf(Seq::<Prop>::empty()));
        assert(props_wf(bs@[0].props@));
    }
    bs
}

/// The state of a position at which the first example is the object `ms`.
#[verifier::rlimit(100)]
#[verifier::spinoff_prover]
fn infer_new_object(ms: &Vec<Member>, path: &Vec<String>, hints: &Hints) -> (r: Variant)
    ensures
        r.shape() == object_step(Shape::Unknown, ms@, path_view(path@), *hints),
        accepts(InferredSchema { nullable: false, variant: r }, Value::Object(*ms), hints.default_num_type),
        wf(InferredSchema { nullable: false, variant: r }),
        merged(unvisited(), Value::Object(*ms), path_view(path@), *hints, InferredSchema { nullable: false, variant: r }),
    decreases ms, 2nat,
{
    let ghost d = hints.default_num_type;
    if let Some(t) = hints.discriminator.tag(path) {
        if let Some(tv) = get_string_member(ms, &t) {
            let bs = first_branch(&t, tv, ms, path, hints);
            proof {
                lemma_wf_branches(InferredSchema { nullable: false, variant: Variant::Discriminator(t, bs) }, t, bs);
            }
            return Variant::Discriminator(t, bs);
        }
        return Variant::Any;
    }
    if hints.values.matches(path) {
        Variant::Values(Box::new(fold_values(unknown(), ms, path, hints)))
    } else {
        let ps = add_props(Vec::new(), ms, &None, true, path, hints);
        proof {
            assert(prop_keys(Seq::empty()) =~= Set::<Seq<char>>::empty());
            assert(required_keys(Seq::empty()) =~= Set::<Seq<char>>::empty());
            assert(prop_keys(ps@) =~= member_keys(ms@, None));
            assert(required_keys(ps@) =~= member_keys(ms@, None));
            lemma_props_accept_intro(ps@, ms@, None, d);
            lemma_wf_props(InferredSchema { nullable: false, variant: Variant::Properties(ps) }, ps);
            assert(props_wf(Seq::<Prop>::empty()));
        }
        Variant::Properties(ps)
    }
}

impl InferredSchema {
    /// Merges the example `v`, seen at `path`, into this state. The result
    /// accepts `v` and every example that this state accepts.
    #[verifier::rlimit(60)]
    pub fn infer(self, v: &Value, path: &Vec<String>, hints: &Hints) -> (r: InferredSchema)
        ensures
            r.nullable == (self.nullable || v is Null),
            r.shape() == step(self.shape(), *v, path_view(path@), *hints),
            accepts(r, *v, hints.default_num_type),
            extends(self, r, hints.default_num_type),
            wf(self) ==> wf(r),
            wf(self) ==> merged(self, *v, path_view(path@), *hints, r),
        decreases v, 3nat,
    {
        let ghost old_self = self;
        let ghost dd = hints.default_num_type;
        let nullable = self.nullable;
        let d = hints.default_num_type;
        match v {
            Value::Null => InferredSchema { nullable: true, variant: self.variant },
            Value::Bool(_) => match self.variant {
                Variant::Unknown | Variant::Boolean => InferredSchema { nullable, variant: Variant::Boolean },
                _ => InferredSchema { nullable, variant: Variant::Any },
            },
            Value::Number(n) => match self.variant {
                Variant::Unknown => {
                    let r = InferredSchema { nullable, variant: Variant::Number(classify_with_default(*n, d)) };
                    proof {
                        lemma_classify_default_fits(*n, dd);
                    }
                    r
                },
                Variant::Number(k) => {
                    let c = classify_with_default(*n, d);
                    let r = InferredSchema { nullable, variant: Variant::Number(join(k, c)) };
                    proof {
                        lemma_classify_default_fits(*n, dd);
                        lemma_join_is_least_upper_bound(k, c, k);
                        lemma_fits_widens(c, join_spec(k, c), *n);
                        assert forall|e: Value| accepts(old_self, e, dd) implies #[trigger] accepts(r, e, dd) by {
                            if let Value::Number(x) = e {
                                lemma_fits_widens(k, join_spec(k, c), x);
                            }
                        }
                    }
                    r
                },
                _ => InferredSchema { nullable, variant: Variant::Any },
            },
            Value::String(s) => {
                let ts = is_timestamp(s.as_str());
                let hinted = hints.enums.matches(path);
                let r = InferredSchema { nullable, variant: infer_string(self.variant, s, ts, hinted) };
                proof {
                    assert forall|e: Value| accepts(old_self, e, dd) implies #[trigger] accepts(r, e, dd) by {
                        if let Value::String(x) = e {
                            if let Variant::Enum(ev) = r.variant {
                                if let Variant::Enum(ov) = old_self.variant {
                                    assert(string_set(ov@).contains(x@));
                                }
                            }
                        }
                    }
                }
                r
            },
            Value::Array(a) => match self.variant {
                Variant::Unknown => InferredSchema {
                    nullable,
                    variant: Variant::Elements(Box::new(fold_elements(unknown(), a, path, hints))),
                },
                Variant::Elements(c) => {
                    let ghost c1 = *c;
                    let c2 = fold_elements(*c, a, path, hints);
                    let ghost g2 = c2;
                    let r = InferredSchema { nullable, variant: Variant::Elements(Box::new(c2)) };
                    proof {
                        assert forall|e: Value| accepts(old_self, e, dd) implies #[trigger] accepts(r, e, dd) by {
                            if let Value::Array(a0) = e {
                                assert forall|i: int| 0 <= i < a0@.len() implies accepts(g2, #[trigger] a0@[i], dd) by {
                                    assert(accepts(c1, a0@[i], dd));
                                }
                            }
                        }
                    }
                    r
                },
                _ => InferredSchema { nullable, variant: Variant::Any },
            },
            Value::Object(ms) => match self.variant {
                Variant::Unknown => {
                    let r = InferredSchema { nullable, variant: infer_new_object(ms, path, hints) };
                    proof {
                        let q = InferredSchema { nullable: false, variant: r.variant };
                        assert(merged(unvisited(), *v, path_view(path@), *hints, q));
                        if let Variant::Properties(ps2) = &r.variant {
                            assert forall|j: int, i: int| #![trigger ms@[j], ps2@[i]]
                                once_in(ms@, j, ms@.len() as int) && 0 <= i < ps2@.len() && ps2@[i].key@ == ms@[j].key@
                                    implies merged(old_child(Seq::<Prop>::empty(), ms@[j].key@), ms@[j].value,
                                    path_view(path@).push(ms@[j].key@), *hints, ps2@[i].schema) by {
                                let _ = ms@[j];
                                let _ = ps2@[i];
                            }
                        }
                    }
                    r
                },
                Variant::Properties(ps) => {
                    let ghost p0 = ps@;
                    proof {
                        lemma_wf_props(old_self, ps);
                    }
                    let p2 = merge_props(ps, ms, &None, path, hints);
                    let ghost g2 = p2@;
                    let r = InferredSchema { nullable, variant: Variant::Properties(p2) };
                    proof {
                        if wf(old_self) {
                            assert forall|j: int, i: int| #![trigger ms@[j], g2[i]]
                                once_in(ms@, j, ms@.len() as int) && 0 <= i < g2.len() && g2[i].key@ == ms@[j].key@
                                    implies merged(old_child(p0, ms@[j].key@), ms@[j].value,
                                    path_view(path@).push(ms@[j].key@), *hints, g2[i].schema) by {
                                let _ = ms@[j];
                                let _ = g2[i];
                            }
                        }
                        assert forall|e: Value| accepts(old_self, e, dd) implies #[trigger] accepts(r, e, dd) by {
                            if let Value::Object(m0) = e {
                                lemma_props_accept_kept(p0, g2, m0@, None, dd);
                            }
                        }
                    }
                    r
                },
                Variant::Values(c) => {
                    let ghost c1 = *c;
                    let c2 = fold_values(*c, ms, path, hints);
                    let ghost g2 = c2;
                    let r = InferredSchema { nullable, variant: Variant::Values(Box::new(c2)) };
                    proof {
                        assert forall|e: Value| accepts(old_self, e, dd) implies #[trigger] accepts(r, e, dd) by {
                            if let Value::Object(m0) = e {
                                assert forall|j: int| 0 <= j < m0@.len() implies accepts(g2, #[trigger] m0@[j].value, dd) by {
                                    assert(accepts(c1, m0@[j].value, dd));
                                }
                            }
                        }
                    }
                    r
                },
                Variant::Discriminator(t, bs) => match get_string_member(ms, &t) {
                    Some(tv) => {
                        let ghost b0 = bs;
                        let ghost tg = t;
                        let b2 = merge_branch(bs, &t, tv, ms, path, hints);
                        let ghost g2 = b2;
                        let r = InferredSchema { nullable, variant: Variant::Discriminator(t, b2) };
                        proof {
                            assert forall|e: Value| accepts(old_self, e, dd) implies #[trigger] accepts(r, e, dd) by {
                                lemma_branches_kept(tg, b0, g2, e, nullable, dd);
                            }
                        }
                        r
                    },
                    None => InferredSchema { nullable, variant: Variant::Any },
                },
                _ => InferredSchema { nullable, variant: Variant::Any },
            },
        }
    }
}

} // verus!
